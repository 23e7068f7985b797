//! Tags: user-chosen names for persisted identity sets.
//!
//! A tag names a directory on disk, so it must be a legal single path
//! segment: non-empty, free of separators and NUL, and not one of the two
//! special components.  Tags are kept in a fixed lexicographic order (by
//! character code point) so that every listing of the database is
//! deterministic.

use vstd::prelude::*;

verus! {

/// A tag is a plain name.
pub type Tag = String;

/// A tag paired with whether any identity of the current listing carries it.
pub struct HighlightedTag {
    pub highlighted: bool,
    pub tag: Tag,
}

/// A legal single filesystem path segment: non-empty, no separator or NUL,
/// and not the two special components.
pub open spec fn legal_tag(t: Seq<char>) -> bool {
    &&& t.len() > 0
    &&& (forall|i: int| 0 <= i < t.len() ==> t[i] != '/' && t[i] != '\u{0}')
    &&& t != seq!['.']
    &&& t != seq!['.', '.']
}

/// Decides `legal_tag` for a tag name.
#[verifier::loop_isolation(false)]
pub fn is_legal_tag(t: &str) -> (r: bool)
    ensures
        r == legal_tag(t@),
{
    let n = t.unicode_len();
    if n == 0 {
        return false;
    }
    let mut i: usize = 0;
    while i < n
        invariant
            i <= n,
            forall|j: int| 0 <= j < i ==> t@[j] != '/' && t@[j] != '\u{0}',
        decreases n - i,
    {
        let c = t.get_char(i);
        if c == '/' || c == '\u{0}' {
            return false;
        }
        i = i + 1;
    }
    if n == 1 && t.get_char(0) == '.' {
        assert(t@ =~= seq!['.']);
        return false;
    }
    if n == 2 && t.get_char(0) == '.' && t.get_char(1) == '.' {
        assert(t@ =~= seq!['.', '.']);
        return false;
    }
    assert(t@ != seq!['.'] && t@ != seq!['.', '.']);
    true
}

/// Strict lexicographic order on character sequences, by code point, with a
/// proper prefix ordered first.  This is the order tags are listed in.
pub open spec fn seq_lt(a: Seq<char>, b: Seq<char>) -> bool
    decreases a.len(),
{
    if b.len() == 0 {
        false
    } else if a.len() == 0 {
        true
    } else if a[0] != b[0] {
        a[0] < b[0]
    } else {
        seq_lt(a.drop_first(), b.drop_first())
    }
}

/// Equal prefixes do not affect the comparison of what follows them.
proof fn lemma_seq_lt_common_prefix(a: Seq<char>, b: Seq<char>, i: int)
    requires
        0 <= i <= a.len(),
        i <= b.len(),
        forall|j: int| 0 <= j < i ==> a[j] == b[j],
    ensures
        seq_lt(a, b) == seq_lt(a.skip(i), b.skip(i)),
    decreases i,
{
    if i > 0 {
        lemma_seq_lt_common_prefix(a.drop_first(), b.drop_first(), i - 1);
        assert(a.drop_first().skip(i - 1) =~= a.skip(i));
        assert(b.drop_first().skip(i - 1) =~= b.skip(i));
    } else {
        assert(a.skip(0) =~= a);
        assert(b.skip(0) =~= b);
    }
}

/// The order is total: two sequences compare one way, the other, or are equal.
pub proof fn lemma_seq_lt_trichotomy(a: Seq<char>, b: Seq<char>)
    ensures
        seq_lt(a, b) || seq_lt(b, a) || a == b,
        seq_lt(a, b) ==> !seq_lt(b, a) && a != b,
    decreases a.len(),
{
    if a.len() > 0 && b.len() > 0 && a[0] == b[0] {
        lemma_seq_lt_trichotomy(a.drop_first(), b.drop_first());
        assert(seq_lt(a, b) == seq_lt(a.drop_first(), b.drop_first()));
        assert(seq_lt(b, a) == seq_lt(b.drop_first(), a.drop_first()));
        if !seq_lt(a, b) && !seq_lt(b, a) {
            assert(a.drop_first() == b.drop_first());
            assert forall|j: int| 0 <= j < a.len() implies a[j] == b[j] by {
                if j > 0 {
                    assert(a[j] == a.drop_first()[j - 1]);
                    assert(b[j] == b.drop_first()[j - 1]);
                }
            }
            assert(a =~= b);
        }
        if seq_lt(a, b) {
            assert(a.drop_first() != b.drop_first());
            assert(a != b);
        }
    }
}

/// The order is transitive.
pub proof fn lemma_seq_lt_trans(a: Seq<char>, b: Seq<char>, c: Seq<char>)
    requires
        seq_lt(a, b),
        seq_lt(b, c),
    ensures
        seq_lt(a, c),
    decreases a.len(),
{
    if a.len() > 0 && b.len() > 0 && c.len() > 0 && a[0] == b[0] && b[0] == c[0] {
        lemma_seq_lt_trans(a.drop_first(), b.drop_first(), c.drop_first());
    }
}

/// Decides `seq_lt` on two tag names.
#[verifier::loop_isolation(false)]
pub fn str_lt(a: &str, b: &str) -> (r: bool)
    ensures
        r == seq_lt(a@, b@),
{
    let an = a.unicode_len();
    let bn = b.unicode_len();
    let mut i: usize = 0;
    while i < an && i < bn
        invariant
            i <= an,
            i <= bn,
            forall|j: int| 0 <= j < i ==> a@[j] == b@[j],
        decreases an - i,
    {
        let ca = a.get_char(i);
        let cb = b.get_char(i);
        if ca != cb {
            proof {
                lemma_seq_lt_common_prefix(a@, b@, i as int);
            }
            return ca < cb;
        }
        i = i + 1;
    }
    proof {
        lemma_seq_lt_common_prefix(a@, b@, i as int);
    }
    an < bn
}

} // verus!
