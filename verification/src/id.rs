//! Content identity: a file is identified by its size and checksum,
//! independent of its path or name.
//!
//! An identity has one canonical text form, `s<size>_h<hash>` with both
//! numbers in decimal, used as the marker file name when a tag is persisted.
//! `encode` produces that form and `parse` is its exact inverse.

use vstd::prelude::*;

verus! {

/// Content-derived identity of a file: its byte count and the CRC-32 of its
/// bytes.  Two files with equal size and checksum are treated as the same
/// content; this is a probabilistic identity, not a guarantee.
#[derive(Clone, Copy, PartialEq, Eq, Structural, Hash, PartialOrd, Ord, Debug)]
pub struct Id {
    pub size: u64,
    pub hash: u32,
}

/// True for the ten ASCII decimal digit characters.
pub open spec fn is_digit(c: char) -> bool {
    '0' <= c && c <= '9'
}

/// Numeric value of a digit character.
pub open spec fn digit_val(c: char) -> nat
    recommends
        is_digit(c),
{
    (c as nat - '0' as nat) as nat
}

/// The digit character for a value below ten.
pub open spec fn digit_char(d: nat) -> char
    recommends
        d < 10,
{
    if d == 0 {
        '0'
    } else if d == 1 {
        '1'
    } else if d == 2 {
        '2'
    } else if d == 3 {
        '3'
    } else if d == 4 {
        '4'
    } else if d == 5 {
        '5'
    } else if d == 6 {
        '6'
    } else if d == 7 {
        '7'
    } else if d == 8 {
        '8'
    } else {
        '9'
    }
}

/// Decimal digit sequence of `n`, most significant digit first,
/// without leading zeros (a single `'0'` for zero).
pub open spec fn dec_digits(n: nat) -> Seq<char>
    decreases n,
{
    if n < 10 {
        seq![digit_char(n)]
    } else {
        dec_digits(n / 10).push(digit_char(n % 10))
    }
}

/// Value of a digit sequence read as a decimal number.
pub open spec fn digits_val(s: Seq<char>) -> nat
    decreases s.len(),
{
    if s.len() == 0 {
        0
    } else {
        digits_val(s.drop_last()) * 10 + digit_val(s.last())
    }
}

/// The canonical text form of an identity.
pub open spec fn spec_encode(id: Id) -> Seq<char> {
    seq!['s'] + dec_digits(id.size as nat) + seq!['_', 'h'] + dec_digits(id.hash as nat)
}

/// Why a text form was rejected: either the separator between the two
/// numbers is missing, or a token around it is malformed or out of range.
#[derive(Clone, Copy, PartialEq, Eq, Structural, Debug)]
pub enum ParseError {
    NotEnoughTokens,
    UnexpectedToken,
}

/// Every position in `from..to` holds a digit character.
pub open spec fn all_digits(s: Seq<char>, from: int, to: int) -> bool {
    forall|i: int| from <= i < to ==> is_digit(s[i])
}

/// `u` marks the underscore of a well-formed identity string:
/// an `'s'`, at least one digit, `'_'`, an `'h'`, at least one digit.
pub open spec fn id_marker(s: Seq<char>, u: int) -> bool {
    &&& 2 <= u
    &&& u + 3 <= s.len()
    &&& s[0] == 's'
    &&& s[u] == '_'
    &&& s[u + 1] == 'h'
    &&& all_digits(s, 1, u)
    &&& all_digits(s, u + 2, s.len() as int)
}

/// The string has the shape of an identity, values aside.
pub open spec fn is_id_str(s: Seq<char>) -> bool {
    exists|u: int| id_marker(s, u)
}

/// The separator character occurs somewhere in the string.
pub open spec fn has_underscore(s: Seq<char>) -> bool {
    exists|i: int| 0 <= i < s.len() && s[i] == '_'
}

/// What parsing a string yields: the identity when the string is shaped
/// `s<digits>_h<digits>` and both numbers fit their fields;
/// `NotEnoughTokens` when no underscore occurs at all; `UnexpectedToken`
/// for every other malformed or out-of-range string.
pub open spec fn spec_parse(s: Seq<char>) -> Result<Id, ParseError> {
    if is_id_str(s) {
        let u = choose|u: int| id_marker(s, u);
        let sz = digits_val(s.subrange(1, u));
        let h = digits_val(s.subrange(u + 2, s.len() as int));
        if sz <= u64::MAX && h <= u32::MAX {
            Ok(Id { size: sz as u64, hash: h as u32 })
        } else {
            Err(ParseError::UnexpectedToken)
        }
    } else if has_underscore(s) {
        Err(ParseError::UnexpectedToken)
    } else {
        Err(ParseError::NotEnoughTokens)
    }
}

/// In a well-formed identity string the underscore of the marker is the
/// only underscore, so the marker position is unique.
proof fn lemma_marker_at_underscore(s: Seq<char>, u: int, w: int)
    requires
        id_marker(s, w),
        0 <= u < s.len(),
        s[u] == '_',
    ensures
        u == w,
{
    if u != w {
        if 1 <= u < w {
            assert(is_digit(s[u]));
        } else if w + 2 <= u {
            assert(is_digit(s[u]));
        }
    }
}

/// Reading more digits never decreases the value of the prefix.
proof fn lemma_digits_val_prefix_le(s: Seq<char>, a: int, j: int, k: int)
    requires
        0 <= a <= j <= k <= s.len(),
    ensures
        digits_val(s.subrange(a, j)) <= digits_val(s.subrange(a, k)),
    decreases k - j,
{
    if j < k {
        lemma_digits_val_prefix_le(s, a, j, k - 1);
        assert(s.subrange(a, k).drop_last() =~= s.subrange(a, k - 1));
        assert(digits_val(s.subrange(a, k)) == digits_val(s.subrange(a, k - 1)) * 10 + digit_val(
            s.subrange(a, k).last(),
        ));
    }
}

/// The decimal digits of a number are digit characters, and there is at
/// least one of them.
proof fn lemma_dec_digits_shape(n: nat)
    ensures
        dec_digits(n).len() >= 1,
        forall|i: int| 0 <= i < dec_digits(n).len() ==> is_digit(#[trigger] dec_digits(n)[i]),
    decreases n,
{
    if n >= 10 {
        lemma_dec_digits_shape(n / 10);
    }
}

/// Reading the decimal digits of a number back as a number gives it back.
proof fn lemma_digits_val_dec_digits(n: nat)
    ensures
        digits_val(dec_digits(n)) == n,
    decreases n,
{
    if n < 10 {
        assert(dec_digits(n).drop_last() =~= Seq::<char>::empty());
        assert(digits_val(Seq::<char>::empty()) == 0);
        assert(dec_digits(n).last() == digit_char(n));
        assert(digit_val(digit_char(n)) == n);
    } else {
        lemma_digits_val_dec_digits(n / 10);
        assert(dec_digits(n).drop_last() =~= dec_digits(n / 10));
        assert(dec_digits(n).last() == digit_char(n % 10));
        assert(digit_val(digit_char(n % 10)) == n % 10);
        assert(digits_val(dec_digits(n)) == (n / 10) * 10 + n % 10);
    }
}

/// Round-trip: parsing the canonical text form of any identity yields that
/// identity back, for every `(size, hash)` pair.
pub proof fn lemma_parse_encode(id: Id)
    ensures
        spec_parse(spec_encode(id)) == Ok::<Id, ParseError>(id),
{
    let s = spec_encode(id);
    let ds = dec_digits(id.size as nat);
    let dh = dec_digits(id.hash as nat);
    lemma_dec_digits_shape(id.size as nat);
    lemma_dec_digits_shape(id.hash as nat);
    let u = 1 + ds.len() as int;
    assert(s.len() == 3 + ds.len() + dh.len());
    assert(forall|i: int| 1 <= i < u ==> s[i] == ds[i - 1]);
    assert(forall|i: int| u + 2 <= i < s.len() ==> s[i] == dh[i - (u + 2)]);
    assert(id_marker(s, u));
    let w = choose|w: int| id_marker(s, w);
    lemma_marker_at_underscore(s, u, w);
    assert(s.subrange(1, u) =~= ds);
    assert(s.subrange(u + 2, s.len() as int) =~= dh);
    lemma_digits_val_dec_digits(id.size as nat);
    lemma_digits_val_dec_digits(id.hash as nat);
}

/// Distinct identities have distinct canonical forms, so two identities
/// never collide in one marker file name.
pub proof fn lemma_encode_injective(a: Id, b: Id)
    requires
        spec_encode(a) == spec_encode(b),
    ensures
        a == b,
{
    lemma_parse_encode(a);
    lemma_parse_encode(b);
}

/// The numeric value of a digit character, or `None` for any other character.
fn digit_of(c: char) -> (r: Option<u8>)
    ensures
        match r {
            Some(d) => is_digit(c) && d < 10 && d as nat == digit_val(c),
            None => !is_digit(c),
        },
{
    match c {
        '0' => Some(0),
        '1' => Some(1),
        '2' => Some(2),
        '3' => Some(3),
        '4' => Some(4),
        '5' => Some(5),
        '6' => Some(6),
        '7' => Some(7),
        '8' => Some(8),
        '9' => Some(9),
        _ => None,
    }
}

/// Appends the digit character of `d` to `s`.
fn push_digit(s: &mut String, d: u8)
    requires
        d < 10,
    ensures
        final(s)@ == old(s)@ + seq![digit_char(d as nat)],
{
    match d {
        0 => {
            proof {
                reveal_strlit("0");
            }
            s.append("0");
        },
        1 => {
            proof {
                reveal_strlit("1");
            }
            s.append("1");
        },
        2 => {
            proof {
                reveal_strlit("2");
            }
            s.append("2");
        },
        3 => {
            proof {
                reveal_strlit("3");
            }
            s.append("3");
        },
        4 => {
            proof {
                reveal_strlit("4");
            }
            s.append("4");
        },
        5 => {
            proof {
                reveal_strlit("5");
            }
            s.append("5");
        },
        6 => {
            proof {
                reveal_strlit("6");
            }
            s.append("6");
        },
        7 => {
            proof {
                reveal_strlit("7");
            }
            s.append("7");
        },
        8 => {
            proof {
                reveal_strlit("8");
            }
            s.append("8");
        },
        _ => {
            proof {
                reveal_strlit("9");
            }
            s.append("9");
        },
    }
    assert(s@ =~= old(s)@ + seq![digit_char(d as nat)]);
}

/// Appends the decimal digits of `n` to `s`, most significant first.
fn push_u64(s: &mut String, n: u64)
    ensures
        final(s)@ == old(s)@ + dec_digits(n as nat),
    decreases n,
{
    if n >= 10 {
        push_u64(s, n / 10);
    }
    push_digit(s, (n % 10) as u8);
    assert(s@ =~= old(s)@ + dec_digits(n as nat));
}

impl Id {
    /// The canonical text form, `s<size>_h<hash>`, both numbers in decimal.
    /// This is the only persisted serialization of an identity.
    pub fn encode(&self) -> (r: String)
        ensures
            r@ == spec_encode(*self),
    {
        let mut s = String::new();
        proof {
            reveal_strlit("s");
            reveal_strlit("_h");
        }
        s.append("s");
        push_u64(&mut s, self.size);
        s.append("_h");
        push_u64(&mut s, self.hash as u64);
        assert(s@ =~= spec_encode(*self));
        s
    }

    /// Parses the canonical text form back into an identity; the exact
    /// inverse of `encode`.  A malformed string is an error, never a
    /// default value: `NotEnoughTokens` when the separator is missing,
    /// `UnexpectedToken` when a token around it is malformed or a number
    /// does not fit its field.
    #[verifier::loop_isolation(false)]
    pub fn parse(s: &str) -> (r: Result<Id, ParseError>)
        ensures
            r == spec_parse(s@),
    {
        let n = s.unicode_len();
        let mut u: usize = 0;
        while u < n && s.get_char(u) != '_'
            invariant
                u <= n,
                forall|i: int| 0 <= i < u ==> s@[i] != '_',
            decreases n - u,
        {
            u = u + 1;
        }
        if u == n {
            proof {
                if is_id_str(s@) {
                    let w = choose|w: int| id_marker(s@, w);
                    assert(s@[w] == '_');
                }
            }
            return Err(ParseError::NotEnoughTokens);
        }
        assert(s@[u as int] == '_');
        assert(has_underscore(s@));
        if u < 2 || n - u < 3 || s.get_char(0) != 's' || s.get_char(u + 1) != 'h' {
            proof {
                if is_id_str(s@) {
                    let w = choose|w: int| id_marker(s@, w);
                    lemma_marker_at_underscore(s@, u as int, w);
                }
            }
            return Err(ParseError::UnexpectedToken);
        }
        let mut size_acc: u64 = 0;
        let mut i: usize = 1;
        while i < u
            invariant
                1 <= i <= u,
                all_digits(s@, 1, i as int),
                size_acc as nat == digits_val(s@.subrange(1, i as int)),
            decreases u - i,
        {
            let c = s.get_char(i);
            proof {
                assert(s@.subrange(1, i as int + 1).drop_last() =~= s@.subrange(1, i as int));
                assert(s@.subrange(1, i as int + 1).last() == s@[i as int]);
            }
            match digit_of(c) {
                None => {
                    proof {
                        if is_id_str(s@) {
                            let w = choose|w: int| id_marker(s@, w);
                            lemma_marker_at_underscore(s@, u as int, w);
                            assert(is_digit(s@[i as int]));
                        }
                    }
                    return Err(ParseError::UnexpectedToken);
                },
                Some(d) => {
                    let next = match size_acc.checked_mul(10) {
                        Some(m) => m.checked_add(d as u64),
                        None => None,
                    };
                    match next {
                        None => {
                            proof {
                                lemma_digits_val_prefix_le(s@, 1, i as int + 1, u as int);
                                if is_id_str(s@) {
                                    let w = choose|w: int| id_marker(s@, w);
                                    lemma_marker_at_underscore(s@, u as int, w);
                                }
                            }
                            return Err(ParseError::UnexpectedToken);
                        },
                        Some(v) => {
                            size_acc = v;
                            i = i + 1;
                        },
                    }
                },
            }
        }
        let mut hash_acc: u32 = 0;
        let mut j: usize = u + 2;
        while j < n
            invariant
                u + 2 <= j <= n,
                all_digits(s@, u as int + 2, j as int),
                hash_acc as nat == digits_val(s@.subrange(u as int + 2, j as int)),
            decreases n - j,
        {
            let c = s.get_char(j);
            proof {
                assert(s@.subrange(u as int + 2, j as int + 1).drop_last() =~= s@.subrange(
                    u as int + 2,
                    j as int,
                ));
                assert(s@.subrange(u as int + 2, j as int + 1).last() == s@[j as int]);
            }
            match digit_of(c) {
                None => {
                    proof {
                        if is_id_str(s@) {
                            let w = choose|w: int| id_marker(s@, w);
                            lemma_marker_at_underscore(s@, u as int, w);
                            assert(is_digit(s@[j as int]));
                        }
                    }
                    return Err(ParseError::UnexpectedToken);
                },
                Some(d) => {
                    let next = match hash_acc.checked_mul(10) {
                        Some(m) => m.checked_add(d as u32),
                        None => None,
                    };
                    match next {
                        None => {
                            proof {
                                lemma_digits_val_prefix_le(
                                    s@,
                                    u as int + 2,
                                    j as int + 1,
                                    n as int,
                                );
                                if is_id_str(s@) {
                                    let w = choose|w: int| id_marker(s@, w);
                                    lemma_marker_at_underscore(s@, u as int, w);
                                }
                            }
                            return Err(ParseError::UnexpectedToken);
                        },
                        Some(v) => {
                            hash_acc = v;
                            j = j + 1;
                        },
                    }
                },
            }
        }
        proof {
            assert(id_marker(s@, u as int));
            let w = choose|w: int| id_marker(s@, w);
            lemma_marker_at_underscore(s@, u as int, w);
        }
        Ok(Id { size: size_acc, hash: hash_acc })
    }
}

} // verus!
