//! The tag database: an ordered collection of buckets, one per tag, keyed
//! and listed by tag name so every iteration order is deterministic.
//!
//! The database is loaded once from a scan of the store root (one
//! subdirectory per tag, one marker filename per member), mutated in
//! memory, and every mutation reports exactly the identities the caller
//! must persist as new marker files before the change is durable.

use crate::bucket::Bucket;
use crate::id::{spec_parse, Id, ParseError};
use crate::tag::{is_legal_tag, legal_tag, seq_lt, str_lt, HighlightedTag, Tag};
use crate::tag::{lemma_seq_lt_trans, lemma_seq_lt_trichotomy};
use vstd::prelude::*;

verus! {

/// Why a database operation was refused.
#[derive(Debug, PartialEq, Eq)]
pub enum DbError {
    /// A marker filename under `tag`'s directory does not parse as an
    /// identity; the load fails as a whole rather than undercount a bucket.
    MalformedEntry { tag: Tag, entry: String },
    /// Two scanned directories share a tag name.
    DuplicateTag { tag: Tag },
    /// A filter names a tag that has no bucket.
    UnknownTag { tag: Tag },
    /// An insert of no identities into a tag that does not exist: a bucket
    /// must have at least one member at creation.
    EmptyInsert,
    /// A tag name that is not a legal path segment.
    IllegalTag { tag: Tag },
}

/// One directory of the store root as the caller scanned it: the tag it is
/// named after and the marker filenames found inside.
pub struct ScannedBucket {
    pub tag: Tag,
    pub entries: Vec<String>,
}

/// What an insert changed: whether the tag's bucket was created by this
/// call, and which identities are newly added and must now be persisted
/// as marker files.
pub struct InsertOutcome {
    pub new_tag: bool,
    pub added: Vec<Id>,
}

/// The views of a sequence of tag names.
pub open spec fn tag_views(tags: Seq<Tag>) -> Seq<Seq<char>> {
    Seq::new(tags.len(), |j: int| tags[j]@)
}

/// Every marker filename of the sequence parses as an identity.
pub open spec fn entries_parse(entries: Seq<String>) -> bool {
    forall|j: int| 0 <= j < entries.len() ==> spec_parse(#[trigger] entries[j]@) is Ok
}

/// The identities a sequence of marker filenames stands for.
pub open spec fn entries_id_set(entries: Seq<String>) -> Set<Id> {
    Set::new(
        |id: Id|
            exists|j: int|
                0 <= j < entries.len() && spec_parse(#[trigger] entries[j]@) == Ok::<
                    Id,
                    ParseError,
                >(id),
    )
}

/// No two scanned directories share a tag name.
pub open spec fn scan_tags_unique(scanned: Seq<ScannedBucket>) -> bool {
    forall|i: int, j: int|
        0 <= i < j < scanned.len() ==> (#[trigger] scanned[i].tag)@ != (#[trigger] scanned[j].tag)@
}

/// A membership set and an identity listing have at least one identity in
/// common.
pub open spec fn overlaps(s: Set<Id>, ids: Seq<Id>) -> bool {
    exists|i: int| 0 <= i < ids.len() && s.contains(#[trigger] ids[i])
}

/// An ordered tag-to-bucket map.
pub struct Database {
    buckets: Vec<Bucket>,
}

impl Database {
    /// The tag names, in listing order.
    pub closed spec fn tags(&self) -> Seq<Seq<char>> {
        Seq::new(self.buckets@.len(), |i: int| self.buckets@[i].tag_name())
    }

    /// The membership set of the bucket at position `i` of the listing.
    pub closed spec fn id_set_at(&self, i: int) -> Set<Id> {
        self.buckets@[i].id_set()
    }

    /// Buckets are well-formed, their tags are legal path segments, and
    /// the listing is strictly sorted by tag name, so tag names are unique
    /// and iteration order is deterministic.
    pub closed spec fn wf(&self) -> bool {
        &&& (forall|i: int| 0 <= i < self.buckets@.len() ==> (#[trigger] self.buckets@[i]).wf())
        &&& (forall|i: int|
            0 <= i < self.buckets@.len() ==> legal_tag((#[trigger] self.buckets@[i]).tag_name()))
        &&& (forall|i: int, j: int|
            0 <= i < j < self.buckets@.len() ==> seq_lt(
                self.buckets@[i].tag_name(),
                self.buckets@[j].tag_name(),
            ))
    }

    /// The tag listing is strictly ascending by name: the deterministic,
    /// sorted iteration order that `sieve` and `sieved_tags` follow.
    pub open spec fn tags_sorted(&self) -> bool {
        forall|i: int, j: int|
            0 <= i < j < self.tags().len() ==> seq_lt(
                #[trigger] self.tags()[i],
                #[trigger] self.tags()[j],
            )
    }

    /// A well-formed database lists its tags in strictly ascending name
    /// order; in particular no tag name appears twice.
    pub proof fn lemma_tags_sorted(&self)
        requires
            self.wf(),
        ensures
            self.tags_sorted(),
            forall|i: int, j: int|
                0 <= i < j < self.tags().len() ==> #[trigger] self.tags()[i] != #[trigger] self.tags()[j],
    {
        assert forall|i: int, j: int|
            0 <= i < j < self.tags().len() implies #[trigger] self.tags()[i]
            != #[trigger] self.tags()[j] by {
            assert(seq_lt(self.buckets@[i].tag_name(), self.buckets@[j].tag_name()));
            lemma_seq_lt_trichotomy(self.buckets@[i].tag_name(), self.buckets@[j].tag_name());
        }
    }

    /// Every tag a well-formed database holds is a legal path segment, so
    /// an existing tag is never refused by an insert.
    pub proof fn lemma_has_tag_legal(&self, t: Seq<char>)
        requires
            self.wf(),
            self.has_tag(t),
        ensures
            legal_tag(t),
    {
        let i = choose|i: int| 0 <= i < self.tags().len() && self.tags()[i] == t;
        assert(legal_tag(self.buckets@[i].tag_name()));
    }

    /// Whether a bucket for tag `t` exists.
    pub open spec fn has_tag(&self, t: Seq<char>) -> bool {
        self.tags().contains(t)
    }

    /// The listing position of tag `t`, when it exists.
    pub closed spec fn index_of_tag(&self, t: Seq<char>) -> int {
        choose|i: int| 0 <= i < self.tags().len() && self.tags()[i] == t
    }

    /// The membership set of tag `t`, empty if the tag does not exist.
    pub open spec fn id_set_of(&self, t: Seq<char>) -> Set<Id> {
        if self.has_tag(t) {
            self.id_set_at(self.index_of_tag(t))
        } else {
            Set::empty()
        }
    }

    /// `id` carries every tag of `tags`: the intersection-filter criterion.
    pub open spec fn matches_all(&self, id: Id, tags: Seq<Seq<char>>) -> bool {
        forall|j: int| 0 <= j < tags.len() ==> self.id_set_of(#[trigger] tags[j]).contains(id)
    }

    /// In a well-formed database the listing position of a tag determines
    /// its membership set.
    pub proof fn lemma_id_set_of_at(&self, i: int)
        requires
            self.wf(),
            0 <= i < self.tags().len(),
        ensures
            self.has_tag(self.tags()[i]),
            self.id_set_of(self.tags()[i]) == self.id_set_at(i),
    {
        let t = self.tags()[i];
        assert(self.tags().contains(t));
        let j = self.index_of_tag(t);
        assert(0 <= j < self.tags().len() && self.tags()[j] == t);
        assert(self.id_set_of(t) == self.id_set_at(j));
        if i != j {
            if i < j {
                assert(seq_lt(self.buckets@[i].tag_name(), self.buckets@[j].tag_name()));
                lemma_seq_lt_trichotomy(self.buckets@[i].tag_name(), self.buckets@[j].tag_name());
            } else {
                assert(seq_lt(self.buckets@[j].tag_name(), self.buckets@[i].tag_name()));
                lemma_seq_lt_trichotomy(self.buckets@[j].tag_name(), self.buckets@[i].tag_name());
            }
        }
    }

    /// An empty database: no tags at all.
    fn empty() -> (r: Database)
        ensures
            r.wf(),
            r.tags() == Seq::<Seq<char>>::empty(),
    {
        let r = Database { buckets: Vec::new() };
        proof {
            assert(r.tags() =~= Seq::<Seq<char>>::empty());
        }
        r
    }

    /// The listing position of `tag`'s bucket, if the tag exists.
    #[verifier::loop_isolation(false)]
    fn find(&self, tag: &Tag) -> (r: Option<usize>)
        ensures
            match r {
                Some(i) => i < self.tags().len() && self.tags()[i as int] == tag@,
                None => !self.has_tag(tag@),
            },
    {
        let n = self.buckets.len();
        let mut k: usize = 0;
        while k < n
            invariant
                k <= n,
                forall|j: int| 0 <= j < k ==> self.tags()[j] != tag@,
            decreases n - k,
        {
            if self.buckets[k].tag().eq(tag) {
                assert(self.tags()[k as int] == tag@);
                return Some(k);
            }
            k = k + 1;
        }
        assert(forall|j: int| 0 <= j < self.tags().len() ==> self.tags()[j] != tag@);
        None
    }

    /// Inserts a bucket for a tag not yet present, keeping the listing
    /// sorted; every other tag's bucket is untouched.
    #[verifier::loop_isolation(false)]
    fn insert_bucket_sorted(&mut self, b: Bucket)
        requires
            old(self).wf(),
            b.wf(),
            legal_tag(b.tag_name()),
            !old(self).has_tag(b.tag_name()),
        ensures
            final(self).wf(),
            final(self).tags().len() == old(self).tags().len() + 1,
            final(self).has_tag(b.tag_name()),
            final(self).id_set_of(b.tag_name()) == b.id_set(),
            forall|t: Seq<char>|
                t != b.tag_name() ==> final(self).has_tag(t) == old(self).has_tag(t)
                    && final(self).id_set_of(t) == old(self).id_set_of(t),
    {
        let ghost btag = b.tag_name();
        let n = self.buckets.len();
        let mut p: usize = 0;
        while p < n && str_lt(self.buckets[p].tag().as_str(), b.tag().as_str())
            invariant
                p <= n,
                forall|j: int| 0 <= j < p ==> seq_lt(self.tags()[j], btag),
            decreases n - p,
        {
            p = p + 1;
        }
        proof {
            assert forall|i: int| p <= i < n implies seq_lt(btag, old(self).tags()[i]) by {
                assert(old(self).tags()[p as int] != btag);
                lemma_seq_lt_trichotomy(old(self).tags()[p as int], btag);
                if i > p {
                    lemma_seq_lt_trans(
                        btag,
                        old(self).tags()[p as int],
                        old(self).tags()[i],
                    );
                }
            }
        }
        self.buckets.insert(p, b);
        proof {
            let pre = old(self);
            let post = *self;
            assert(post.buckets@ == pre.buckets@.insert(p as int, b));
            assert forall|i: int| 0 <= i < post.buckets@.len() implies (#[trigger] post.buckets@[i])
                == (if i < p {
                pre.buckets@[i]
            } else if i == p {
                b
            } else {
                pre.buckets@[i - 1]
            }) by {}
            assert(post.tags()[p as int] == btag);
            assert forall|i: int| 0 <= i < post.buckets@.len() implies (
            #[trigger] post.buckets@[i]).wf() by {
                if i < p {
                    assert(pre.buckets@[i].wf());
                } else if i > p {
                    assert(pre.buckets@[i - 1].wf());
                }
            }
            assert forall|i: int| 0 <= i < post.buckets@.len() implies legal_tag(
                (#[trigger] post.buckets@[i]).tag_name(),
            ) by {
                if i < p {
                    assert(legal_tag(pre.buckets@[i].tag_name()));
                } else if i > p {
                    assert(legal_tag(pre.buckets@[i - 1].tag_name()));
                }
            }
            assert forall|i: int, j: int|
                0 <= i < j < post.buckets@.len() implies seq_lt(
                (#[trigger] post.buckets@[i]).tag_name(),
                (#[trigger] post.buckets@[j]).tag_name(),
            ) by {
                if j < p {
                    assert(seq_lt(pre.tags()[i], pre.tags()[j]));
                } else if i < p && j == p {
                    assert(seq_lt(pre.tags()[i], btag));
                } else if i < p && j > p {
                    assert(seq_lt(pre.tags()[i], pre.tags()[j - 1]));
                } else if i == p {
                    assert(seq_lt(btag, pre.tags()[j - 1]));
                } else {
                    assert(seq_lt(pre.tags()[i - 1], pre.tags()[j - 1]));
                }
            }
            assert(post.wf());
            assert(post.has_tag(btag));
            post.lemma_id_set_of_at(p as int);
            assert forall|t: Seq<char>|
                t != btag implies post.has_tag(t) == pre.has_tag(t) && post.id_set_of(t)
                == pre.id_set_of(t) by {
                if pre.has_tag(t) {
                    let j = pre.index_of_tag(t);
                    assert(0 <= j < pre.tags().len() && pre.tags()[j] == t);
                    pre.lemma_id_set_of_at(j);
                    let jn = if j < p {
                        j
                    } else {
                        j + 1
                    };
                    assert(post.tags()[jn] == t);
                    post.lemma_id_set_of_at(jn);
                    assert(post.id_set_at(jn) == pre.id_set_at(j));
                }
                if post.has_tag(t) {
                    let j = post.index_of_tag(t);
                    assert(0 <= j < post.tags().len() && post.tags()[j] == t);
                    post.lemma_id_set_of_at(j);
                    let jo = if j < p {
                        j
                    } else {
                        j - 1
                    };
                    assert(j != p);
                    assert(pre.tags()[jo] == t);
                    pre.lemma_id_set_of_at(jo);
                    assert(pre.id_set_at(jo) == post.id_set_at(j));
                }
            }
        }
    }

    /// Builds the database from a scan of the store root: one scanned
    /// bucket per subdirectory, one marker filename per member.  Succeeds
    /// exactly when every tag name is a legal path segment, every filename
    /// parses as an identity and no tag name repeats; a malformed filename
    /// fails the whole load, naming the tag and the offending entry,
    /// rather than silently undercount a bucket.  The resulting listing is
    /// strictly sorted by tag name.
    #[verifier::loop_isolation(false)]
    pub fn new(scanned: Vec<ScannedBucket>) -> (r: Result<Database, DbError>)
        ensures
            match r {
                Ok(db) => {
                    &&& db.wf()
                    &&& db.tags_sorted()
                    &&& scan_tags_unique(scanned@)
                    &&& forall|i: int|
                        0 <= i < scanned@.len() ==> legal_tag((#[trigger] scanned@[i]).tag@)
                    &&& forall|i: int|
                        0 <= i < scanned@.len() ==> entries_parse(
                            (#[trigger] scanned@[i]).entries@,
                        )
                    &&& db.tags().len() == scanned@.len()
                    &&& forall|i: int|
                        0 <= i < scanned@.len() ==> db.has_tag((#[trigger] scanned@[i]).tag@)
                            && db.id_set_of(scanned@[i].tag@) == entries_id_set(
                            scanned@[i].entries@,
                        )
                },
                Err(e) => {
                    &&& !(scan_tags_unique(scanned@) && (forall|i: int|
                        0 <= i < scanned@.len() ==> legal_tag((#[trigger] scanned@[i]).tag@)
                            && entries_parse(scanned@[i].entries@)))
                    &&& match e {
                        DbError::IllegalTag { tag } => exists|i: int|
                            0 <= i < scanned@.len() && (#[trigger] scanned@[i]).tag@ == tag@
                                && !legal_tag(tag@),
                        DbError::MalformedEntry { tag, entry } => exists|i: int, j: int|
                            0 <= i < scanned@.len() && (#[trigger] scanned@[i]).tag@ == tag@ && 0
                                <= j < scanned@[i].entries@.len()
                                && (#[trigger] scanned@[i].entries@[j])@ == entry@ && !(spec_parse(
                                entry@,
                            ) is Ok),
                        DbError::DuplicateTag { tag } => exists|i: int, j: int|
                            0 <= i < j < scanned@.len() && (#[trigger] scanned@[i]).tag@ == tag@
                                && (#[trigger] scanned@[j]).tag@ == tag@,
                        _ => false,
                    }
                },
            },
    {
        let mut db = Database::empty();
        let n = scanned.len();
        let mut k: usize = 0;
        while k < n
            invariant
                k <= n,
                db.wf(),
                db.tags().len() == k,
                forall|i: int|
                    0 <= i < k ==> db.has_tag((#[trigger] scanned@[i]).tag@) && db.id_set_of(
                        scanned@[i].tag@,
                    ) == entries_id_set(scanned@[i].entries@),
                forall|t: Seq<char>|
                    #[trigger] db.has_tag(t) ==> exists|i: int| 0 <= i < k && scanned@[i].tag@ == t,
                forall|i: int, j: int|
                    0 <= i < j < k ==> (#[trigger] scanned@[i].tag)@ != (#[trigger] scanned@[j].tag)@,
                forall|i: int| 0 <= i < k ==> legal_tag((#[trigger] scanned@[i]).tag@),
                forall|i: int| 0 <= i < k ==> entries_parse((#[trigger] scanned@[i]).entries@),
            decreases n - k,
        {
            if !is_legal_tag(scanned[k].tag.as_str()) {
                return Err(DbError::IllegalTag { tag: scanned[k].tag.clone() });
            }
            if db.contains_tag(&scanned[k].tag) {
                proof {
                    let i = choose|i: int| 0 <= i < k && scanned@[i].tag@ == scanned@[k as int].tag@;
                    assert(0 <= i < k as int && scanned@[i].tag@ == scanned@[k as int].tag@);
                    assert(!scan_tags_unique(scanned@));
                }
                return Err(DbError::DuplicateTag { tag: scanned[k].tag.clone() });
            }
            let m = scanned[k].entries.len();
            let mut parsed: Vec<Id> = Vec::new();
            let mut j: usize = 0;
            while j < m
                invariant
                    j <= m,
                    parsed@.len() == j,
                    forall|q: int|
                        0 <= q < j ==> spec_parse((#[trigger] scanned@[k as int].entries@[q])@)
                            == Ok::<Id, ParseError>(parsed@[q]),
                decreases m - j,
            {
                match Id::parse(scanned[k].entries[j].as_str()) {
                    Ok(id) => {
                        parsed.push(id);
                    },
                    Err(_) => {
                        proof {
                            assert(!(spec_parse(scanned@[k as int].entries@[j as int]@) is Ok));
                            assert(!entries_parse(scanned@[k as int].entries@));
                        }
                        return Err(
                            DbError::MalformedEntry {
                                tag: scanned[k].tag.clone(),
                                entry: scanned[k].entries[j].clone(),
                            },
                        );
                    },
                }
                j = j + 1;
            }
            let mut bk = Bucket::empty(scanned[k].tag.clone());
            let _added = bk.insert_all(&parsed);
            proof {
                let entries = scanned@[k as int].entries@;
                assert forall|x: Id|
                    bk.id_set().contains(x) == entries_id_set(entries).contains(x) by {
                    assert(bk.id_set() == Set::<Id>::empty() + parsed@.to_set());
                    if parsed@.contains(x) {
                        let q = choose|q: int| 0 <= q < parsed@.len() && parsed@[q] == x;
                        assert(spec_parse(entries[q]@) == Ok::<Id, ParseError>(x));
                    }
                    if entries_id_set(entries).contains(x) {
                        let q = choose|q: int|
                            0 <= q < entries.len() && spec_parse(#[trigger] entries[q]@) == Ok::<
                                Id,
                                ParseError,
                            >(x);
                        assert(parsed@[q] == x);
                        assert(parsed@.contains(x));
                    }
                }
                assert(bk.id_set() =~= entries_id_set(scanned@[k as int].entries@));
                assert(entries_parse(scanned@[k as int].entries@));
            }
            let ghost dpre = db;
            db.insert_bucket_sorted(bk);
            proof {
                assert forall|t: Seq<char>| #[trigger] db.has_tag(t) implies exists|i: int|
                    0 <= i < k + 1 && scanned@[i].tag@ == t by {
                    if t == scanned@[k as int].tag@ {
                        assert(scanned@[k as int].tag@ == t);
                    } else {
                        assert(dpre.has_tag(t));
                        let i = choose|i: int| 0 <= i < k && scanned@[i].tag@ == t;
                        assert(0 <= i < k + 1 && scanned@[i].tag@ == t);
                    }
                }
            }
            k = k + 1;
        }
        proof {
            assert(scan_tags_unique(scanned@));
            db.lemma_tags_sorted();
        }
        Ok(db)
    }

    /// Associates every identity of `ids` with `tag`.  If the tag has no
    /// bucket one is created (so at least one identity is required) and the
    /// call reports `new_tag`; otherwise the existing bucket absorbs the
    /// identities.  `added` lists exactly the identities newly added,
    /// without duplicates: the marker files the caller must create.
    /// Inserting an identity already present changes nothing and writes
    /// nothing.  The tag must be a legal path segment; every other tag's
    /// bucket is untouched.
    pub fn insert(&mut self, ids: &Vec<Id>, tag: &Tag) -> (r: Result<InsertOutcome, DbError>)
        requires
            old(self).wf(),
        ensures
            final(self).wf(),
            final(self).tags_sorted(),
            match r {
                Ok(out) => {
                    &&& legal_tag(tag@)
                    &&& (ids@.len() > 0 || old(self).has_tag(tag@))
                    &&& out.new_tag == !old(self).has_tag(tag@)
                    &&& final(self).has_tag(tag@)
                    &&& final(self).id_set_of(tag@) == old(self).id_set_of(tag@) + ids@.to_set()
                    &&& forall|t: Seq<char>|
                        t != tag@ ==> final(self).has_tag(t) == old(self).has_tag(t)
                            && final(self).id_set_of(t) == old(self).id_set_of(t)
                    &&& final(self).tags().len() == old(self).tags().len() + (if out.new_tag {
                        1int
                    } else {
                        0int
                    })
                    &&& out.added@.to_set() == ids@.to_set().difference(old(self).id_set_of(tag@))
                    &&& out.added@.no_duplicates()
                },
                Err(e) => {
                    &&& *final(self) == *old(self)
                    &&& match e {
                        DbError::IllegalTag { tag: t } => !legal_tag(tag@) && t@ == tag@,
                        DbError::EmptyInsert => legal_tag(tag@) && ids@.len() == 0 && !old(
                            self,
                        ).has_tag(tag@),
                        _ => false,
                    }
                },
            },
    {
        proof {
            old(self).lemma_tags_sorted();
        }
        if !is_legal_tag(tag.as_str()) {
            return Err(DbError::IllegalTag { tag: tag.clone() });
        }
        match self.find(tag) {
            Some(i) => {
                let ghost pre = *self;
                let mut bk = self.buckets.remove(i);
                let added = bk.insert_all(ids);
                self.buckets.insert(i, bk);
                proof {
                    let post = *self;
                    assert(post.buckets@ =~= pre.buckets@.update(i as int, bk));
                    assert(post.tags() =~= pre.tags());
                    assert forall|q: int| 0 <= q < post.buckets@.len() implies (
                    #[trigger] post.buckets@[q]).wf() by {
                        if q != i {
                            assert(post.buckets@[q] == pre.buckets@[q]);
                            assert(pre.buckets@[q].wf());
                        }
                    }
                    assert(post.wf());
                    pre.lemma_id_set_of_at(i as int);
                    post.lemma_id_set_of_at(i as int);
                    assert(post.id_set_of(tag@) == pre.id_set_of(tag@) + ids@.to_set());
                    assert forall|t: Seq<char>|
                        t != tag@ implies post.has_tag(t) == pre.has_tag(t) && post.id_set_of(t)
                        == pre.id_set_of(t) by {
                        if pre.has_tag(t) {
                            let j = pre.index_of_tag(t);
                            assert(0 <= j < pre.tags().len() && pre.tags()[j] == t);
                            pre.lemma_id_set_of_at(j);
                            post.lemma_id_set_of_at(j);
                            assert(j != i);
                            assert(post.id_set_at(j) == pre.id_set_at(j));
                        }
                    }
                }
                proof {
                    self.lemma_tags_sorted();
                }
                Ok(InsertOutcome { new_tag: false, added })
            },
            None => {
                if ids.len() == 0 {
                    return Err(DbError::EmptyInsert);
                }
                let mut bk = Bucket::empty(tag.clone());
                let added = bk.insert_all(ids);
                proof {
                    assert(bk.id_set() =~= ids@.to_set());
                    assert(ids@.to_set().difference(Set::<Id>::empty()) =~= ids@.to_set());
                    assert(old(self).id_set_of(tag@) == Set::<Id>::empty());
                    assert(Set::<Id>::empty() + ids@.to_set() =~= ids@.to_set());
                }
                self.insert_bucket_sorted(bk);
                proof {
                    self.lemma_tags_sorted();
                }
                Ok(InsertOutcome { new_tag: true, added })
            },
        }
    }

    /// The intersection filter: one boolean per input identity, in input
    /// order, true exactly when the identity is a member of every named
    /// tag's bucket.  With no tags named, nothing is excluded and every
    /// identity matches.  Naming a tag with no bucket is an error (the
    /// first such tag is reported), not an empty match.
    #[verifier::loop_isolation(false)]
    pub fn filter(&self, ids: &Vec<Id>, tags: &Vec<Tag>) -> (r: Result<Vec<bool>, DbError>)
        requires
            self.wf(),
        ensures
            match r {
                Ok(out) => {
                    &&& forall|j: int| 0 <= j < tags@.len() ==> self.has_tag((#[trigger] tags@[j])@)
                    &&& out@.len() == ids@.len()
                    &&& forall|i: int|
                        0 <= i < ids@.len() ==> out@[i] == self.matches_all(
                            ids@[i],
                            tag_views(tags@),
                        )
                },
                Err(e) => match e {
                    DbError::UnknownTag { tag } => exists|j: int|
                        0 <= j < tags@.len() && (#[trigger] tags@[j])@ == tag@ && !self.has_tag(
                            tag@,
                        ) && (forall|m: int| 0 <= m < j ==> self.has_tag((#[trigger] tags@[m])@)),
                    _ => false,
                },
            },
    {
        let tn = tags.len();
        let mut pos: Vec<usize> = Vec::new();
        let mut j: usize = 0;
        while j < tn
            invariant
                j <= tn,
                pos@.len() == j,
                forall|m: int|
                    0 <= m < j ==> (#[trigger] pos@[m]) < self.tags().len()
                        && self.tags()[pos@[m] as int] == tags@[m]@,
            decreases tn - j,
        {
            let tj = &tags[j];
            match self.find(tj) {
                Some(p) => {
                    assert(p < self.tags().len() && self.tags()[p as int] == tags@[j as int]@);
                    let ghost pos0 = pos@;
                    pos.push(p);
                    proof {
                        assert forall|m: int|
                            0 <= m < j + 1 implies pos@[m] < self.tags().len() && self.tags()[pos@[m] as int]
                            == (#[trigger] tags@[m])@ by {
                            if m < j {
                                assert(pos@[m] == pos0[m]);
                                assert(pos0[m] < self.tags().len() && self.tags()[pos0[m] as int]
                                    == tags@[m]@);
                            } else {
                                assert(pos@[m] == p);
                            }
                        }
                    }
                },
                None => {
                    proof {
                        assert forall|m: int| 0 <= m < j implies self.has_tag(
                            (#[trigger] tags@[m])@,
                        ) by {
                            assert(self.tags()[pos@[m] as int] == tags@[m]@);
                            assert(self.tags().contains(tags@[m]@));
                        }
                    }
                    return Err(DbError::UnknownTag { tag: tj.clone() });
                },
            }
            j = j + 1;
        }
        proof {
            assert forall|m: int| 0 <= m < tags@.len() implies self.has_tag(
                (#[trigger] tags@[m])@,
            ) by {
                assert(self.tags()[pos@[m] as int] == tags@[m]@);
                assert(self.tags().contains(tags@[m]@));
            }
        }
        let idn = ids.len();
        let mut out: Vec<bool> = Vec::new();
        let mut i: usize = 0;
        while i < idn
            invariant
                i <= idn,
                out@.len() == i,
                forall|q: int|
                    0 <= q < i ==> out@[q] == self.matches_all(ids@[q], tag_views(tags@)),
            decreases idn - i,
        {
            let id = ids[i];
            let mut all_match = true;
            let mut m: usize = 0;
            while m < tn
                invariant
                    m <= tn,
                    all_match ==> forall|q: int|
                        0 <= q < m ==> self.id_set_of(#[trigger] tag_views(tags@)[q]).contains(id),
                    !all_match ==> exists|q: int|
                        0 <= q < tn && !self.id_set_of(#[trigger] tag_views(tags@)[q]).contains(id),
                decreases tn - m,
            {
                if all_match {
                    let p = pos[m];
                    proof {
                        self.lemma_id_set_of_at(p as int);
                    }
                    if !self.buckets[p].contains(id) {
                        assert(!self.id_set_of(tag_views(tags@)[m as int]).contains(id));
                        all_match = false;
                    }
                }
                m = m + 1;
            }
            out.push(all_match);
            proof {
                if all_match {
                    assert(self.matches_all(ids@[i as int], tag_views(tags@)));
                } else {
                    assert(!self.matches_all(ids@[i as int], tag_views(tags@)));
                }
            }
            i = i + 1;
        }
        Ok(out)
    }

    /// One boolean per tag, in ascending tag-name order: whether the
    /// tag's bucket shares at least one identity with `ids`.  Drives
    /// highlighting of the tags relevant to the current listing.
    #[verifier::loop_isolation(false)]
    pub fn sieve(&self, ids: &Vec<Id>) -> (r: Vec<bool>)
        requires
            self.wf(),
        ensures
            self.tags_sorted(),
            r@.len() == self.tags().len(),
            forall|j: int| 0 <= j < r@.len() ==> r@[j] == overlaps(self.id_set_at(j), ids@),
    {
        let n = self.buckets.len();
        let idn = ids.len();
        let mut out: Vec<bool> = Vec::new();
        let mut j: usize = 0;
        while j < n
            invariant
                j <= n,
                out@.len() == j,
                forall|q: int| 0 <= q < j ==> out@[q] == overlaps(self.id_set_at(q), ids@),
            decreases n - j,
        {
            let mut hit = false;
            let mut i: usize = 0;
            while i < idn
                invariant
                    i <= idn,
                    hit ==> overlaps(self.id_set_at(j as int), ids@),
                    !hit ==> forall|m: int|
                        0 <= m < i ==> !self.id_set_at(j as int).contains(#[trigger] ids@[m]),
                decreases idn - i,
            {
                if !hit && self.buckets[j].contains(ids[i]) {
                    hit = true;
                }
                i = i + 1;
            }
            out.push(hit);
            j = j + 1;
        }
        out
    }

    /// `sieve` paired with the tag names, in ascending tag-name order,
    /// for driving the initial population of a tag display.
    #[verifier::loop_isolation(false)]
    pub fn sieved_tags(&self, ids: &Vec<Id>) -> (r: Vec<HighlightedTag>)
        requires
            self.wf(),
        ensures
            self.tags_sorted(),
            r@.len() == self.tags().len(),
            forall|j: int|
                0 <= j < r@.len() ==> (#[trigger] r@[j]).tag@ == self.tags()[j]
                    && r@[j].highlighted == overlaps(self.id_set_at(j), ids@),
    {
        let flags = self.sieve(ids);
        let n = self.buckets.len();
        let mut out: Vec<HighlightedTag> = Vec::new();
        let mut j: usize = 0;
        while j < n
            invariant
                j <= n,
                out@.len() == j,
                flags@.len() == n,
                forall|q: int| 0 <= q < n ==> flags@[q] == overlaps(self.id_set_at(q), ids@),
                forall|q: int|
                    0 <= q < j ==> (#[trigger] out@[q]).tag@ == self.tags()[q]
                        && out@[q].highlighted == overlaps(self.id_set_at(q), ids@),
            decreases n - j,
        {
            out.push(HighlightedTag { highlighted: flags[j], tag: self.buckets[j].tag().clone() });
            j = j + 1;
        }
        out
    }

    /// One refresh of a listing: filters `ids` by the selected tags, keeps
    /// the identities that pass, and sieves the tags against exactly those
    /// survivors — the flags to show a listing, the identities it shows,
    /// and the tags to highlight for it.
    pub fn filter_and_sieve(&self, ids: &Vec<Id>, tags: &Vec<Tag>) -> (r: Result<
        (Vec<bool>, Vec<Id>, Vec<bool>),
        DbError,
    >)
        requires
            self.wf(),
        ensures
            self.tags_sorted(),
            match r {
                Ok((flags, kept, sieve)) => {
                    &&& flags@.len() == ids@.len()
                    &&& forall|i: int|
                        0 <= i < ids@.len() ==> flags@[i] == self.matches_all(
                            ids@[i],
                            tag_views(tags@),
                        )
                    &&& kept@ == crate::spec_apply_filter(ids@, flags@)
                    &&& sieve@.len() == self.tags().len()
                    &&& forall|j: int|
                        0 <= j < sieve@.len() ==> sieve@[j] == overlaps(self.id_set_at(j), kept@)
                },
                Err(e) => match e {
                    DbError::UnknownTag { tag } => exists|j: int|
                        0 <= j < tags@.len() && (#[trigger] tags@[j])@ == tag@ && !self.has_tag(
                            tag@,
                        ),
                    _ => false,
                },
            },
    {
        match self.filter(ids, tags) {
            Err(e) => Err(e),
            Ok(flags) => {
                let kept = crate::apply_filter(ids, &flags);
                let sieve = self.sieve(&kept);
                Ok((flags, kept, sieve))
            },
        }
    }

    /// Whether a bucket for `tag` exists.
    pub fn contains_tag(&self, tag: &Tag) -> (r: bool)
        ensures
            r == self.has_tag(tag@),
    {
        match self.find(tag) {
            Some(_) => true,
            None => false,
        }
    }
}

/// Filter identity law: with no tags selected nothing is excluded, so
/// every identity matches the empty selection.
pub proof fn lemma_filter_identity(db: &Database, id: Id)
    ensures
        db.matches_all(id, Seq::<Seq<char>>::empty()),
{
}

/// Filter intersection law: an identity matches a two-tag selection
/// exactly when it is a member of both tags' buckets — the filter is an
/// intersection, never a union.
pub proof fn lemma_filter_intersection(db: &Database, id: Id, t1: Seq<char>, t2: Seq<char>)
    ensures
        db.matches_all(id, seq![t1, t2]) <==> (db.id_set_of(t1).contains(id) && db.id_set_of(
            t2,
        ).contains(id)),
{
    let ts = seq![t1, t2];
    assert(ts[0] == t1);
    assert(ts[1] == t2);
    if db.id_set_of(t1).contains(id) && db.id_set_of(t2).contains(id) {
        assert forall|j: int| 0 <= j < ts.len() implies db.id_set_of(#[trigger] ts[j]).contains(
            id,
        ) by {
            if j == 0 {
                assert(ts[j] == t1);
            } else {
                assert(ts[j] == t2);
            }
        }
    }
}

/// Insertion idempotence: a bucket holding `before + ids` absorbs a repeat
/// insert of `ids` unchanged, and the repeat reports nothing newly added,
/// so no marker file is written twice.
pub proof fn lemma_insert_idempotent(before: Set<Id>, ids: Set<Id>)
    ensures
        (before + ids) + ids == before + ids,
        ids.difference(before + ids) == Set::<Id>::empty(),
{
    assert((before + ids) + ids =~= before + ids);
    assert(ids.difference(before + ids) =~= Set::<Id>::empty());
}

} // verus!
