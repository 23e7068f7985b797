//! A bucket is one tag's membership set: on disk, a directory named after
//! the tag whose children are empty marker files, one per member identity;
//! in memory, the set of those identities.
//!
//! This module holds the in-memory half.  Callers persist a change by
//! creating one marker file per identity that `insert_all` reports as newly
//! added; an identity already present causes no write, so memory and disk
//! never diverge.

use crate::id::Id;
use crate::tag::Tag;
use vstd::prelude::*;

verus! {

/// One tag's member identities.
pub struct Bucket {
    tag: Tag,
    ids: Vec<Id>,
}

impl Bucket {
    /// The tag this bucket belongs to.
    pub closed spec fn tag_name(&self) -> Seq<char> {
        self.tag@
    }

    /// The membership set.
    pub closed spec fn id_set(&self) -> Set<Id> {
        self.ids@.to_set()
    }

    /// Members are stored without duplicates.
    pub closed spec fn wf(&self) -> bool {
        self.ids@.no_duplicates()
    }

    /// A bucket with no members yet; used while loading from a scan.
    pub(crate) fn empty(tag: Tag) -> (r: Bucket)
        ensures
            r.wf(),
            r.tag_name() == tag@,
            r.id_set() == Set::<Id>::empty(),
    {
        let r = Bucket { tag, ids: Vec::new() };
        proof {
            assert(r.id_set() =~= Set::<Id>::empty());
        }
        r
    }

    /// A new tag's bucket with its first member.  A bucket is only ever
    /// created for at least one member; there is no empty tag.
    pub fn init(tag: Tag, id: Id) -> (r: Bucket)
        ensures
            r.wf(),
            r.tag_name() == tag@,
            r.id_set() == set![id],
    {
        let mut r = Bucket::empty(tag);
        r.insert(id);
        proof {
            assert(r.id_set() =~= set![id]);
        }
        r
    }

    /// The tag's name.
    pub fn tag(&self) -> (r: &Tag)
        ensures
            r@ == self.tag_name(),
    {
        &self.tag
    }

    /// The members, without duplicates, for iteration.
    pub fn values(&self) -> (r: &Vec<Id>)
        ensures
            r@.to_set() == self.id_set(),
            self.wf() ==> r@.no_duplicates(),
    {
        &self.ids
    }

    /// Whether `id` is a member.
    #[verifier::loop_isolation(false)]
    pub fn contains(&self, id: Id) -> (r: bool)
        ensures
            r == self.id_set().contains(id),
    {
        let n = self.ids.len();
        let mut k: usize = 0;
        while k < n
            invariant
                k <= n,
                forall|j: int| 0 <= j < k ==> self.ids@[j] != id,
            decreases n - k,
        {
            if self.ids[k] == id {
                assert(self.ids@.contains(id));
                return true;
            }
            k = k + 1;
        }
        assert(!self.ids@.contains(id));
        false
    }

    /// Adds one member; reports whether it was new.
    fn insert(&mut self, id: Id) -> (added: bool)
        requires
            old(self).wf(),
        ensures
            final(self).wf(),
            final(self).tag_name() == old(self).tag_name(),
            final(self).id_set() == old(self).id_set().insert(id),
            added == !old(self).id_set().contains(id),
    {
        if self.contains(id) {
            proof {
                assert(self.id_set() =~= old(self).id_set().insert(id));
            }
            false
        } else {
            self.ids.push(id);
            proof {
                assert(self.ids@.drop_last() =~= old(self).ids@);
                assert forall|x: Id| self.id_set().contains(x) == old(self).id_set().insert(
                    id,
                ).contains(x) by {
                    if self.ids@.contains(x) {
                        let j = choose|j: int| 0 <= j < self.ids@.len() && self.ids@[j] == x;
                        if j < self.ids@.len() - 1 {
                            assert(old(self).ids@[j] == x);
                        }
                    }
                    if old(self).ids@.contains(x) {
                        let j = choose|j: int|
                            0 <= j < old(self).ids@.len() && old(self).ids@[j] == x;
                        assert(self.ids@[j] == x);
                    }
                    if x == id {
                        assert(self.ids@.last() == id);
                    }
                }
                assert(self.id_set() =~= old(self).id_set().insert(id));
            }
            true
        }
    }

    /// Adds every identity of `ids` that is not yet a member, and returns
    /// exactly those newly added, without duplicates: the marker files the
    /// caller must create.  Identities already present are skipped with no
    /// effect.
    #[verifier::loop_isolation(false)]
    pub fn insert_all(&mut self, ids: &Vec<Id>) -> (added: Vec<Id>)
        requires
            old(self).wf(),
        ensures
            final(self).wf(),
            final(self).tag_name() == old(self).tag_name(),
            final(self).id_set() == old(self).id_set() + ids@.to_set(),
            added@.to_set() == ids@.to_set().difference(old(self).id_set()),
            added@.no_duplicates(),
    {
        let n = ids.len();
        let mut added: Vec<Id> = Vec::new();
        let mut k: usize = 0;
        while k < n
            invariant
                k <= n,
                self.wf(),
                self.tag_name() == old(self).tag_name(),
                self.id_set() =~= old(self).id_set() + ids@.subrange(0, k as int).to_set(),
                added@.to_set() =~= ids@.subrange(0, k as int).to_set().difference(
                    old(self).id_set(),
                ),
                added@.no_duplicates(),
                forall|j: int| 0 <= j < added@.len() ==> self.id_set().contains(#[trigger] added@[j]),
            decreases n - k,
        {
            let id = ids[k];
            proof {
                assert(ids@.subrange(0, k as int + 1).drop_last() =~= ids@.subrange(0, k as int));
                assert(ids@.subrange(0, k as int + 1).last() == ids@[k as int]);
                assert forall|x: Id|
                    ids@.subrange(0, k as int + 1).contains(x) == (ids@.subrange(
                        0,
                        k as int,
                    ).contains(x) || x == ids@[k as int]) by {
                    let s1 = ids@.subrange(0, k as int + 1);
                    let s0 = ids@.subrange(0, k as int);
                    if s1.contains(x) {
                        let j = choose|j: int| 0 <= j < s1.len() && s1[j] == x;
                        if j < k {
                            assert(s0[j] == x);
                        }
                    }
                    if s0.contains(x) {
                        let j = choose|j: int| 0 <= j < s0.len() && s0[j] == x;
                        assert(s1[j] == x);
                    }
                    if x == ids@[k as int] {
                        assert(s1[k as int] == x);
                    }
                }
            }
            let ghost prev = *self;
            let ghost prev_added = added@;
            if self.insert(id) {
                added.push(id);
                proof {
                    assert(added@.drop_last() =~= prev_added);
                    assert(added@.last() == id);
                    assert forall|x: Id| added@.contains(x) == (prev_added.contains(x) || x == id) by {
                        if added@.contains(x) {
                            let j = choose|j: int| 0 <= j < added@.len() && added@[j] == x;
                            if j < added@.len() - 1 {
                                assert(prev_added[j] == x);
                            }
                        }
                        if prev_added.contains(x) {
                            let j = choose|j: int| 0 <= j < prev_added.len() && prev_added[j] == x;
                            assert(added@[j] == x);
                        }
                    }
                    assert(!prev_added.contains(id));
                    assert(!prev.id_set().contains(id));
                    assert(!old(self).id_set().contains(id));
                    let sub0 = ids@.subrange(0, k as int);
                    let sub1 = ids@.subrange(0, k as int + 1);
                    assert forall|x: Id|
                        added@.to_set().contains(x) == (sub1.to_set().contains(x) && !old(
                            self,
                        ).id_set().contains(x)) by {
                        assert(added@.contains(x) == (prev_added.contains(x) || x == id));
                        assert(sub1.contains(x) == (sub0.contains(x) || x == id));
                        assert(prev_added.to_set().contains(x) == (sub0.to_set().contains(x)
                            && !old(self).id_set().contains(x)));
                    }
                    assert(added@.to_set() =~= sub1.to_set().difference(old(self).id_set()));
                }
            } else {
                proof {
                    assert(prev.id_set().contains(id));
                    let sub0 = ids@.subrange(0, k as int);
                    let sub1 = ids@.subrange(0, k as int + 1);
                    assert forall|x: Id|
                        added@.to_set().contains(x) == (sub1.to_set().contains(x) && !old(
                            self,
                        ).id_set().contains(x)) by {
                        assert(sub1.contains(x) == (sub0.contains(x) || x == id));
                        assert(added@.to_set().contains(x) == (sub0.to_set().contains(x)
                            && !old(self).id_set().contains(x)));
                        if x == id {
                            assert(old(self).id_set().contains(id) || sub0.to_set().contains(id));
                        }
                    }
                    assert(added@.to_set() =~= sub1.to_set().difference(old(self).id_set()));
                }
            }
            k = k + 1;
        }
        proof {
            assert(ids@.subrange(0, n as int) =~= ids@);
        }
        added
    }
}

} // verus!
