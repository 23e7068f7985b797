//! The session index: a bidirectional cache from file path to content
//! identity, built up lazily as a browsing session visits directories.
//!
//! The identity of a path is cached when the caller first provides it and
//! trusted until the caller provides a fresh one; re-providing returns the
//! previously cached identity, so a caller that recomputes can detect that
//! a file's content changed since the last visit.  The reverse map is
//! best-effort: it remembers the most recently provided path for each
//! identity, and makes no attempt to track several paths sharing content.

use crate::id::Id;
use vstd::prelude::*;

verus! {

/// Why an index lookup failed.
#[derive(Debug, PartialEq, Eq)]
pub enum IndexError {
    /// The path was never provided in this session: a caller error,
    /// distinct from any I/O or parse failure.
    NotIndexed { path: String },
}

/// A session-scoped path-to-identity cache with a best-effort reverse map.
pub struct Index {
    id_by_path: Vec<(String, Id)>,
    path_by_id: Vec<(Id, String)>,
}

impl Index {
    /// Forward entries are keyed by distinct paths, reverse entries by
    /// distinct identities.
    pub closed spec fn wf(&self) -> bool {
        &&& (forall|i: int, j: int|
            0 <= i < j < self.id_by_path@.len() ==> (#[trigger] self.id_by_path@[i]).0@ != (
            #[trigger] self.id_by_path@[j]).0@)
        &&& (forall|i: int, j: int|
            0 <= i < j < self.path_by_id@.len() ==> (#[trigger] self.path_by_id@[i]).0 != (
            #[trigger] self.path_by_id@[j]).0)
    }

    /// Whether `p` has a cached identity.
    pub closed spec fn has_path(&self, p: Seq<char>) -> bool {
        exists|i: int| 0 <= i < self.id_by_path@.len() && (#[trigger] self.id_by_path@[i]).0@ == p
    }

    /// The forward entry position of path `p`, when cached.
    pub closed spec fn path_index(&self, p: Seq<char>) -> int {
        choose|i: int| 0 <= i < self.id_by_path@.len() && (#[trigger] self.id_by_path@[i]).0@ == p
    }

    /// The cached identity of path `p`, if any.
    pub closed spec fn spec_id_of(&self, p: Seq<char>) -> Option<Id> {
        if self.has_path(p) {
            Some(self.id_by_path@[self.path_index(p)].1)
        } else {
            None
        }
    }

    /// Whether `id` has a remembered path.
    pub closed spec fn has_id(&self, id: Id) -> bool {
        exists|i: int| 0 <= i < self.path_by_id@.len() && (#[trigger] self.path_by_id@[i]).0 == id
    }

    /// The reverse entry position of identity `id`, when remembered.
    pub closed spec fn id_index(&self, id: Id) -> int {
        choose|i: int| 0 <= i < self.path_by_id@.len() && (#[trigger] self.path_by_id@[i]).0 == id
    }

    /// The most recently provided path of identity `id`, if any.
    pub closed spec fn spec_path_of(&self, id: Id) -> Option<Seq<char>> {
        if self.has_id(id) {
            Some(self.path_by_id@[self.id_index(id)].1@)
        } else {
            None
        }
    }

    /// A fresh session index with nothing cached.
    pub fn new() -> (r: Index)
        ensures
            r.wf(),
            forall|p: Seq<char>| r.spec_id_of(p) is None,
            forall|id: Id| r.spec_path_of(id) is None,
    {
        Index { id_by_path: Vec::new(), path_by_id: Vec::new() }
    }

    /// The forward entry position of `path`, if cached.
    #[verifier::loop_isolation(false)]
    fn find_path(&self, path: &String) -> (r: Option<usize>)
        ensures
            match r {
                Some(i) => i < self.id_by_path@.len() && self.id_by_path@[i as int].0@ == path@,
                None => !self.has_path(path@),
            },
    {
        let n = self.id_by_path.len();
        let mut k: usize = 0;
        while k < n
            invariant
                k <= n,
                forall|j: int| 0 <= j < k ==> (#[trigger] self.id_by_path@[j]).0@ != path@,
            decreases n - k,
        {
            if self.id_by_path[k].0.eq(path) {
                return Some(k);
            }
            k = k + 1;
        }
        None
    }

    /// The reverse entry position of `id`, if remembered.
    #[verifier::loop_isolation(false)]
    fn find_id(&self, id: Id) -> (r: Option<usize>)
        ensures
            match r {
                Some(i) => i < self.path_by_id@.len() && self.path_by_id@[i as int].0 == id,
                None => !self.has_id(id),
            },
    {
        let n = self.path_by_id.len();
        let mut k: usize = 0;
        while k < n
            invariant
                k <= n,
                forall|j: int| 0 <= j < k ==> (#[trigger] self.path_by_id@[j]).0 != id,
            decreases n - k,
        {
            if self.path_by_id[k].0 == id {
                return Some(k);
            }
            k = k + 1;
        }
        None
    }

    /// With distinct keys, an entry position determines the lookup result.
    proof fn lemma_path_at(&self, i: int)
        requires
            self.wf(),
            0 <= i < self.id_by_path@.len(),
        ensures
            self.has_path(self.id_by_path@[i].0@),
            self.path_index(self.id_by_path@[i].0@) == i,
    {
        let p = self.id_by_path@[i].0@;
        assert(self.has_path(p));
        let j = self.path_index(p);
        assert(0 <= j < self.id_by_path@.len() && self.id_by_path@[j].0@ == p);
    }

    /// With distinct keys, a reverse entry position determines the result.
    proof fn lemma_id_at(&self, i: int)
        requires
            self.wf(),
            0 <= i < self.path_by_id@.len(),
        ensures
            self.has_id(self.path_by_id@[i].0),
            self.id_index(self.path_by_id@[i].0) == i,
    {
        let id = self.path_by_id@[i].0;
        assert(self.has_id(id));
        let j = self.id_index(id);
        assert(0 <= j < self.path_by_id@.len() && self.path_by_id@[j].0 == id);
    }

    /// Records the identity computed for `path`, in both directions, and
    /// returns what was cached for that path before, so the caller can
    /// tell a first visit (`None`) from changed content (`Some` of a
    /// different identity).  Other paths and identities are untouched.
    pub fn provide(&mut self, path: &String, id: Id) -> (prev: Option<Id>)
        requires
            old(self).wf(),
        ensures
            final(self).wf(),
            prev == old(self).spec_id_of(path@),
            final(self).spec_id_of(path@) == Some(id),
            forall|p: Seq<char>|
                p != path@ ==> final(self).spec_id_of(p) == old(self).spec_id_of(p),
            final(self).spec_path_of(id) == Some(path@),
            forall|x: Id| x != id ==> final(self).spec_path_of(x) == old(self).spec_path_of(x),
    {
        let ghost pre = *self;
        let prev;
        match self.find_path(path) {
            Some(i) => {
                prev = Some(self.id_by_path[i].1);
                self.id_by_path.set(i, (path.clone(), id));
                proof {
                    pre.lemma_path_at(i as int);
                    assert(pre.spec_id_of(path@) == prev);
                    assert forall|a: int, b: int|
                        0 <= a < b < self.id_by_path@.len() implies (
                    #[trigger] self.id_by_path@[a]).0@ != (#[trigger] self.id_by_path@[b]).0@ by {
                        assert(pre.id_by_path@[a].0@ != pre.id_by_path@[b].0@);
                        assert(self.id_by_path@[a].0@ == pre.id_by_path@[a].0@);
                        assert(self.id_by_path@[b].0@ == pre.id_by_path@[b].0@);
                    }
                    assert forall|p: Seq<char>| p != path@ implies self.spec_id_of(p)
                        == pre.spec_id_of(p) by {
                        if pre.has_path(p) {
                            let j = pre.path_index(p);
                            pre.lemma_path_at(j);
                            assert(j != i);
                            assert(self.id_by_path@[j].0@ == p);
                            self.lemma_path_at(j);
                        }
                        if self.has_path(p) {
                            let j = self.path_index(p);
                            assert(0 <= j < self.id_by_path@.len() && self.id_by_path@[j].0@ == p);
                            assert(j != i);
                            assert(pre.id_by_path@[j].0@ == p);
                            assert(pre.has_path(p));
                        }
                    }
                    self.lemma_path_at(i as int);
                    assert(self.spec_id_of(path@) == Some(id));
                }
            },
            None => {
                prev = None;
                let ghost n = self.id_by_path@.len() as int;
                self.id_by_path.push((path.clone(), id));
                proof {
                    assert(pre.spec_id_of(path@) is None);
                    assert(self.id_by_path@[n].0@ == path@);
                    assert forall|a: int, b: int|
                        0 <= a < b < self.id_by_path@.len() implies (
                    #[trigger] self.id_by_path@[a]).0@ != (#[trigger] self.id_by_path@[b]).0@ by {
                        if b < n {
                            assert(pre.id_by_path@[a].0@ != pre.id_by_path@[b].0@);
                        } else {
                            assert(self.id_by_path@[b].0@ == path@);
                            assert(pre.id_by_path@[a].0@ != path@);
                        }
                        assert(self.id_by_path@[a].0@ == pre.id_by_path@[a].0@);
                    }
                    assert forall|p: Seq<char>| p != path@ implies self.spec_id_of(p)
                        == pre.spec_id_of(p) by {
                        if pre.has_path(p) {
                            let j = pre.path_index(p);
                            pre.lemma_path_at(j);
                            assert(self.id_by_path@[j].0@ == p);
                            self.lemma_path_at(j);
                        }
                        if self.has_path(p) {
                            let j = self.path_index(p);
                            assert(0 <= j < self.id_by_path@.len() && self.id_by_path@[j].0@ == p);
                            assert(j != n);
                            assert(pre.id_by_path@[j].0@ == p);
                            assert(pre.has_path(p));
                        }
                    }
                    self.lemma_path_at(n);
                    assert(self.spec_id_of(path@) == Some(id));
                }
            },
        }
        let ghost mid = *self;
        match self.find_id(id) {
            Some(i) => {
                self.path_by_id.set(i, (id, path.clone()));
                proof {
                    assert forall|a: int, b: int|
                        0 <= a < b < self.path_by_id@.len() implies (
                    #[trigger] self.path_by_id@[a]).0 != (#[trigger] self.path_by_id@[b]).0 by {
                        assert(mid.path_by_id@[a].0 != mid.path_by_id@[b].0);
                        assert(self.path_by_id@[a].0 == mid.path_by_id@[a].0);
                        assert(self.path_by_id@[b].0 == mid.path_by_id@[b].0);
                    }
                    assert forall|x: Id| x != id implies self.spec_path_of(x) == mid.spec_path_of(
                        x,
                    ) by {
                        if mid.has_id(x) {
                            let j = mid.id_index(x);
                            mid.lemma_id_at(j);
                            assert(j != i);
                            assert(self.path_by_id@[j].0 == x);
                            self.lemma_id_at(j);
                        }
                        if self.has_id(x) {
                            let j = self.id_index(x);
                            assert(0 <= j < self.path_by_id@.len() && self.path_by_id@[j].0 == x);
                            assert(j != i);
                            assert(mid.path_by_id@[j].0 == x);
                            assert(mid.has_id(x));
                        }
                    }
                    self.lemma_id_at(i as int);
                    assert(self.spec_path_of(id) == Some(path@));
                }
            },
            None => {
                let ghost n = self.path_by_id@.len() as int;
                self.path_by_id.push((id, path.clone()));
                proof {
                    assert(self.path_by_id@[n].0 == id);
                    assert forall|a: int, b: int|
                        0 <= a < b < self.path_by_id@.len() implies (
                    #[trigger] self.path_by_id@[a]).0 != (#[trigger] self.path_by_id@[b]).0 by {
                        if b < n {
                            assert(mid.path_by_id@[a].0 != mid.path_by_id@[b].0);
                        } else {
                            assert(self.path_by_id@[b].0 == id);
                            assert(mid.path_by_id@[a].0 != id);
                        }
                        assert(self.path_by_id@[a].0 == mid.path_by_id@[a].0);
                    }
                    assert forall|x: Id| x != id implies self.spec_path_of(x) == mid.spec_path_of(
                        x,
                    ) by {
                        if mid.has_id(x) {
                            let j = mid.id_index(x);
                            mid.lemma_id_at(j);
                            assert(self.path_by_id@[j].0 == x);
                            self.lemma_id_at(j);
                        }
                        if self.has_id(x) {
                            let j = self.id_index(x);
                            assert(0 <= j < self.path_by_id@.len() && self.path_by_id@[j].0 == x);
                            assert(j != n);
                            assert(mid.path_by_id@[j].0 == x);
                            assert(mid.has_id(x));
                        }
                    }
                    self.lemma_id_at(n);
                    assert(self.spec_path_of(id) == Some(path@));
                }
            },
        }
        proof {
            assert(mid.path_by_id@ == pre.path_by_id@);
            assert forall|x: Id| true implies #[trigger] mid.spec_path_of(x) == pre.spec_path_of(
                x,
            ) by {
                if pre.has_id(x) {
                    let j = pre.id_index(x);
                    pre.lemma_id_at(j);
                    assert(mid.path_by_id@[j].0 == x);
                    mid.lemma_id_at(j);
                }
                if mid.has_id(x) {
                    let j = mid.id_index(x);
                    assert(0 <= j < mid.path_by_id@.len() && mid.path_by_id@[j].0 == x);
                    assert(pre.path_by_id@[j].0 == x);
                    assert(pre.has_id(x));
                }
            }
            assert(self.id_by_path@ == mid.id_by_path@);
            assert forall|p: Seq<char>| true implies #[trigger] self.spec_id_of(p)
                == mid.spec_id_of(p) by {
                if mid.has_path(p) {
                    let j = mid.path_index(p);
                    mid.lemma_path_at(j);
                    assert(self.id_by_path@[j].0@ == p);
                    self.lemma_path_at(j);
                }
                if self.has_path(p) {
                    let j = self.path_index(p);
                    assert(0 <= j < self.id_by_path@.len() && self.id_by_path@[j].0@ == p);
                    assert(mid.id_by_path@[j].0@ == p);
                    assert(mid.has_path(p));
                }
            }
            assert forall|x: Id| x != id implies self.spec_path_of(x) == pre.spec_path_of(x) by {
                assert(self.spec_path_of(x) == mid.spec_path_of(x));
                assert(mid.spec_path_of(x) == pre.spec_path_of(x));
            }
        }
        prev
    }

    /// The cached identity of `path`; an error naming the path when it was
    /// never provided in this session.
    pub fn id(&self, path: &String) -> (r: Result<Id, IndexError>)
        requires
            self.wf(),
        ensures
            match r {
                Ok(v) => self.spec_id_of(path@) == Some(v),
                Err(e) => self.spec_id_of(path@) is None && match e {
                    IndexError::NotIndexed { path: p } => p@ == path@,
                },
            },
    {
        match self.find_path(path) {
            Some(i) => {
                proof {
                    self.lemma_path_at(i as int);
                }
                Ok(self.id_by_path[i].1)
            },
            None => Err(IndexError::NotIndexed { path: path.clone() }),
        }
    }

    /// The most recently provided path for `id`, if any: best-effort
    /// reverse lookup, reflecting only the last writer.
    pub fn path(&self, id: Id) -> (r: Option<String>)
        requires
            self.wf(),
        ensures
            match r {
                Some(p) => self.spec_path_of(id) == Some(p@),
                None => self.spec_path_of(id) is None,
            },
    {
        match self.find_id(id) {
            Some(i) => {
                proof {
                    self.lemma_id_at(i as int);
                }
                Some(self.path_by_id[i].1.clone())
            },
            None => None,
        }
    }
}

} // verus!
