//! The browsed location: one directory's visible entries and the depth of
//! the directory below the session root.
//!
//! Listing a directory is the caller's work; this module decides which of
//! the raw entries the user gets to see (hidden names and the reserved
//! data directory are excluded) and keeps the depth bookkeeping that
//! ascending and descending rely on.

use vstd::prelude::*;

verus! {

/// Per-session configuration, built once at startup and passed by
/// reference: the reserved, hidden top-level name that holds the tag
/// store, excluded from every listing shown to the user.
pub struct Config {
    pub data_name: String,
}

/// One raw directory entry as the caller listed it.
pub struct Entry {
    pub name: String,
    pub path: String,
    pub is_dir: bool,
}

/// A subdirectory of a listing.
pub struct DirEntry {
    pub name: String,
    pub path: String,
}

/// A file of a listing, with its size and its timestamps as plain seconds
/// since the Unix epoch.
pub struct FileEntry {
    pub name: String,
    pub path: String,
    pub size: u64,
    pub created: u64,
    pub modified: u64,
    pub accessed: u64,
}

impl FileEntry {
    /// Creation time, in seconds since the Unix epoch.
    pub fn created_secs(&self) -> (r: u64)
        ensures
            r == self.created,
    {
        self.created
    }

    /// Last modification time, in seconds since the Unix epoch.
    pub fn modified_secs(&self) -> (r: u64)
        ensures
            r == self.modified,
    {
        self.modified
    }

    /// Last access time, in seconds since the Unix epoch.
    pub fn accessed_secs(&self) -> (r: u64)
        ensures
            r == self.accessed,
    {
        self.accessed
    }
}

/// The orders a listing of files can be shown in.
#[derive(Debug, Clone, Copy, PartialEq, Eq, Structural)]
pub enum Order {
    AsIs,
    BySize,
    ByCreatedDate,
    ByModifiedDate,
    ByAccessedDate,
}

impl Order {
    /// Every order, paired with its display label.
    pub fn all() -> (r: Vec<(Order, &'static str)>)
        ensures
            r@.len() == 5,
            r@[0].0 == Order::AsIs && r@[0].1@ == "no order"@,
            r@[1].0 == Order::BySize && r@[1].1@ == "by size"@,
            r@[2].0 == Order::ByCreatedDate && r@[2].1@ == "by creation"@,
            r@[3].0 == Order::ByModifiedDate && r@[3].1@ == "by modification"@,
            r@[4].0 == Order::ByAccessedDate && r@[4].1@ == "by last access"@,
    {
        let mut v: Vec<(Order, &'static str)> = Vec::new();
        v.push((Order::AsIs, "no order"));
        v.push((Order::BySize, "by size"));
        v.push((Order::ByCreatedDate, "by creation"));
        v.push((Order::ByModifiedDate, "by modification"));
        v.push((Order::ByAccessedDate, "by last access"));
        v
    }
}

/// An entry is shown unless its name is hidden (a leading dot) or is the
/// reserved data directory name.
pub open spec fn visible(name: Seq<char>, data_name: Seq<char>) -> bool {
    &&& !(name.len() > 0 && name[0] == '.')
    &&& name != data_name
}

/// Decides `visible` for an entry name.
pub fn is_visible(name: &String, cfg: &Config) -> (r: bool)
    ensures
        r == visible(name@, cfg.data_name@),
{
    if name.as_str().unicode_len() > 0 && name.as_str().get_char(0) == '.' {
        return false;
    }
    if name.eq(&cfg.data_name) {
        return false;
    }
    true
}

/// The directory being browsed: its path, its visible entries, and how
/// deep below the session root it lies.
pub struct Location {
    pub path: String,
    pub entries: Vec<Entry>,
    pub depth: usize,
}

impl Location {
    /// A location from a raw listing: keeps exactly the visible entries,
    /// in listing order.
    #[verifier::loop_isolation(false)]
    pub fn new(path: String, raw: Vec<Entry>, depth: usize, cfg: &Config) -> (r: Location)
        ensures
            r.path@ == path@,
            r.depth == depth,
            r.entries@ == raw@.filter(|e: Entry| visible(e.name@, cfg.data_name@)),
    {
        let ghost pred = |e: Entry| visible(e.name@, cfg.data_name@);
        let ghost orig = raw@;
        let mut raw = raw;
        let mut entries: Vec<Entry> = Vec::new();
        let ghost mut k: int = 0;
        while raw.len() > 0
            invariant
                0 <= k <= orig.len(),
                raw@ =~= orig.subrange(k, orig.len() as int),
                entries@ == orig.subrange(0, k).filter(pred),
            decreases raw@.len(),
        {
            let e = raw.remove(0);
            assert(e == orig[k]);
            let keep = is_visible(&e.name, cfg);
            proof {
                reveal(Seq::filter);
                let done = orig.subrange(0, k);
                let done1 = orig.subrange(0, k + 1);
                assert(done1.drop_last() =~= done);
                assert(done1.last() == orig[k]);
                assert(done1.filter(pred) == if pred(orig[k]) {
                    done.filter(pred).push(orig[k])
                } else {
                    done.filter(pred)
                });
            }
            if keep {
                entries.push(e);
            }
            proof {
                k = k + 1;
            }
        }
        proof {
            assert(orig.subrange(0, orig.len() as int) =~= orig);
        }
        Location { path, entries, depth }
    }

    /// The root location of a session.
    pub fn root(path: String, raw: Vec<Entry>, cfg: &Config) -> (r: Location)
        ensures
            r.path@ == path@,
            r.depth == 0,
            r.entries@ == raw@.filter(|e: Entry| visible(e.name@, cfg.data_name@)),
    {
        Location::new(path, raw, 0, cfg)
    }

    /// One step up, from the raw listing of the parent directory.
    pub fn ascend(&self, parent_path: String, raw: Vec<Entry>, cfg: &Config) -> (r: Location)
        requires
            self.depth > 0,
        ensures
            r.path@ == parent_path@,
            r.depth == self.depth - 1,
            r.entries@ == raw@.filter(|e: Entry| visible(e.name@, cfg.data_name@)),
    {
        Location::new(parent_path, raw, self.depth - 1, cfg)
    }

    /// One step down into the subdirectory at position `i`, from that
    /// subdirectory's raw listing.
    pub fn descend(&self, i: usize, raw: Vec<Entry>, cfg: &Config) -> (r: Location)
        requires
            i < self.entries@.len(),
            self.entries@[i as int].is_dir,
            self.depth < usize::MAX,
        ensures
            r.path@ == self.entries@[i as int].path@,
            r.depth == self.depth + 1,
            r.entries@ == raw@.filter(|e: Entry| visible(e.name@, cfg.data_name@)),
    {
        let target = self.entries[i].path.clone();
        Location::new(target, raw, self.depth + 1, cfg)
    }
}

} // verus!
