//! The session model: the index, the database, and the browsed location,
//! owned together for the lifetime of one browsing session against one
//! root.  The caller builds the three parts from its own scans and hands
//! them over; nothing here touches the filesystem.

use crate::database::Database;
use crate::index::Index;
use crate::location::Location;
use vstd::prelude::*;

verus! {

/// One browsing session's state.
pub struct Model {
    pub index: Index,
    pub database: Database,
    pub location: Location,
}

impl Model {
    /// Assembles a session from its three parts.
    pub fn new(index: Index, database: Database, location: Location) -> (r: Model)
        ensures
            r.index == index,
            r.database == database,
            r.location == location,
    {
        Model { index, database, location }
    }
}

} // verus!
