//! A content-addressed file tagging core.
//!
//! Files are identified by their content (size plus a streaming CRC-32
//! checksum), not by their path.  A tag is a named set of such identities,
//! persisted as a directory of empty marker files; the database answers
//! multi-tag intersection queries (`filter`) and per-tag overlap queries
//! (`sieve`) over arbitrary identity sets.
//!
//! All filesystem work happens outside this crate: callers hand in directory
//! listings and file bytes as plain values, and receive back the identities
//! that must be persisted as marker files.

use vstd::prelude::*;

pub mod bucket;
pub mod database;
pub mod id;
pub mod identity;
pub mod index;
pub mod location;
pub mod model;
pub mod tag;

verus! {

/// A boolean per entry of some parallel listing: the shape `Database::filter`
/// returns and `apply_filter` consumes.
pub type Filter = Vec<bool>;

/// The elements whose flag is true, in order; with the flags zipped
/// against the elements, whichever sequence ends first ends the result.
pub open spec fn spec_apply_filter<T>(elems: Seq<T>, flags: Seq<bool>) -> Seq<T>
    decreases elems.len(),
{
    if elems.len() == 0 || flags.len() == 0 {
        Seq::empty()
    } else if flags[0] {
        seq![elems[0]] + spec_apply_filter(elems.drop_first(), flags.drop_first())
    } else {
        spec_apply_filter(elems.drop_first(), flags.drop_first())
    }
}

/// Keeps each element whose flag is true, preserving order, so a filter
/// computed over a listing can be zipped back onto it.
#[verifier::loop_isolation(false)]
pub fn apply_filter<T: Copy>(elements: &Vec<T>, filter: &Vec<bool>) -> (r: Vec<T>)
    ensures
        r@ == spec_apply_filter(elements@, filter@),
{
    let n = if elements.len() < filter.len() {
        elements.len()
    } else {
        filter.len()
    };
    let mut r: Vec<T> = Vec::new();
    let mut i: usize = 0;
    proof {
        assert(elements@.skip(0) =~= elements@);
        assert(filter@.skip(0) =~= filter@);
        assert(Seq::<T>::empty() + spec_apply_filter(elements@, filter@) =~= spec_apply_filter(
            elements@,
            filter@,
        ));
    }
    while i < n
        invariant
            i <= n,
            r@ + spec_apply_filter(elements@.skip(i as int), filter@.skip(i as int))
                == spec_apply_filter(elements@, filter@),
        decreases n - i,
    {
        proof {
            assert(elements@.skip(i as int).drop_first() =~= elements@.skip(i as int + 1));
            assert(filter@.skip(i as int).drop_first() =~= filter@.skip(i as int + 1));
            assert(elements@.skip(i as int)[0] == elements@[i as int]);
            assert(filter@.skip(i as int)[0] == filter@[i as int]);
        }
        let ghost r0 = r@;
        if filter[i] {
            r.push(elements[i]);
            proof {
                assert(r@ =~= r0 + seq![elements@[i as int]]);
                assert(r@ + spec_apply_filter(
                    elements@.skip(i as int + 1),
                    filter@.skip(i as int + 1),
                ) =~= r0 + spec_apply_filter(elements@.skip(i as int), filter@.skip(i as int)));
            }
        }
        i = i + 1;
    }
    proof {
        assert(spec_apply_filter(elements@.skip(n as int), filter@.skip(n as int))
            =~= Seq::<T>::empty());
        assert(r@ + Seq::<T>::empty() =~= r@);
    }
    r
}

} // verus!
