//! Spring-record group feasibility.
//!
//! A condition record is a row of springs, each operational (`.`), damaged
//! (`#`), or unknown (`?`).  A run of damaged springs of a given length can
//! start at the front of the record only if nothing in that prefix is known
//! operational and the spring right after it, if any, is not known damaged.

use vstd::prelude::*;

verus! {

/// A damaged group of length `len` can start at the front of `records`.
pub open spec fn spec_possible_group(records: Seq<char>, len: int) -> bool {
    &&& forall|k: int| 0 <= k < len ==> (#[trigger] records[k]) != '.'
    &&& (records.len() > len ==> records[len] != '#')
}

/// Whether a damaged group of exactly `len` springs can occupy the first
/// `len` positions of the record.
pub fn is_possible_group(records: &Vec<char>, len: usize) -> (r: bool)
    requires
        len <= records@.len(),
    ensures
        r == spec_possible_group(records@, len as int),
{
    for k in 0..len
        invariant
            len <= records@.len(),
            forall|t: int| 0 <= t < k ==> (#[trigger] records@[t]) != '.',
        decreases len - k,
    {
        if records[k] == '.' {
            return false;
        }
    }
    if records.len() > len && records[len] == '#' {
        return false;
    }
    true
}

} // verus!
