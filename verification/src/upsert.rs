//! Loading records into the ledger.

use vstd::prelude::*;

verus! {

/// The number of records written and, of those, the number that changed
/// exactly one row, given how many rows each write affected.
pub fn count_upserts(rows_affected: &Vec<u64>) -> (r: (usize, usize))
    ensures
        r.0 == rows_affected@.len(),
        r.1 == rows_affected@.filter(|a: u64| a == 1).len(),
{
    let mut updated: usize = 0;
    let n = rows_affected.len();
    for i in 0..n
        invariant
            n == rows_affected@.len(),
            updated == rows_affected@.take(i as int).filter(|a: u64| a == 1).len(),
            updated <= i,
    {
        proof {
            reveal_with_fuel(Seq::filter, 1);
            assert(rows_affected@.take(i + 1).drop_last() =~= rows_affected@.take(i as int));
        }
        if rows_affected[i] == 1 {
            updated = updated + 1;
        }
    }
    proof {
        assert(rows_affected@.take(n as int) =~= rows_affected@);
    }
    (n, updated)
}

} // verus!
