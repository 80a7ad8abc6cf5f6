//! Looking up the id of a row by its unique key.

use vstd::prelude::*;

verus! {

/// The id that a lookup by a unique key found: `None` where no row matched,
/// the one id where one did (a unique key matches at most one row).
pub fn single_id(rows: &Vec<i64>) -> (r: Option<i64>)
    requires
        rows@.len() <= 1,
    ensures
        r is None <==> rows@.len() == 0,
        r matches Some(id) ==> id == rows@[0],
{
    if rows.len() == 0 {
        None
    } else {
        Some(rows[0])
    }
}

} // verus!
