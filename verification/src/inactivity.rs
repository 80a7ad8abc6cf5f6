//! Cash accounts that charge a fee after a period without activity.

use vstd::prelude::*;

verus! {

/// Whether a transaction should be made in an account now: two weeks or less
/// are left, counted in whole days, of the `account_inactivity_fee_period`
/// (in days) since the last activity, `last_activity_days` ago; that is,
/// fewer than fourteen days.
pub fn should_make_a_move(account_inactivity_fee_period: i64, last_activity_days: i64) -> (r: bool)
    requires
        i64::MIN <= account_inactivity_fee_period - last_activity_days <= i64::MAX,
    ensures
        r == (account_inactivity_fee_period - last_activity_days < 14),
{
    account_inactivity_fee_period - last_activity_days < 14
}

} // verus!
