//! The account kinds (ASSET, LIABILITIES, EQUITY, EXPENSE, REVENUE) and
//! which side of the ledger each one keeps its balance on.

use vstd::prelude::*;
use std::collections::HashMap;
use vstd::std_specs::iter::IteratorSpec;

verus! {

broadcast use vstd::std_specs::hash::group_hash_axioms;

/// The kinds of a table of account kinds, as character sequences.
pub open spec fn kind_names(data: Map<i64, String>) -> Map<i64, Seq<char>> {
    data.map_values(|s: String| s@)
}

/// `data` names some account kind `name`.
pub open spec fn has_kind(data: Map<i64, String>, name: Seq<char>) -> bool {
    exists|id: i64| data.contains_key(id) && #[trigger] data[id]@ == name
}

/// An id of `data` whose name is `name`: the last one met when walking the
/// map, as a reverse lookup table built by that walk would keep.
fn find_kind(data: &HashMap<i64, String>, name: &String) -> (r: Option<i64>)
    ensures
        r matches Some(id) ==> data@.contains_key(id) && data@[id]@ == name@,
        r is None ==> !has_kind(data@, name@),
{
    let mut res: Option<i64> = None;
    let ghost v = vstd::std_specs::hash::spec_hash_map_iter(data).remaining();
    let ghost mut seen: int = 0;
    for entry in it: data.iter()
        invariant
            res matches Some(id) ==> data@.contains_key(id) && data@[id]@ == name@,
            res is None ==> forall|j: int| 0 <= j < seen ==> (#[trigger] v[j]).1@ != name@,
            it.seq() == v,
            seen == it.index(),
            0 <= seen <= v.len(),
    {
        let (k, val) = entry;
        if val.eq(name) {
            res = Some(*k);
        }
        proof {
            seen = seen + 1;
        }
    }
    proof {
        if res is None {
            assert forall|id: i64| data@.contains_key(id) implies #[trigger] data@[id]@ != name@ by {
                assert(v.contains((&id, &data@[id])));
                let j = choose|j: int| 0 <= j < v.len() && v[j] == (&id, &data@[id]);
                assert(v[j].1@ == data@[id]@);
            }
        }
    }
    res
}

/// A table of account kinds, with the ids of the five kinds looked up.
pub struct AccountKindQuery {
    data: HashMap<i64, String>,
    asset_account_kind_id: i64,
    liabilities_account_kind_id: i64,
    equity_account_kind_id: i64,
    expense_account_kind_id: i64,
    revenue_account_kind_id: i64,
}

impl AccountKindQuery {
    /// The table: id to kind name.
    pub closed spec fn kinds(&self) -> Map<i64, Seq<char>> {
        kind_names(self.data@)
    }

    pub closed spec fn asset_id(&self) -> i64 {
        self.asset_account_kind_id
    }

    pub closed spec fn liabilities_id(&self) -> i64 {
        self.liabilities_account_kind_id
    }

    pub closed spec fn equity_id(&self) -> i64 {
        self.equity_account_kind_id
    }

    pub closed spec fn expense_id(&self) -> i64 {
        self.expense_account_kind_id
    }

    pub closed spec fn revenue_id(&self) -> i64 {
        self.revenue_account_kind_id
    }

    /// Each looked-up id is in the table under its kind's name.
    #[verifier::type_invariant]
    spec fn inv(&self) -> bool {
        &&& self.kinds().contains_key(self.asset_id())
        &&& self.kinds()[self.asset_id()] == "ASSET"@
        &&& self.kinds().contains_key(self.liabilities_id())
        &&& self.kinds()[self.liabilities_id()] == "LIABILITIES"@
        &&& self.kinds().contains_key(self.equity_id())
        &&& self.kinds()[self.equity_id()] == "EQUITY"@
        &&& self.kinds().contains_key(self.expense_id())
        &&& self.kinds()[self.expense_id()] == "EXPENSE"@
        &&& self.kinds().contains_key(self.revenue_id())
        &&& self.kinds()[self.revenue_id()] == "REVENUE"@
    }

    /// Builds the query from the table `account_kind_id -> account_kind`,
    /// which must name all five kinds. Where a name occurs under several ids,
    /// which of them is kept is not fixed.
    pub fn new(data: HashMap<i64, String>) -> (r: Self)
        requires
            has_kind(data@, "ASSET"@),
            has_kind(data@, "LIABILITIES"@),
            has_kind(data@, "EQUITY"@),
            has_kind(data@, "EXPENSE"@),
            has_kind(data@, "REVENUE"@),
        ensures
            r.kinds() == kind_names(data@),
            r.kinds()[r.asset_id()] == "ASSET"@,
            r.kinds()[r.liabilities_id()] == "LIABILITIES"@,
            r.kinds()[r.equity_id()] == "EQUITY"@,
            r.kinds()[r.expense_id()] == "EXPENSE"@,
            r.kinds()[r.revenue_id()] == "REVENUE"@,
            r.kinds().contains_key(r.asset_id()),
            r.kinds().contains_key(r.liabilities_id()),
            r.kinds().contains_key(r.equity_id()),
            r.kinds().contains_key(r.expense_id()),
            r.kinds().contains_key(r.revenue_id()),
    {
        let asset = find_kind(&data, &"ASSET".to_string());
        let liabilities = find_kind(&data, &"LIABILITIES".to_string());
        let equity = find_kind(&data, &"EQUITY".to_string());
        let expense = find_kind(&data, &"EXPENSE".to_string());
        let revenue = find_kind(&data, &"REVENUE".to_string());
        match (asset, liabilities, equity, expense, revenue) {
            (Some(a), Some(l), Some(q), Some(x), Some(v)) => AccountKindQuery {
                data,
                asset_account_kind_id: a,
                liabilities_account_kind_id: l,
                equity_account_kind_id: q,
                expense_account_kind_id: x,
                revenue_account_kind_id: v,
            },
            _ => {
                proof {
                    assert(false);
                }
                AccountKindQuery {
                    data,
                    asset_account_kind_id: 0,
                    liabilities_account_kind_id: 0,
                    equity_account_kind_id: 0,
                    expense_account_kind_id: 0,
                    revenue_account_kind_id: 0,
                }
            },
        }
    }

    /// The asset and expense kinds keep a debit balance.
    pub fn is_using_debit_balance(&self, account_kind_id: i64) -> (r: bool)
        ensures
            r == (account_kind_id == self.asset_id() || account_kind_id == self.expense_id()),
    {
        account_kind_id == self.asset_account_kind_id
            || account_kind_id == self.expense_account_kind_id
    }

    /// Every kind but asset and expense keeps a credit balance.
    pub fn is_using_credit_balance(&self, account_kind_id: i64) -> (r: bool)
        ensures
            r == !(account_kind_id == self.asset_id() || account_kind_id == self.expense_id()),
    {
        !self.is_using_debit_balance(account_kind_id)
    }

    pub fn is_asset_kind_id(&self, account_kind_id: i64) -> (r: bool)
        ensures
            r == (account_kind_id == self.asset_id()),
    {
        self.asset_account_kind_id == account_kind_id
    }

    pub fn is_liabilities_kind_id(&self, account_kind_id: i64) -> (r: bool)
        ensures
            r == (account_kind_id == self.liabilities_id()),
    {
        self.liabilities_account_kind_id == account_kind_id
    }

    /// Whether `account_kind_id` is in the table.
    pub fn contains_kind(&self, account_kind_id: i64) -> (r: bool)
        ensures
            r == self.kinds().contains_key(account_kind_id),
    {
        self.data.contains_key(&account_kind_id)
    }

    /// The name of a kind of the table (the id must be in it).
    pub fn must_get_str(&self, account_kind_id: i64) -> (r: String)
        requires
            self.kinds().contains_key(account_kind_id),
        ensures
            r@ == self.kinds()[account_kind_id],
    {
        let s = self.data.get(&account_kind_id);
        match s {
            Some(v) => v.clone(),
            None => {
                proof {
                    assert(false);
                }
                String::new()
            },
        }
    }
}

} // verus!
