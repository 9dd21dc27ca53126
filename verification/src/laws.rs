//! The ledger's global guarantees, stated once for every well-formed ledger.
//!
//! [`Ledger::new`] establishes well-formedness and every operation's contract
//! preserves it, so each of these laws holds after any sequence of
//! operations, successful or rejected.

use vstd::prelude::*;

use crate::ledger::Ledger;
use crate::ledger::lemma_balance_absent;
use crate::ledger::lemma_balance_le_sum;
use crate::ledger::lemma_sum_over_covers;
use crate::ledger::lemma_supply_absent;
use crate::ledger::is_balance_key;
use crate::ledger::sum_for;
use crate::ledger::sum_over_accounts;

verus! {

/// Conservation: in every well-formed ledger the recorded total supply of
/// each asset equals the sum of all balance records for that asset.
pub proof fn lemma_conservation(l: Ledger, id: u32)
    requires
        l.wf(),
    ensures
        l.spec_supply(id) as int == sum_for(l.balances@, id),
{
}

/// Conservation, account by account: the total supply of an asset equals the
/// sum of `spec_balance` over any duplicate-free list of accounts that
/// includes every holder of the asset — in particular over all accounts ever
/// touched. Accounts that hold nothing contribute zero, so listing more of
/// them changes nothing.
pub proof fn lemma_conservation_over_accounts(l: Ledger, id: u32, accounts: Seq<u64>)
    requires
        l.wf(),
        forall|i: int, j: int| 0 <= i < j < accounts.len() ==> accounts[i] != accounts[j],
        forall|who: u64| #[trigger] l.spec_balance(id, who) != 0 ==> accounts.contains(who),
    ensures
        sum_over_accounts(l.balances@, id, accounts) == l.spec_supply(id),
{
    assert forall|who: u64|
        #[trigger] crate::ledger::balance_in(l.balances@, id, who) != 0 implies accounts.contains(
        who,
    ) by {
        assert(l.spec_balance(id, who) != 0);
    }
    lemma_sum_over_covers(l.balances@, id, accounts);
}

/// Non-negativity: no balance and no total supply is ever negative. Balances
/// are unsigned, and the operations reject rather than wrap on underflow.
pub proof fn lemma_non_negative(l: Ledger, id: u32, who: u64)
    ensures
        l.spec_balance(id, who) >= 0,
        l.spec_supply(id) >= 0,
{
}

/// No holder ever holds more than the asset's total supply: one summand of a
/// sum of unsigned values is bounded by the whole.
pub proof fn lemma_balance_le_supply(l: Ledger, id: u32, who: u64)
    requires
        l.wf(),
    ensures
        l.spec_balance(id, who) <= l.spec_supply(id),
{
    lemma_balance_le_sum(l.balances@, id, who);
}

/// An asset id that was never issued has no holders and no supply: an id only
/// exists once an issue allocated it.
pub proof fn lemma_unissued_is_empty(l: Ledger, id: u32, who: u64)
    requires
        l.wf(),
        l.spec_next_id() <= id,
    ensures
        l.spec_balance(id, who) == 0,
        l.spec_supply(id) == 0,
{
    assert forall|j: int| 0 <= j < l.balances@.len() implies !#[trigger] is_balance_key(
        l.balances@[j],
        id,
        who,
    ) by {
        assert(l.balances@[j].asset != id);
    }
    lemma_balance_absent(l.balances@, id, who);
    assert forall|j: int| 0 <= j < l.supplies@.len() implies #[trigger] l.supplies@[j].asset
        != id by {}
    lemma_supply_absent(l.supplies@, id);
}

} // verus!
