//! The ledger state and its three operations: issue, transfer, destroy.
//!
//! Balances are kept as a list of `(asset, account) -> amount` records with
//! unique keys, total supplies as a list of `asset -> amount` records with
//! unique keys. A missing record means a zero balance or a zero supply. The
//! well-formedness predicate [`Ledger::wf`] carries the central invariant:
//! for every asset id, the recorded total supply equals the sum of all
//! balance records for that id.

use vstd::prelude::*;

use crate::event::Event;
use crate::event::LedgerError;

verus! {

/// One stored balance record: `amount` units of asset `asset` held by
/// `account`.
pub struct BalanceEntry {
    pub asset: u32,
    pub account: u64,
    pub amount: u64,
}

/// One stored supply record: `amount` units of asset `asset` in circulation.
pub struct SupplyEntry {
    pub asset: u32,
    pub amount: u64,
}

/// Does `e` record the balance of `account` `who` for asset `id`?
pub open spec fn is_balance_key(e: BalanceEntry, id: u32, who: u64) -> bool {
    e.asset == id && e.account == who
}

/// No two records in `s` share a `(asset, account)` key.
pub open spec fn unique_balance_keys(s: Seq<BalanceEntry>) -> bool {
    forall|i: int, j: int|
        0 <= i < s.len() && 0 <= j < s.len() && i != j ==> !(#[trigger] s[i].asset
            == #[trigger] s[j].asset && s[i].account == s[j].account)
}

/// Is there a record for `(id, who)` in `s`?
pub open spec fn has_balance_key(s: Seq<BalanceEntry>, id: u32, who: u64) -> bool {
    exists|i: int| 0 <= i < s.len() && #[trigger] is_balance_key(s[i], id, who)
}

/// The balance recorded for `(id, who)` in `s`; absence means zero.
pub open spec fn balance_in(s: Seq<BalanceEntry>, id: u32, who: u64) -> u64 {
    if has_balance_key(s, id, who) {
        s[choose|i: int| 0 <= i < s.len() && #[trigger] is_balance_key(s[i], id, who)].amount
    } else {
        0
    }
}

/// The sum of all balance records for asset `id` in `s`.
pub open spec fn sum_for(s: Seq<BalanceEntry>, id: u32) -> int
    decreases s.len(),
{
    if s.len() == 0 {
        0
    } else {
        sum_for(s.drop_last(), id) + if s.last().asset == id {
            s.last().amount as int
        } else {
            0
        }
    }
}

/// No two records in `s` concern the same asset.
pub open spec fn unique_supply_keys(s: Seq<SupplyEntry>) -> bool {
    forall|i: int, j: int|
        0 <= i < s.len() && 0 <= j < s.len() && i != j ==> #[trigger] s[i].asset
            != #[trigger] s[j].asset
}

/// Is there a supply record for `id` in `s`?
pub open spec fn has_supply_key(s: Seq<SupplyEntry>, id: u32) -> bool {
    exists|i: int| 0 <= i < s.len() && #[trigger] s[i].asset == id
}

/// The supply recorded for `id` in `s`; absence means zero.
pub open spec fn supply_in(s: Seq<SupplyEntry>, id: u32) -> u64 {
    if has_supply_key(s, id) {
        s[choose|i: int| 0 <= i < s.len() && #[trigger] s[i].asset == id].amount
    } else {
        0
    }
}

/// A sum of unsigned contributions is never negative.
pub proof fn lemma_sum_nonneg(s: Seq<BalanceEntry>, id: u32)
    ensures
        sum_for(s, id) >= 0,
    decreases s.len(),
{
    if s.len() > 0 {
        lemma_sum_nonneg(s.drop_last(), id);
    }
}

/// If no record in `s` concerns asset `id`, the sum for `id` is zero.
pub proof fn lemma_sum_zero(s: Seq<BalanceEntry>, id: u32)
    requires
        forall|j: int| 0 <= j < s.len() ==> #[trigger] s[j].asset != id,
    ensures
        sum_for(s, id) == 0,
    decreases s.len(),
{
    if s.len() > 0 {
        lemma_sum_zero(s.drop_last(), id);
    }
}

/// Appending a record adds exactly its contribution to each asset's sum.
pub proof fn lemma_sum_push(s: Seq<BalanceEntry>, e: BalanceEntry, id: u32)
    ensures
        sum_for(s.push(e), id) == sum_for(s, id) + if e.asset == id {
            e.amount as int
        } else {
            0
        },
{
    assert(s.push(e).drop_last() =~= s);
}

/// Replacing the record at `i` changes each asset's sum by exactly the
/// difference of the two records' contributions.
pub proof fn lemma_sum_update(s: Seq<BalanceEntry>, i: int, e: BalanceEntry, id: u32)
    requires
        0 <= i < s.len(),
    ensures
        sum_for(s.update(i, e), id) == sum_for(s, id) - (if s[i].asset == id {
            s[i].amount as int
        } else {
            0
        }) + (if e.asset == id {
            e.amount as int
        } else {
            0
        }),
    decreases s.len(),
{
    if i == s.len() - 1 {
        assert(s.update(i, e).drop_last() =~= s.drop_last());
    } else {
        assert(s.update(i, e).drop_last() =~= s.drop_last().update(i, e));
        lemma_sum_update(s.drop_last(), i, e, id);
    }
}

/// Each record's amount is bounded by its asset's sum.
pub proof fn lemma_entry_le_sum(s: Seq<BalanceEntry>, i: int, id: u32)
    requires
        0 <= i < s.len(),
        s[i].asset == id,
    ensures
        s[i].amount as int <= sum_for(s, id),
    decreases s.len(),
{
    lemma_sum_nonneg(s.drop_last(), id);
    if i < s.len() - 1 {
        lemma_entry_le_sum(s.drop_last(), i, id);
    }
}

/// The balance read for any key is bounded by that asset's sum.
pub proof fn lemma_balance_le_sum(s: Seq<BalanceEntry>, id: u32, who: u64)
    ensures
        balance_in(s, id, who) as int <= sum_for(s, id),
{
    if has_balance_key(s, id, who) {
        let i = choose|i: int| 0 <= i < s.len() && #[trigger] is_balance_key(s[i], id, who);
        lemma_entry_le_sum(s, i, id);
    } else {
        lemma_sum_nonneg(s, id);
    }
}

/// With unique keys, the balance read for `(id, who)` is the amount of any
/// record that carries that key.
pub proof fn lemma_balance_at(s: Seq<BalanceEntry>, id: u32, who: u64, i: int)
    requires
        unique_balance_keys(s),
        0 <= i < s.len(),
        is_balance_key(s[i], id, who),
    ensures
        balance_in(s, id, who) == s[i].amount,
{
    let j = choose|j: int| 0 <= j < s.len() && #[trigger] is_balance_key(s[j], id, who);
    assert(j == i);
}

/// Without a record for `(id, who)`, the balance read is zero.
pub proof fn lemma_balance_absent(s: Seq<BalanceEntry>, id: u32, who: u64)
    requires
        forall|j: int| 0 <= j < s.len() ==> !#[trigger] is_balance_key(s[j], id, who),
    ensures
        balance_in(s, id, who) == 0,
{
}

/// Replacing the record at `i` by one with the same key keeps the keys
/// unique, gives that key the new amount, and leaves every other key's
/// balance unchanged.
pub proof fn lemma_balance_after_update(s: Seq<BalanceEntry>, i: int, e: BalanceEntry)
    requires
        unique_balance_keys(s),
        0 <= i < s.len(),
        e.asset == s[i].asset,
        e.account == s[i].account,
    ensures
        unique_balance_keys(s.update(i, e)),
        balance_in(s.update(i, e), e.asset, e.account) == e.amount,
        forall|id2: u32, who2: u64|
            !(id2 == e.asset && who2 == e.account) ==> #[trigger] balance_in(
                s.update(i, e),
                id2,
                who2,
            ) == balance_in(s, id2, who2),
{
    let post = s.update(i, e);
    lemma_balance_at(post, e.asset, e.account, i);
    assert forall|id2: u32, who2: u64| !(id2 == e.asset && who2 == e.account) implies #[trigger]
        balance_in(post, id2, who2) == balance_in(s, id2, who2) by {
        if has_balance_key(post, id2, who2) {
            let j = choose|j: int| 0 <= j < post.len() && #[trigger] is_balance_key(post[j], id2, who2);
            assert(j != i);
            assert(is_balance_key(s[j], id2, who2));
            lemma_balance_at(post, id2, who2, j);
            lemma_balance_at(s, id2, who2, j);
        } else {
            assert forall|j: int| 0 <= j < s.len() implies !#[trigger] is_balance_key(
                s[j],
                id2,
                who2,
            ) by {
                if j != i {
                    assert(post[j] == s[j]);
                }
            }
            lemma_balance_absent(s, id2, who2);
        }
    }
}

/// Appending a record whose key is not yet present keeps the keys unique,
/// gives that key the new amount, and leaves every other key's balance
/// unchanged.
pub proof fn lemma_balance_after_push(s: Seq<BalanceEntry>, e: BalanceEntry)
    requires
        unique_balance_keys(s),
        forall|j: int| 0 <= j < s.len() ==> !#[trigger] is_balance_key(s[j], e.asset, e.account),
    ensures
        unique_balance_keys(s.push(e)),
        balance_in(s.push(e), e.asset, e.account) == e.amount,
        forall|id2: u32, who2: u64|
            !(id2 == e.asset && who2 == e.account) ==> #[trigger] balance_in(s.push(e), id2, who2)
                == balance_in(s, id2, who2),
{
    let post = s.push(e);
    let n = s.len() as int;
    assert(unique_balance_keys(post)) by {
        assert forall|x: int, y: int|
            0 <= x < post.len() && 0 <= y < post.len() && x != y implies !(#[trigger] post[x].asset
            == #[trigger] post[y].asset && post[x].account == post[y].account) by {
            if x == n {
                assert(post[y] == s[y]);
                assert(!is_balance_key(s[y], e.asset, e.account));
            } else if y == n {
                assert(post[x] == s[x]);
                assert(!is_balance_key(s[x], e.asset, e.account));
            } else {
                assert(post[x] == s[x]);
                assert(post[y] == s[y]);
            }
        }
    }
    lemma_balance_at(post, e.asset, e.account, n);
    assert forall|id2: u32, who2: u64| !(id2 == e.asset && who2 == e.account) implies #[trigger]
        balance_in(post, id2, who2) == balance_in(s, id2, who2) by {
        if has_balance_key(post, id2, who2) {
            let j = choose|j: int| 0 <= j < post.len() && #[trigger] is_balance_key(post[j], id2, who2);
            assert(j != n);
            assert(is_balance_key(s[j], id2, who2));
            lemma_balance_at(post, id2, who2, j);
            lemma_balance_at(s, id2, who2, j);
        } else {
            assert forall|j: int| 0 <= j < s.len() implies !#[trigger] is_balance_key(
                s[j],
                id2,
                who2,
            ) by {
                assert(post[j] == s[j]);
                assert(!is_balance_key(post[j], id2, who2));
            }
            lemma_balance_absent(s, id2, who2);
        }
    }
}

/// The sum of the balances read from `s` for asset `id` over the listed
/// accounts.
pub open spec fn sum_over_accounts(s: Seq<BalanceEntry>, id: u32, accounts: Seq<u64>) -> int
    decreases accounts.len(),
{
    if accounts.len() == 0 {
        0
    } else {
        sum_over_accounts(s, id, accounts.drop_last()) + balance_in(s, id, accounts.last()) as int
    }
}

/// Two record lists that agree on the balance of every listed account give
/// the same sum over those accounts.
pub proof fn lemma_sum_over_congruent(
    s1: Seq<BalanceEntry>,
    s2: Seq<BalanceEntry>,
    id: u32,
    accounts: Seq<u64>,
)
    requires
        forall|k: int|
            0 <= k < accounts.len() ==> balance_in(s1, id, #[trigger] accounts[k]) == balance_in(
                s2,
                id,
                accounts[k],
            ),
    ensures
        sum_over_accounts(s1, id, accounts) == sum_over_accounts(s2, id, accounts),
    decreases accounts.len(),
{
    if accounts.len() > 0 {
        lemma_sum_over_congruent(s1, s2, id, accounts.drop_last());
    }
}

/// If nobody holds anything of asset `id`, the records for `id` sum to zero:
/// with unique keys, every record is some account's balance.
pub proof fn lemma_no_holder_sum_zero(s: Seq<BalanceEntry>, id: u32)
    requires
        unique_balance_keys(s),
        forall|who: u64| #[trigger] balance_in(s, id, who) == 0,
    ensures
        sum_for(s, id) == 0,
    decreases s.len(),
{
    if s.len() > 0 {
        let t = s.drop_last();
        assert(unique_balance_keys(t)) by {
            assert forall|x: int, y: int|
                0 <= x < t.len() && 0 <= y < t.len() && x != y implies !(#[trigger] t[x].asset
                == #[trigger] t[y].asset && t[x].account == t[y].account) by {
                assert(t[x] == s[x]);
                assert(t[y] == s[y]);
            }
        }
        assert forall|who: u64| #[trigger] balance_in(t, id, who) == 0 by {
            if has_balance_key(t, id, who) {
                let j = choose|j: int| 0 <= j < t.len() && #[trigger] is_balance_key(t[j], id, who);
                lemma_balance_at(t, id, who, j);
                assert(is_balance_key(s[j], id, who));
                lemma_balance_at(s, id, who, j);
            } else {
                lemma_balance_absent(t, id, who);
            }
        }
        lemma_no_holder_sum_zero(t, id);
        if s.last().asset == id {
            lemma_balance_at(s, id, s.last().account, s.len() - 1);
        }
    }
}

/// Over any duplicate-free list of accounts that includes every holder of
/// asset `id`, the balances sum to exactly the sum of the records for `id`:
/// accounts without a record contribute zero, and each record is counted
/// once.
pub proof fn lemma_sum_over_covers(s: Seq<BalanceEntry>, id: u32, accounts: Seq<u64>)
    requires
        unique_balance_keys(s),
        forall|i: int, j: int| 0 <= i < j < accounts.len() ==> accounts[i] != accounts[j],
        forall|who: u64| #[trigger] balance_in(s, id, who) != 0 ==> accounts.contains(who),
    ensures
        sum_over_accounts(s, id, accounts) == sum_for(s, id),
    decreases accounts.len(),
{
    if accounts.len() == 0 {
        lemma_no_holder_sum_zero(s, id);
    } else {
        let accs = accounts.drop_last();
        let n = accounts.len() - 1;
        let a = accounts.last();
        assert forall|k: int| 0 <= k < accs.len() implies #[trigger] accs[k] != a by {
            assert(accs[k] == accounts[k]);
        }
        if has_balance_key(s, id, a) {
            let i = choose|i: int| 0 <= i < s.len() && #[trigger] is_balance_key(s[i], id, a);
            lemma_balance_at(s, id, a, i);
            let e = BalanceEntry { asset: id, account: a, amount: 0 };
            let s2 = s.update(i, e);
            lemma_balance_after_update(s, i, e);
            lemma_sum_update(s, i, e, id);
            assert forall|who: u64| #[trigger] balance_in(s2, id, who) != 0 implies accs.contains(
                who,
            ) by {
                assert(who != a);
                assert(balance_in(s, id, who) == balance_in(s2, id, who));
                let k = choose|k: int| 0 <= k < accounts.len() && accounts[k] == who;
                assert(k != n);
                assert(accs[k] == who);
            }
            lemma_sum_over_covers(s2, id, accs);
            assert forall|k: int|
                0 <= k < accs.len() implies balance_in(s, id, #[trigger] accs[k]) == balance_in(
                s2,
                id,
                accs[k],
            ) by {
                assert(accs[k] != a);
            }
            lemma_sum_over_congruent(s, s2, id, accs);
        } else {
            lemma_balance_absent(s, id, a);
            assert forall|who: u64| #[trigger] balance_in(s, id, who) != 0 implies accs.contains(
                who,
            ) by {
                assert(who != a);
                let k = choose|k: int| 0 <= k < accounts.len() && accounts[k] == who;
                assert(k != n);
                assert(accs[k] == who);
            }
            lemma_sum_over_covers(s, id, accs);
        }
    }
}

/// With unique keys, the supply read for `id` is the amount of any record
/// that carries that asset.
pub proof fn lemma_supply_at(s: Seq<SupplyEntry>, id: u32, i: int)
    requires
        unique_supply_keys(s),
        0 <= i < s.len(),
        s[i].asset == id,
    ensures
        supply_in(s, id) == s[i].amount,
{
    let j = choose|j: int| 0 <= j < s.len() && #[trigger] s[j].asset == id;
    assert(j == i);
}

/// Without a record for `id`, the supply read is zero.
pub proof fn lemma_supply_absent(s: Seq<SupplyEntry>, id: u32)
    requires
        forall|j: int| 0 <= j < s.len() ==> #[trigger] s[j].asset != id,
    ensures
        supply_in(s, id) == 0,
{
}

/// The whole ledger state: balance records, supply records, the next free
/// asset id, and the log of events recorded by successful operations.
pub struct Ledger {
    pub balances: Vec<BalanceEntry>,
    pub supplies: Vec<SupplyEntry>,
    pub next_id: u32,
    pub events: Vec<Event>,
}

impl Ledger {
    /// The balance of `who` for asset `id`; unrecorded means zero.
    pub open spec fn spec_balance(self, id: u32, who: u64) -> u64 {
        balance_in(self.balances@, id, who)
    }

    /// The total supply of asset `id`; unrecorded means zero.
    pub open spec fn spec_supply(self, id: u32) -> u64 {
        supply_in(self.supplies@, id)
    }

    /// The next asset id up for grabs.
    pub open spec fn spec_next_id(self) -> u32 {
        self.next_id
    }

    /// The events recorded so far, oldest first.
    pub open spec fn spec_events(self) -> Seq<Event> {
        self.events@
    }

    /// Well-formedness. Constructors establish it and operations preserve it:
    /// keys are unique, every asset's recorded supply equals the sum of its
    /// balance records (conservation), and only assets below `next_id` — that
    /// is, assets that were actually issued — carry any record.
    pub open spec fn wf(self) -> bool {
        &&& unique_balance_keys(self.balances@)
        &&& unique_supply_keys(self.supplies@)
        &&& forall|id: u32|
            #[trigger] supply_in(self.supplies@, id) as int == sum_for(self.balances@, id)
        &&& forall|j: int|
            0 <= j < self.balances@.len() ==> #[trigger] self.balances@[j].asset < self.next_id
        &&& forall|j: int|
            0 <= j < self.supplies@.len() ==> #[trigger] self.supplies@[j].asset < self.next_id
    }

    /// An empty ledger: no balances, no supplies, no events, ids start at 0.
    pub fn new() -> (r: Ledger)
        ensures
            r.wf(),
            r.spec_next_id() == 0,
            forall|id: u32, who: u64| #[trigger] r.spec_balance(id, who) == 0,
            forall|id: u32| #[trigger] r.spec_supply(id) == 0,
            r.spec_events() == Seq::<Event>::empty(),
    {
        let r = Ledger { balances: Vec::new(), supplies: Vec::new(), next_id: 0, events: Vec::new() };
        proof {
            assert forall|id: u32, who: u64| #[trigger] balance_in(r.balances@, id, who) == 0 by {
                lemma_balance_absent(r.balances@, id, who);
            }
            assert forall|id: u32| #[trigger] supply_in(r.supplies@, id) == 0 by {
                lemma_supply_absent(r.supplies@, id);
            }
            assert(r.events@ =~= Seq::<Event>::empty());
        }
        r
    }

    /// Get the asset `id` balance of `who`. A pure read: the ledger is not
    /// touched, and the result is a function of the ledger state alone.
    pub fn balance(&self, id: u32, who: u64) -> (r: u64)
        requires
            self.wf(),
        ensures
            r == self.spec_balance(id, who),
    {
        read_balance(&self.balances, id, who)
    }

    /// Get the total supply of asset `id`. A pure read, like `balance`.
    pub fn total_supply(&self, id: u32) -> (r: u64)
        requires
            self.wf(),
        ensures
            r == self.spec_supply(id),
    {
        read_supply(&self.supplies, id)
    }

    /// The next asset identifier up for grabs.
    pub fn next_asset_id(&self) -> (r: u32)
        ensures
            r == self.spec_next_id(),
    {
        self.next_id
    }

    /// The events recorded by successful operations, oldest first.
    pub fn events(&self) -> (r: &Vec<Event>)
        ensures
            r@ == self.spec_events(),
    {
        &self.events
    }

    /// Issue a new class of fungible assets. There are, and will only ever
    /// be, `total` such units, and they all belong to `caller` initially. The
    /// class gets the next free id, which is returned and recorded in the
    /// `Issued` event. Successive successful issues return ids that grow by
    /// exactly one, never reused; when the id space is exhausted the call is
    /// rejected with no effect at all.
    pub fn issue(&mut self, caller: u64, total: u64) -> (r: Result<u32, LedgerError>)
        requires
            old(self).wf(),
        ensures
            final(self).wf(),
            old(self).spec_next_id() == u32::MAX ==> r == Err::<u32, LedgerError>(
                LedgerError::IdSpaceExhausted,
            ) && *final(self) == *old(self),
            old(self).spec_next_id() < u32::MAX ==> {
                &&& r == Ok::<u32, LedgerError>(old(self).spec_next_id())
                &&& final(self).spec_next_id() == old(self).spec_next_id() + 1
                &&& final(self).spec_balance(old(self).spec_next_id(), caller) == total
                &&& final(self).spec_supply(old(self).spec_next_id()) == total
                &&& forall|id2: u32, who2: u64|
                    !(id2 == old(self).spec_next_id() && who2 == caller) ==> #[trigger] final(self).spec_balance(id2, who2)
                        == old(self).spec_balance(id2, who2)
                &&& forall|id2: u32|
                    id2 != old(self).spec_next_id() ==> #[trigger] final(self).spec_supply(id2)
                        == old(self).spec_supply(id2)
                &&& final(self).spec_events() == old(self).spec_events().push(
                    Event::Issued(old(self).spec_next_id(), caller, total),
                )
            },
    {
        if self.next_id == u32::MAX {
            return Err(LedgerError::IdSpaceExhausted);
        }
        let id: u32 = self.next_id;
        self.next_id = id + 1;
        proof {
            let bs = old(self).balances@;
            assert forall|j: int| 0 <= j < bs.len() implies !#[trigger] is_balance_key(
                bs[j],
                id,
                caller,
            ) by {
                assert(bs[j].asset != id);
            }
            lemma_sum_zero(bs, id);
            lemma_balance_absent(bs, id, caller);
        }
        write_balance(&mut self.balances, id, caller, total);
        write_supply(&mut self.supplies, id, total);
        self.events.push(Event::Issued(id, caller, total));
        Ok(id)
    }

    /// Move `amount` units of asset `id` from `caller` to `target`. Rejected
    /// with `ZeroAmount` when `amount` is zero and with `InsufficientBalance`
    /// when `caller` holds fewer than `amount` units; a rejected transfer has
    /// no effect at all. On success the two balances move by equal and
    /// opposite amounts, so no asset's total supply changes; a self-transfer
    /// leaves every balance as it was but still records the event.
    pub fn transfer(&mut self, caller: u64, id: u32, target: u64, amount: u64) -> (r: Result<
        (),
        LedgerError,
    >)
        requires
            old(self).wf(),
        ensures
            final(self).wf(),
            amount == 0 ==> r == Err::<(), LedgerError>(LedgerError::ZeroAmount) && *final(self)
                == *old(self),
            amount != 0 && old(self).spec_balance(id, caller) < amount ==> r == Err::<
                (),
                LedgerError,
            >(LedgerError::InsufficientBalance) && *final(self) == *old(self),
            amount != 0 && old(self).spec_balance(id, caller) >= amount ==> {
                &&& r == Ok::<(), LedgerError>(())
                &&& caller != target ==> final(self).spec_balance(id, caller)
                    == old(self).spec_balance(id, caller) - amount
                &&& caller != target ==> final(self).spec_balance(id, target)
                    == old(self).spec_balance(id, target) + amount
                &&& caller == target ==> final(self).spec_balance(id, caller)
                    == old(self).spec_balance(id, caller)
                &&& forall|id2: u32, who2: u64|
                    !(id2 == id && (who2 == caller || who2 == target)) ==> #[trigger] final(self).spec_balance(id2, who2)
                        == old(self).spec_balance(id2, who2)
                &&& forall|id2: u32|
                    #[trigger] final(self).spec_supply(id2) == old(self).spec_supply(id2)
                &&& final(self).spec_next_id() == old(self).spec_next_id()
                &&& final(self).spec_events() == old(self).spec_events().push(
                    Event::Transferred(id, caller, target, amount),
                )
            },
    {
        if amount == 0 {
            return Err(LedgerError::ZeroAmount);
        }
        let origin_balance: u64 = read_balance(&self.balances, id, caller);
        if origin_balance < amount {
            return Err(LedgerError::InsufficientBalance);
        }
        proof {
            // the caller holds something of `id`, so `id` was issued
            let bs = old(self).balances@;
            let j = choose|j: int| 0 <= j < bs.len() && #[trigger] is_balance_key(bs[j], id, caller);
            assert(bs[j].asset < self.next_id);
            // conservation bounds the whole class by its recorded supply
            assert(supply_in(old(self).supplies@, id) as int == sum_for(bs, id));
        }
        write_balance(&mut self.balances, id, caller, origin_balance - amount);
        proof {
            lemma_balance_le_sum(self.balances@, id, target);
            assert(sum_for(self.balances@, id) == sum_for(old(self).balances@, id) - amount);
        }
        let target_balance: u64 = read_balance(&self.balances, id, target);
        write_balance(&mut self.balances, id, target, target_balance + amount);
        self.events.push(Event::Transferred(id, caller, target, amount));
        Ok(())
    }

    /// Destroy the caller's entire holding of asset `id`. Rejected with
    /// `ZeroBalance`, with no effect at all, when `caller` holds nothing of
    /// `id`. On success the caller's balance record is cleared atomically and
    /// the total supply of `id` drops by exactly the destroyed amount, which
    /// the `Destroyed` event records.
    pub fn destroy(&mut self, caller: u64, id: u32) -> (r: Result<(), LedgerError>)
        requires
            old(self).wf(),
        ensures
            final(self).wf(),
            old(self).spec_balance(id, caller) == 0 ==> r == Err::<(), LedgerError>(
                LedgerError::ZeroBalance,
            ) && *final(self) == *old(self),
            old(self).spec_balance(id, caller) != 0 ==> {
                &&& r == Ok::<(), LedgerError>(())
                &&& final(self).spec_balance(id, caller) == 0
                &&& final(self).spec_supply(id)
                    == old(self).spec_supply(id) - old(self).spec_balance(id, caller)
                &&& forall|id2: u32, who2: u64|
                    !(id2 == id && who2 == caller) ==> #[trigger] final(self).spec_balance(id2, who2)
                        == old(self).spec_balance(id2, who2)
                &&& forall|id2: u32|
                    id2 != id ==> #[trigger] final(self).spec_supply(id2) == old(self).spec_supply(
                        id2,
                    )
                &&& final(self).spec_next_id() == old(self).spec_next_id()
                &&& final(self).spec_events() == old(self).spec_events().push(
                    Event::Destroyed(id, caller, old(self).spec_balance(id, caller)),
                )
            },
    {
        let balance: u64 = read_balance(&self.balances, id, caller);
        if balance == 0 {
            return Err(LedgerError::ZeroBalance);
        }
        proof {
            // the caller holds something of `id`, so `id` was issued
            let bs = old(self).balances@;
            let j = choose|j: int| 0 <= j < bs.len() && #[trigger] is_balance_key(bs[j], id, caller);
            assert(bs[j].asset < self.next_id);
            // the one holding is bounded by the sum, which equals the supply
            lemma_balance_le_sum(bs, id, caller);
            assert(supply_in(old(self).supplies@, id) as int == sum_for(bs, id));
        }
        write_balance(&mut self.balances, id, caller, 0);
        let supply: u64 = read_supply(&self.supplies, id);
        write_supply(&mut self.supplies, id, supply - balance);
        self.events.push(Event::Destroyed(id, caller, balance));
        Ok(())
    }
}

/// The position of the record for `(id, who)`, if one exists.
fn find_balance(entries: &Vec<BalanceEntry>, id: u32, who: u64) -> (r: Option<usize>)
    ensures
        match r {
            Some(i) => i < entries@.len() && is_balance_key(entries@[i as int], id, who),
            None => forall|j: int|
                0 <= j < entries@.len() ==> !#[trigger] is_balance_key(entries@[j], id, who),
        },
{
    let mut i: usize = 0;
    while i < entries.len()
        invariant
            i <= entries@.len(),
            forall|j: int| 0 <= j < i ==> !#[trigger] is_balance_key(entries@[j], id, who),
        decreases entries@.len() - i,
    {
        if entries[i].asset == id && entries[i].account == who {
            return Some(i);
        }
        i = i + 1;
    }
    None
}

/// The balance recorded for `(id, who)`, zero if there is no record.
fn read_balance(entries: &Vec<BalanceEntry>, id: u32, who: u64) -> (r: u64)
    requires
        unique_balance_keys(entries@),
    ensures
        r == balance_in(entries@, id, who),
{
    match find_balance(entries, id, who) {
        Some(i) => {
            proof {
                lemma_balance_at(entries@, id, who, i as int);
            }
            entries[i].amount
        },
        None => {
            proof {
                lemma_balance_absent(entries@, id, who);
            }
            0
        },
    }
}

/// Record `amount` as the balance of `(id, who)`: replace the record if one
/// exists, append one otherwise. Every other key keeps its balance, and the
/// sum for each asset moves by exactly the change to this one key.
fn write_balance(entries: &mut Vec<BalanceEntry>, id: u32, who: u64, amount: u64)
    requires
        unique_balance_keys(old(entries)@),
    ensures
        unique_balance_keys(final(entries)@),
        balance_in(final(entries)@, id, who) == amount,
        forall|id2: u32, who2: u64|
            !(id2 == id && who2 == who) ==> #[trigger] balance_in(final(entries)@, id2, who2)
                == balance_in(old(entries)@, id2, who2),
        forall|a: u32|
            #[trigger] sum_for(final(entries)@, a) == sum_for(old(entries)@, a) + if a == id {
                amount as int - balance_in(old(entries)@, id, who) as int
            } else {
                0
            },
        forall|j: int|
            0 <= j < final(entries)@.len() ==> #[trigger] final(entries)@[j].asset == id || (j
                < old(entries)@.len() && final(entries)@[j].asset == old(entries)@[j].asset),
{
    let entry = BalanceEntry { asset: id, account: who, amount };
    match find_balance(entries, id, who) {
        Some(i) => {
            let ghost pre = entries@;
            proof {
                lemma_balance_at(pre, id, who, i as int);
            }
            entries.set(i, entry);
            proof {
                lemma_balance_after_update(pre, i as int, entry);
                assert forall|a: u32| #[trigger] sum_for(entries@, a) == sum_for(pre, a) + if a
                    == id {
                    amount as int - balance_in(pre, id, who) as int
                } else {
                    0
                } by {
                    lemma_sum_update(pre, i as int, entry, a);
                }
            }
        },
        None => {
            let ghost pre = entries@;
            proof {
                lemma_balance_absent(pre, id, who);
            }
            entries.push(entry);
            proof {
                lemma_balance_after_push(pre, entry);
                assert forall|a: u32| #[trigger] sum_for(entries@, a) == sum_for(pre, a) + if a
                    == id {
                    amount as int - balance_in(pre, id, who) as int
                } else {
                    0
                } by {
                    lemma_sum_push(pre, entry, a);
                }
            }
        },
    }
}

/// The position of the supply record for `id`, if one exists.
fn find_supply(entries: &Vec<SupplyEntry>, id: u32) -> (r: Option<usize>)
    ensures
        match r {
            Some(i) => i < entries@.len() && entries@[i as int].asset == id,
            None => forall|j: int| 0 <= j < entries@.len() ==> #[trigger] entries@[j].asset != id,
        },
{
    let mut i: usize = 0;
    while i < entries.len()
        invariant
            i <= entries@.len(),
            forall|j: int| 0 <= j < i ==> #[trigger] entries@[j].asset != id,
        decreases entries@.len() - i,
    {
        if entries[i].asset == id {
            return Some(i);
        }
        i = i + 1;
    }
    None
}

/// The supply recorded for `id`, zero if there is no record.
fn read_supply(entries: &Vec<SupplyEntry>, id: u32) -> (r: u64)
    requires
        unique_supply_keys(entries@),
    ensures
        r == supply_in(entries@, id),
{
    match find_supply(entries, id) {
        Some(i) => {
            proof {
                lemma_supply_at(entries@, id, i as int);
            }
            entries[i].amount
        },
        None => {
            proof {
                lemma_supply_absent(entries@, id);
            }
            0
        },
    }
}

/// Record `amount` as the supply of `id`: replace the record if one exists,
/// append one otherwise. Every other asset keeps its supply.
fn write_supply(entries: &mut Vec<SupplyEntry>, id: u32, amount: u64)
    requires
        unique_supply_keys(old(entries)@),
    ensures
        unique_supply_keys(final(entries)@),
        supply_in(final(entries)@, id) == amount,
        forall|id2: u32|
            id2 != id ==> #[trigger] supply_in(final(entries)@, id2) == supply_in(
                old(entries)@,
                id2,
            ),
        forall|j: int|
            0 <= j < final(entries)@.len() ==> #[trigger] final(entries)@[j].asset == id || (j
                < old(entries)@.len() && final(entries)@[j].asset == old(entries)@[j].asset),
{
    let entry = SupplyEntry { asset: id, amount };
    match find_supply(entries, id) {
        Some(i) => {
            let ghost pre = entries@;
            entries.set(i, entry);
            proof {
                let post = entries@;
                lemma_supply_at(post, id, i as int);
                assert forall|id2: u32| id2 != id implies #[trigger] supply_in(post, id2)
                    == supply_in(pre, id2) by {
                    if has_supply_key(post, id2) {
                        let j = choose|j: int| 0 <= j < post.len() && #[trigger] post[j].asset == id2;
                        assert(j != i);
                        lemma_supply_at(pre, id2, j);
                    } else {
                        assert forall|j: int| 0 <= j < pre.len() implies #[trigger] pre[j].asset
                            != id2 by {
                            if j != i {
                                assert(post[j] == pre[j]);
                            }
                        }
                        lemma_supply_absent(pre, id2);
                    }
                }
            }
        },
        None => {
            let ghost pre = entries@;
            entries.push(entry);
            proof {
                let post = entries@;
                let n = pre.len() as int;
                lemma_supply_at(post, id, n);
                assert forall|id2: u32| id2 != id implies #[trigger] supply_in(post, id2)
                    == supply_in(pre, id2) by {
                    if has_supply_key(post, id2) {
                        let j = choose|j: int| 0 <= j < post.len() && #[trigger] post[j].asset == id2;
                        assert(j != n);
                        lemma_supply_at(pre, id2, j);
                    } else {
                        assert forall|j: int| 0 <= j < pre.len() implies #[trigger] pre[j].asset
                            != id2 by {
                            assert(post[j] == pre[j]);
                            assert(post[j].asset != id2);
                        }
                        lemma_supply_absent(pre, id2);
                    }
                }
            }
        },
    }
}

} // verus!
