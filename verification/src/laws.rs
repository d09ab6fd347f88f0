//! Store-level guarantees, each proved once and for all over the
//! mathematical model that `AccountDatabase::apply` is verified
//! against.

use crate::accounts::AccountView;
use crate::accounts::LedgerView;
use crate::accounts::account_step;
use crate::accounts::accepts;
use crate::accounts::fresh_account;
use crate::accounts::ledger_step;
use crate::accounts::min_nat;
use crate::transactions::TransactionRecord;
use vstd::prelude::*;

verus! {

/// Replay safety: once a deposit or withdrawal has been fed to the
/// store, feeding any deposit or withdrawal with the same identity
/// again leaves the state exactly as it was, whatever amount the
/// replay claims.
pub proof fn lemma_replay_is_noop(m: LedgerView, r: TransactionRecord, r2: TransactionRecord)
    requires
        r matches TransactionRecord::Deposit { .. } || r matches TransactionRecord::Withdrawl {
            ..
        },
        r2 matches TransactionRecord::Deposit { .. } || r2 matches TransactionRecord::Withdrawl {
            ..
        },
        r2.spec_id() == r.spec_id(),
    ensures
        ledger_step(ledger_step(m, r), r2) == ledger_step(m, r),
{
    let m1 = ledger_step(m, r);
    let c = r.spec_id().client_id;
    assert(m1.log.contains_key(r.spec_id().transaction_id));
    assert(!accepts(m1, r2));
    assert(m1.accounts.contains_key(c));
    assert(m1.accounts.insert(c, m1.accounts[c]) =~= m1.accounts);
    assert(ledger_step(m1, r2) =~= m1);
}

/// Client independence: a record addressed to one client never
/// touches any other client's account.
pub proof fn lemma_other_clients_unchanged(m: LedgerView, r: TransactionRecord, c: u16)
    requires
        c != r.spec_id().client_id,
    ensures
        ledger_step(m, r).accounts.contains_key(c) == m.accounts.contains_key(c),
        m.accounts.contains_key(c) ==> ledger_step(m, r).accounts[c] == m.accounts[c],
{
}

/// Withdrawal bound: a withdrawal deducts only when strictly smaller
/// than the available balance, so available funds never go below
/// zero, and a withdrawal of exactly the available balance is
/// rejected and changes nothing.
pub proof fn lemma_withdrawal_bounded(a: AccountView, r: TransactionRecord, d: nat)
    requires
        r matches TransactionRecord::Withdrawl { .. },
    ensures
        account_step(a, r, d).available >= 0,
        r.spec_amount() < a.available ==> account_step(a, r, d).available == a.available
            - r.spec_amount(),
        r.spec_amount() >= a.available ==> account_step(a, r, d) == a,
{
}

/// Dispute clamp: a dispute moves `min(available, d)` from available
/// to held, so it never holds more than the account actually has on
/// hand, even when the referenced amount `d` is larger, and it moves
/// nothing in or out of the account as a whole.
pub proof fn lemma_dispute_clamped(a: AccountView, r: TransactionRecord, d: nat)
    requires
        r matches TransactionRecord::Dispute { .. },
    ensures
        account_step(a, r, d).held - a.held == min_nat(a.available, d),
        account_step(a, r, d).held - a.held <= a.available,
        account_step(a, r, d).available + account_step(a, r, d).held == a.available + a.held,
{
}

/// Release clamp: a resolve or chargeback moves `min(held, d)` from
/// held back to available, so it never releases more than is held,
/// and it moves nothing in or out of the account as a whole.
pub proof fn lemma_release_clamped(a: AccountView, r: TransactionRecord, d: nat)
    requires
        r matches TransactionRecord::Resolve { .. } || r matches TransactionRecord::Chargeback {
            ..
        },
    ensures
        account_step(a, r, d).available - a.available == min_nat(a.held, d),
        account_step(a, r, d).available - a.available <= a.held,
        account_step(a, r, d).available + account_step(a, r, d).held == a.available + a.held,
{
}

/// Lock monotonicity: no record of any kind unlocks an account that
/// is already locked.
pub proof fn lemma_lock_monotone(m: LedgerView, r: TransactionRecord, c: u16)
    requires
        m.accounts.contains_key(c),
        m.accounts[c].locked,
    ensures
        ledger_step(m, r).accounts.contains_key(c),
        ledger_step(m, r).accounts[c].locked,
{
}

/// The store states reached by feeding the records of `rs` in order,
/// starting from `m`.
pub open spec fn ledger_run(m: LedgerView, rs: Seq<TransactionRecord>) -> LedgerView
    decreases rs.len(),
{
    if rs.len() == 0 {
        m
    } else {
        ledger_run(ledger_step(m, rs[0]), rs.drop_first())
    }
}

/// The signed amount that `r`, fed in state `m`, moves into client
/// `c`'s buckets from outside: an accepted deposit contributes its
/// amount, an accepted withdrawal that clears the strict funds check
/// contributes its negated amount, and everything else contributes
/// nothing.
pub open spec fn flow(m: LedgerView, r: TransactionRecord, c: u16) -> int {
    if r.spec_id().client_id != c || !accepts(m, r) {
        0
    } else {
        let a0 = if m.accounts.contains_key(c) {
            m.accounts[c]
        } else {
            fresh_account()
        };
        match r {
            TransactionRecord::Deposit { amount, .. } => amount@ as int,
            TransactionRecord::Withdrawl { amount, .. } => if amount@ < a0.available {
                -(amount@ as int)
            } else {
                0
            },
            _ => 0,
        }
    }
}

/// The sum of accepted deposit amounts minus accepted withdrawal
/// amounts for client `c` over the run of `rs` from `m`.
pub open spec fn net_flow(m: LedgerView, rs: Seq<TransactionRecord>, c: u16) -> int
    decreases rs.len(),
{
    if rs.len() == 0 {
        0
    } else {
        flow(m, rs[0], c) + net_flow(ledger_step(m, rs[0]), rs.drop_first(), c)
    }
}

/// Client `c`'s combined funds, available plus held; zero if the
/// client has no account.
pub open spec fn total_of(m: LedgerView, c: u16) -> int {
    if m.accounts.contains_key(c) {
        m.accounts[c].available + m.accounts[c].held as int
    } else {
        0
    }
}

/// One record changes a client's combined funds by exactly its flow:
/// the dispute lifecycle only shifts funds between the two buckets.
pub proof fn lemma_step_conserves(m: LedgerView, r: TransactionRecord, c: u16)
    ensures
        total_of(ledger_step(m, r), c) == total_of(m, c) + flow(m, r, c),
{
    if c != r.spec_id().client_id {
        lemma_other_clients_unchanged(m, r, c);
    }
}

/// Total conservation: over any stream free of chargebacks, each
/// client's combined funds end at their starting value plus the sum
/// of accepted deposits minus the sum of accepted withdrawals.
pub proof fn lemma_conservation(m: LedgerView, rs: Seq<TransactionRecord>, c: u16)
    requires
        forall|i: int|
            0 <= i < rs.len() ==> !((#[trigger] rs[i]) matches TransactionRecord::Chargeback {
                ..
            }),
    ensures
        total_of(ledger_run(m, rs), c) == total_of(m, c) + net_flow(m, rs, c),
    decreases rs.len(),
{
    if rs.len() > 0 {
        lemma_step_conserves(m, rs[0], c);
        let rest = rs.drop_first();
        assert(forall|i: int| 0 <= i < rest.len() ==> rest[i] == rs[i + 1]);
        lemma_conservation(ledger_step(m, rs[0]), rest, c);
    }
}

} // verus!

