//! Per-client accounts and the ledger store.
//!
//! An `Account` holds available and held funds and a status flag; the
//! `AccountDatabase` owns every account, the log of deposits and
//! withdrawals, and the set of transaction ids currently under
//! dispute, and decides which incoming records are applied.

use crate::money::Money;
use crate::money::display_of;
use crate::transactions::TransactionRecord;
use crate::transactions::TransactionText;
use vstd::prelude::*;

verus! {

/// The standing of an account.
#[derive(PartialEq, Eq, Debug)]
pub enum AccountStatus {
    /// Reserved for transactions that could be linked to an account
    /// but not applied safely; no transition produces it today.
    Unknown(TransactionText),
    Active,
    Locked,
}

/// A client account: its id, its two fund buckets, and its standing.
#[derive(PartialEq, Eq, Debug)]
pub struct Account {
    client_id: u16,
    available: Money,
    held: Money,
    status: AccountStatus,
}

/// A rendered snapshot of one account.
pub struct AccountSummary {
    pub client_id: u16,
    pub available: String,
    pub held: String,
    pub total: String,
    pub locked: bool,
}

/// The mathematical state of one account: exact fund amounts and
/// whether the account has been locked.
pub struct AccountView {
    pub available: nat,
    pub held: nat,
    pub locked: bool,
}

impl View for Account {
    type V = AccountView;

    closed spec fn view(&self) -> AccountView {
        AccountView {
            available: self.available@,
            held: self.held@,
            locked: self.status is Locked,
        }
    }
}

/// The state a lazily created account starts in.
pub open spec fn fresh_account() -> AccountView {
    AccountView { available: 0, held: 0, locked: false }
}

/// The smaller of two amounts.
pub open spec fn min_nat(a: nat, b: nat) -> nat {
    if a <= b {
        a
    } else {
        b
    }
}

/// How one accepted record changes one account. Deposits add to
/// available funds; withdrawals deduct only when strictly smaller
/// than the available balance; the dispute lifecycle moves funds
/// between the buckets, always clamped to what is actually there,
/// and a chargeback of a positive amount locks the account.
pub open spec fn account_step(a: AccountView, r: TransactionRecord, d: nat) -> AccountView {
    match r {
        TransactionRecord::Deposit { amount, .. } => AccountView {
            available: (a.available + amount@) as nat,
            held: a.held,
            locked: a.locked,
        },
        TransactionRecord::Withdrawl { amount, .. } => {
            if amount@ < a.available {
                AccountView {
                    available: (a.available - amount@) as nat,
                    held: a.held,
                    locked: a.locked,
                }
            } else {
                a
            }
        },
        TransactionRecord::Dispute { .. } => {
            let moved = min_nat(a.available, d);
            AccountView {
                available: (a.available - moved) as nat,
                held: (a.held + moved) as nat,
                locked: a.locked,
            }
        },
        TransactionRecord::Resolve { .. } => {
            let moved = min_nat(a.held, d);
            AccountView {
                available: (a.available + moved) as nat,
                held: (a.held - moved) as nat,
                locked: a.locked,
            }
        },
        TransactionRecord::Chargeback { .. } => {
            let moved = min_nat(a.held, d);
            AccountView {
                available: (a.available + moved) as nat,
                held: (a.held - moved) as nat,
                locked: if d > 0 {
                    true
                } else {
                    a.locked
                },
            }
        },
    }
}

impl Account {
    /// The id of the client this account belongs to.
    pub closed spec fn spec_client_id(&self) -> u16 {
        self.client_id
    }

    /// A fresh account for `client_id` with empty buckets.
    pub fn create(client_id: u16) -> (r: Account)
        ensures
            r@ == fresh_account(),
            r.spec_client_id() == client_id,
    {
        Account {
            client_id,
            available: Money::zero(),
            held: Money::zero(),
            status: AccountStatus::Active,
        }
    }

    /// The id of the client this account belongs to.
    pub fn client_id(&self) -> (r: u16)
        ensures
            r == self.spec_client_id(),
    {
        self.client_id
    }

    /// The funds the client may withdraw or dispute.
    pub fn available(&self) -> (r: Money)
        ensures
            r@ == self@.available,
    {
        self.available
    }

    /// The funds frozen pending dispute resolution.
    pub fn held(&self) -> (r: Money)
        ensures
            r@ == self@.held,
    {
        self.held
    }

    /// Applies one already-accepted record to this account's buckets,
    /// exactly as `account_step` describes. `disputed_amount` is the
    /// referenced transaction's amount and only matters for the
    /// dispute-lifecycle kinds.
    pub fn apply(&mut self, transaction: &TransactionRecord, disputed_amount: Money)
        requires
            old(self)@.available + old(self)@.held <= u64::MAX,
            transaction matches TransactionRecord::Deposit { .. } ==> old(self)@.available + old(
                self,
            )@.held + transaction.spec_amount() <= u64::MAX,
        ensures
            final(self)@ == account_step(old(self)@, *transaction, disputed_amount@),
            final(self).spec_client_id() == old(self).spec_client_id(),
            final(self)@.available + final(self)@.held <= old(self)@.available + old(self)@.held
                + transaction.spec_amount(),
    {
        match *transaction {
            TransactionRecord::Deposit { amount, .. } => {
                self.available = self.available.add(amount);
            },
            TransactionRecord::Withdrawl { amount, .. } => {
                if amount.units() < self.available.units() {
                    self.available = self.available.sub(amount);
                }
            },
            TransactionRecord::Dispute { .. } => {
                let moved = if disputed_amount.units() <= self.available.units() {
                    disputed_amount
                } else {
                    self.available
                };
                self.held = self.held.add(moved);
                self.available = self.available.sub(moved);
            },
            TransactionRecord::Resolve { .. } => {
                let moved = if disputed_amount.units() <= self.held.units() {
                    disputed_amount
                } else {
                    self.held
                };
                self.available = self.available.add(moved);
                self.held = self.held.sub(moved);
            },
            TransactionRecord::Chargeback { .. } => {
                if disputed_amount.units() > 0 {
                    self.status = AccountStatus::Locked;
                }
                let moved = if disputed_amount.units() <= self.held.units() {
                    disputed_amount
                } else {
                    self.held
                };
                self.available = self.available.add(moved);
                self.held = self.held.sub(moved);
            },
        }
    }

    /// Renders this account as a summary row: both buckets, their
    /// sum, and the lock flag.
    pub fn summary(&self) -> (r: AccountSummary)
        requires
            self@.available + self@.held <= u64::MAX,
        ensures
            r.client_id == self.spec_client_id(),
            r.available@ == display_of(self@.available),
            r.held@ == display_of(self@.held),
            r.total@ == display_of((self@.available + self@.held) as nat),
            r.locked == self@.locked,
    {
        AccountSummary {
            client_id: self.client_id,
            available: self.available.to_display_string(),
            held: self.held.to_display_string(),
            total: self.available.add(self.held).to_display_string(),
            locked: matches!(self.status, AccountStatus::Locked),
        }
    }
}

/// The mathematical state of the whole store: accounts by client id,
/// the log of recorded deposits and withdrawals by transaction id,
/// and the ids currently under dispute.
#[verifier::ext_equal]
pub struct LedgerView {
    pub accounts: Map<u16, AccountView>,
    pub log: Map<u32, TransactionRecord>,
    pub disputed: Set<u32>,
}

/// The state of an empty store.
pub open spec fn empty_ledger() -> LedgerView {
    LedgerView { accounts: Map::empty(), log: Map::empty(), disputed: Set::empty() }
}

/// Whether the store accepts `r` given the recorded log and the
/// disputed set: deposits and withdrawals must carry a fresh id;
/// a dispute must name a recorded, not yet disputed id; a resolve or
/// chargeback must name a recorded, currently disputed id; and the
/// lifecycle kinds must address the client the id was recorded for.
pub open spec fn accepts_in(
    log: Map<u32, TransactionRecord>,
    disputed: Set<u32>,
    r: TransactionRecord,
) -> bool {
    let tx = r.spec_id().transaction_id;
    let recorded = log.contains_key(tx);
    let under_dispute = disputed.contains(tx);
    let consistent = !recorded || log[tx].spec_id().client_id == r.spec_id().client_id;
    match r {
        TransactionRecord::Deposit { .. } => !recorded,
        TransactionRecord::Withdrawl { .. } => !recorded,
        TransactionRecord::Dispute { .. } => recorded && !under_dispute && consistent,
        TransactionRecord::Resolve { .. } => recorded && under_dispute && consistent,
        TransactionRecord::Chargeback { .. } => recorded && under_dispute && consistent,
    }
}

/// Whether the store accepts `r` in state `m`.
pub open spec fn accepts(m: LedgerView, r: TransactionRecord) -> bool {
    accepts_in(m.log, m.disputed, r)
}

/// The effective disputed amount of `r`: the amount of the recorded
/// transaction a dispute-lifecycle record names, zero if it names
/// none; irrelevant for deposits and withdrawals.
pub open spec fn referenced_amount_in(log: Map<u32, TransactionRecord>, r: TransactionRecord) -> nat {
    match r {
        TransactionRecord::Deposit { .. } => 0,
        TransactionRecord::Withdrawl { .. } => 0,
        _ => {
            let tx = r.spec_id().transaction_id;
            if log.contains_key(tx) {
                log[tx].spec_amount()
            } else {
                0
            }
        },
    }
}

/// The effective disputed amount of `r` in state `m`.
pub open spec fn referenced_amount(m: LedgerView, r: TransactionRecord) -> nat {
    referenced_amount_in(m.log, r)
}

/// How the whole store changes on one incoming record: the addressed
/// account is created if absent; a rejected record changes nothing
/// else; an accepted one is recorded (into the log, or into or out of
/// the disputed set) and then applied to the addressed account.
pub open spec fn ledger_step(m: LedgerView, r: TransactionRecord) -> LedgerView {
    let c = r.spec_id().client_id;
    let tx = r.spec_id().transaction_id;
    let acc0 = if m.accounts.contains_key(c) {
        m.accounts[c]
    } else {
        fresh_account()
    };
    if !accepts(m, r) {
        LedgerView { accounts: m.accounts.insert(c, acc0), log: m.log, disputed: m.disputed }
    } else {
        let d = referenced_amount(m, r);
        let log1 = match r {
            TransactionRecord::Deposit { .. } => m.log.insert(tx, r),
            TransactionRecord::Withdrawl { .. } => m.log.insert(tx, r),
            _ => m.log,
        };
        let disputed1 = match r {
            TransactionRecord::Dispute { .. } => m.disputed.insert(tx),
            TransactionRecord::Resolve { .. } => m.disputed.remove(tx),
            TransactionRecord::Chargeback { .. } => m.disputed.remove(tx),
            _ => m.disputed,
        };
        LedgerView {
            accounts: m.accounts.insert(c, account_step(acc0, r, d)),
            log: log1,
            disputed: disputed1,
        }
    }
}

/// Whether the accounts of `s` carry strictly ascending client ids.
pub open spec fn clients_sorted(s: Seq<Account>) -> bool {
    forall|i: int, j: int|
        0 <= i < j < s.len() ==> s[i].spec_client_id() < s[j].spec_client_id()
}

/// Whether no two accounts of `s` share a client id.
pub open spec fn clients_unique(s: Seq<Account>) -> bool {
    forall|i: int, j: int|
        0 <= i < j < s.len() ==> s[i].spec_client_id() != s[j].spec_client_id()
}

/// Whether `s` holds an account for client `c`.
pub open spec fn has_client(s: Seq<Account>, c: u16) -> bool {
    exists|i: int| 0 <= i < s.len() && s[i].spec_client_id() == c
}

/// The position of client `c`'s account in `s`.
pub open spec fn client_index(s: Seq<Account>, c: u16) -> int {
    choose|i: int| 0 <= i < s.len() && s[i].spec_client_id() == c
}

/// The accounts of `s` as a map from client id to account state.
pub open spec fn accounts_view(s: Seq<Account>) -> Map<u16, AccountView> {
    Map::new(|c: u16| has_client(s, c), |c: u16| s[client_index(s, c)]@)
}

/// Whether no two records of `s` share a transaction id.
pub open spec fn txs_unique(s: Seq<TransactionRecord>) -> bool {
    forall|i: int, j: int|
        0 <= i < j < s.len() ==> s[i].spec_id().transaction_id != s[j].spec_id().transaction_id
}

/// Whether `s` holds only deposits and withdrawals.
pub open spec fn log_kinds_ok(s: Seq<TransactionRecord>) -> bool {
    forall|i: int|
        0 <= i < s.len() ==> (#[trigger] s[i]) matches TransactionRecord::Deposit { .. } || s[i] matches
            TransactionRecord::Withdrawl { .. }
}

/// Whether `s` holds a record with transaction id `tx`.
pub open spec fn has_tx(s: Seq<TransactionRecord>, tx: u32) -> bool {
    exists|i: int| 0 <= i < s.len() && s[i].spec_id().transaction_id == tx
}

/// The position of the record with transaction id `tx` in `s`.
pub open spec fn tx_index(s: Seq<TransactionRecord>, tx: u32) -> int {
    choose|i: int| 0 <= i < s.len() && s[i].spec_id().transaction_id == tx
}

/// The records of `s` as a map keyed by transaction id.
pub open spec fn log_view(s: Seq<TransactionRecord>) -> Map<u32, TransactionRecord> {
    Map::new(|tx: u32| has_tx(s, tx), |tx: u32| s[tx_index(s, tx)])
}

/// Whether no id occurs twice in `s`.
pub open spec fn ids_unique(s: Seq<u32>) -> bool {
    forall|i: int, j: int| 0 <= i < j < s.len() ==> s[i] != s[j]
}

/// The ids of `s` as a set.
pub open spec fn ids_view(s: Seq<u32>) -> Set<u32> {
    Set::new(|tx: u32| s.contains(tx))
}

/// In a sequence without repeated client ids, the position found for
/// a client is the position of any account carrying it.
proof fn lemma_client_index_pins(s: Seq<Account>, i: int)
    requires
        clients_unique(s),
        0 <= i < s.len(),
    ensures
        has_client(s, s[i].spec_client_id()),
        client_index(s, s[i].spec_client_id()) == i,
{
    let c = s[i].spec_client_id();
    assert(has_client(s, c));
    let j = client_index(s, c);
    assert(0 <= j < s.len() && s[j].spec_client_id() == c);
    if i != j {
        assert(s[i].spec_client_id() != s[j].spec_client_id());
    }
}

/// In a log without repeated transaction ids, the position found for
/// an id is the position of any record carrying it.
proof fn lemma_tx_index_pins(s: Seq<TransactionRecord>, i: int)
    requires
        txs_unique(s),
        0 <= i < s.len(),
    ensures
        has_tx(s, s[i].spec_id().transaction_id),
        tx_index(s, s[i].spec_id().transaction_id) == i,
{
    let tx = s[i].spec_id().transaction_id;
    assert(has_tx(s, tx));
    let j = tx_index(s, tx);
    assert(0 <= j < s.len() && s[j].spec_id().transaction_id == tx);
    if i != j {
        assert(s[i].spec_id().transaction_id != s[j].spec_id().transaction_id);
    }
}

/// Ascending client ids leave no room for repeats.
proof fn lemma_sorted_unique(s: Seq<Account>)
    requires
        clients_sorted(s),
    ensures
        clients_unique(s),
{
}

/// Appending a record with a fresh id extends the log map by exactly
/// that record.
proof fn lemma_log_view_push(s: Seq<TransactionRecord>, r: TransactionRecord)
    requires
        txs_unique(s),
        !has_tx(s, r.spec_id().transaction_id),
    ensures
        txs_unique(s.push(r)),
        log_view(s.push(r)) == log_view(s).insert(r.spec_id().transaction_id, r),
{
    let tx = r.spec_id().transaction_id;
    let s1 = s.push(r);
    assert forall|i: int, j: int| 0 <= i < j < s1.len() implies s1[i].spec_id().transaction_id
        != s1[j].spec_id().transaction_id by {
        if j < s.len() {
            assert(s1[i] == s[i] && s1[j] == s[j]);
        } else {
            assert(s1[j] == r);
            assert(s1[i] == s[i]);
            assert(has_tx(s, s[i].spec_id().transaction_id));
        }
    }
    assert forall|t: u32| #[trigger] has_tx(s1, t) implies has_tx(s, t) || t == tx by {
        let i = choose|i: int| 0 <= i < s1.len() && s1[i].spec_id().transaction_id == t;
        if i < s.len() {
            assert(s[i].spec_id().transaction_id == t);
        }
    }
    assert forall|t: u32| has_tx(s, t) implies #[trigger] has_tx(s1, t) by {
        let i = choose|i: int| 0 <= i < s.len() && s[i].spec_id().transaction_id == t;
        assert(s1[i].spec_id().transaction_id == t);
    }
    assert(s1[s.len() as int] == r);
    assert(has_tx(s1, tx));
    assert forall|t: u32| #[trigger] has_tx(s1, t) implies log_view(s1)[t] == log_view(s).insert(
        tx,
        r,
    )[t] by {
        lemma_tx_index_pins(s1, tx_index(s1, t));
        if t == tx {
            lemma_tx_index_pins(s1, s.len() as int);
            assert(s1[tx_index(s1, t)] == r);
        } else {
            let i = choose|i: int| 0 <= i < s.len() && s[i].spec_id().transaction_id == t;
            assert(s1[i].spec_id().transaction_id == t);
            lemma_tx_index_pins(s1, i);
            lemma_tx_index_pins(s, i);
        }
    }
    assert(log_view(s.push(r)) =~= log_view(s).insert(tx, r));
}

/// Appending a fresh id extends the id set by exactly that id.
proof fn lemma_ids_view_push(s: Seq<u32>, x: u32)
    requires
        ids_unique(s),
        !s.contains(x),
    ensures
        ids_unique(s.push(x)),
        ids_view(s.push(x)) == ids_view(s).insert(x),
{
    let s1 = s.push(x);
    assert forall|i: int, j: int| 0 <= i < j < s1.len() implies s1[i] != s1[j] by {
        if j < s.len() {
            assert(s1[i] == s[i] && s1[j] == s[j]);
        } else {
            assert(s1[j] == x && s1[i] == s[i]);
            assert(s.contains(s[i]));
        }
    }
    assert forall|t: u32| #[trigger] s1.contains(t) implies s.contains(t) || t == x by {
        let i = choose|i: int| 0 <= i < s1.len() && s1[i] == t;
        if i < s.len() {
            assert(s[i] == t);
        }
    }
    assert forall|t: u32| s.contains(t) implies #[trigger] s1.contains(t) by {
        let i = choose|i: int| 0 <= i < s.len() && s[i] == t;
        assert(s1[i] == t);
    }
    assert(s1[s.len() as int] == x);
    assert(s1.contains(x));
    assert(ids_view(s.push(x)) =~= ids_view(s).insert(x));
}

/// Removing the position holding an id removes exactly that id from
/// the id set.
proof fn lemma_ids_view_remove(s: Seq<u32>, i: int)
    requires
        ids_unique(s),
        0 <= i < s.len(),
    ensures
        ids_unique(s.remove(i)),
        ids_view(s.remove(i)) == ids_view(s).remove(s[i]),
{
    let x = s[i];
    let s1 = s.remove(i);
    assert forall|p: int, q: int| 0 <= p < q < s1.len() implies s1[p] != s1[q] by {
        let p0 = if p < i {
            p
        } else {
            p + 1
        };
        let q0 = if q < i {
            q
        } else {
            q + 1
        };
        assert(s1[p] == s[p0] && s1[q] == s[q0]);
    }
    assert forall|t: u32| #[trigger] s1.contains(t) implies s.contains(t) && t != x by {
        let p = choose|p: int| 0 <= p < s1.len() && s1[p] == t;
        let p0 = if p < i {
            p
        } else {
            p + 1
        };
        assert(s1[p] == s[p0]);
        assert(s.contains(t));
        if p0 != i {
            assert(s[p0] != s[i]);
        }
    }
    assert forall|t: u32| s.contains(t) && t != x implies #[trigger] s1.contains(t) by {
        let p0 = choose|p0: int| 0 <= p0 < s.len() && s[p0] == t;
        if p0 < i {
            assert(s1[p0] == t);
        } else {
            assert(p0 != i);
            assert(s1[p0 - 1] == t);
        }
    }
    assert(ids_view(s.remove(i)) =~= ids_view(s).remove(x));
}

/// Inserting an account for a client not yet present extends the
/// account map by exactly that client.
proof fn lemma_accounts_view_insert(s: Seq<Account>, pos: int, a: Account)
    requires
        clients_unique(s),
        0 <= pos <= s.len(),
        !has_client(s, a.spec_client_id()),
    ensures
        clients_unique(s.insert(pos, a)),
        accounts_view(s.insert(pos, a)) == accounts_view(s).insert(a.spec_client_id(), a@),
{
    let c = a.spec_client_id();
    let s1 = s.insert(pos, a);
    assert forall|p: int| 0 <= p < s1.len() implies s1[p] == (if p < pos {
        s[p]
    } else if p == pos {
        a
    } else {
        s[p - 1]
    }) by {}
    assert forall|p: int, q: int| 0 <= p < q < s1.len() implies s1[p].spec_client_id()
        != s1[q].spec_client_id() by {
        if p != pos && q != pos {
            let p0 = if p < pos {
                p
            } else {
                p - 1
            };
            let q0 = if q < pos {
                q
            } else {
                q - 1
            };
            assert(s1[p] == s[p0] && s1[q] == s[q0]);
        } else if p == pos {
            assert(s1[q] == s[q - 1]);
            assert(has_client(s, s[q - 1].spec_client_id()));
        } else {
            assert(s1[p] == s[p]);
            assert(has_client(s, s[p].spec_client_id()));
        }
    }
    assert forall|t: u16| #[trigger] has_client(s1, t) implies has_client(s, t) || t == c by {
        let p = choose|p: int| 0 <= p < s1.len() && s1[p].spec_client_id() == t;
        if p != pos {
            let p0 = if p < pos {
                p
            } else {
                p - 1
            };
            assert(s[p0].spec_client_id() == t);
        }
    }
    assert forall|t: u16| has_client(s, t) implies #[trigger] has_client(s1, t) by {
        let p0 = choose|p0: int| 0 <= p0 < s.len() && s[p0].spec_client_id() == t;
        if p0 < pos {
            assert(s1[p0].spec_client_id() == t);
        } else {
            assert(s1[p0 + 1].spec_client_id() == t);
        }
    }
    assert(s1[pos] == a);
    assert(has_client(s1, c));
    assert forall|t: u16| #[trigger] has_client(s1, t) implies accounts_view(s1)[t]
        == accounts_view(s).insert(c, a@)[t] by {
        lemma_client_index_pins(s1, client_index(s1, t));
        if t == c {
            lemma_client_index_pins(s1, pos);
        } else {
            let p0 = choose|p0: int| 0 <= p0 < s.len() && s[p0].spec_client_id() == t;
            lemma_client_index_pins(s, p0);
            if p0 < pos {
                lemma_client_index_pins(s1, p0);
                assert(s1[p0] == s[p0]);
            } else {
                lemma_client_index_pins(s1, p0 + 1);
                assert(s1[p0 + 1] == s[p0]);
            }
        }
    }
    assert(accounts_view(s.insert(pos, a)) =~= accounts_view(s).insert(c, a@));
}

/// Replacing the account at a position updates the account map at
/// exactly that client.
proof fn lemma_accounts_view_update(s: Seq<Account>, i: int, a: Account)
    requires
        clients_unique(s),
        0 <= i < s.len(),
        a.spec_client_id() == s[i].spec_client_id(),
    ensures
        clients_unique(s.update(i, a)),
        accounts_view(s.update(i, a)) == accounts_view(s).insert(a.spec_client_id(), a@),
{
    let c = a.spec_client_id();
    let s1 = s.update(i, a);
    assert forall|p: int, q: int| 0 <= p < q < s1.len() implies s1[p].spec_client_id()
        != s1[q].spec_client_id() by {
        assert(s1[p] == if p == i {
            a
        } else {
            s[p]
        });
        assert(s1[q] == if q == i {
            a
        } else {
            s[q]
        });
    }
    assert forall|t: u16| #[trigger] has_client(s1, t) implies has_client(s, t) by {
        let p = choose|p: int| 0 <= p < s1.len() && s1[p].spec_client_id() == t;
        if p == i {
            assert(s[i].spec_client_id() == t);
        } else {
            assert(s[p].spec_client_id() == t);
        }
    }
    assert forall|t: u16| has_client(s, t) implies #[trigger] has_client(s1, t) by {
        let p = choose|p: int| 0 <= p < s.len() && s[p].spec_client_id() == t;
        if p == i {
            assert(s1[i].spec_client_id() == t);
        } else {
            assert(s1[p].spec_client_id() == t);
        }
    }
    assert forall|t: u16| #[trigger] has_client(s1, t) implies accounts_view(s1)[t]
        == accounts_view(s).insert(c, a@)[t] by {
        lemma_client_index_pins(s1, client_index(s1, t));
        if t == c {
            lemma_client_index_pins(s1, i);
        } else {
            let p = choose|p: int| 0 <= p < s.len() && s[p].spec_client_id() == t;
            lemma_client_index_pins(s, p);
            assert(p != i);
            assert(s1[p] == s[p]);
            lemma_client_index_pins(s1, p);
        }
    }
    assert(accounts_view(s.update(i, a)) =~= accounts_view(s).insert(c, a@));
}

/// Whether applying `r` to state `m` stays within the machine range
/// of the stored amounts: only a deposit can grow an account total.
pub open spec fn deposit_fits(m: LedgerView, r: TransactionRecord) -> bool {
    match r {
        TransactionRecord::Deposit { id, amount } => {
            let a0 = if m.accounts.contains_key(id.client_id) {
                m.accounts[id.client_id]
            } else {
                fresh_account()
            };
            a0.available + a0.held + amount@ <= u64::MAX
        },
        _ => true,
    }
}

/// The ledger store: every account ever touched, the log of recorded
/// deposits and withdrawals, and the transaction ids under dispute.
pub struct AccountDatabase {
    accounts: Vec<Account>,
    transactions: Vec<TransactionRecord>,
    disputed_transactions: Vec<u32>,
}

impl View for AccountDatabase {
    type V = LedgerView;

    closed spec fn view(&self) -> LedgerView {
        LedgerView {
            accounts: accounts_view(self.accounts@),
            log: log_view(self.transactions@),
            disputed: ids_view(self.disputed_transactions@),
        }
    }
}

impl AccountDatabase {
    /// The store's structural invariant: accounts sorted by client id,
    /// no repeated transaction ids, only deposits and withdrawals in
    /// the log, no repeated disputed ids, every disputed id recorded,
    /// and every account total within machine range.
    pub closed spec fn wf(self) -> bool {
        &&& clients_sorted(self.accounts@)
        &&& txs_unique(self.transactions@)
        &&& log_kinds_ok(self.transactions@)
        &&& ids_unique(self.disputed_transactions@)
        &&& forall|k: int|
            0 <= k < self.disputed_transactions@.len() ==> has_tx(
                self.transactions@,
                #[trigger] self.disputed_transactions@[k],
            )
        &&& forall|i: int|
            0 <= i < self.accounts@.len() ==> (#[trigger] self.accounts@[i])@.available
                + self.accounts@[i]@.held <= u64::MAX
    }

    /// The accounts as stored, ascending by client id.
    pub closed spec fn spec_accounts(self) -> Seq<Account> {
        self.accounts@
    }

    /// An empty store.
    pub fn new() -> (r: AccountDatabase)
        ensures
            r.wf(),
            r@ == empty_ledger(),
    {
        let r = AccountDatabase {
            accounts: Vec::new(),
            transactions: Vec::new(),
            disputed_transactions: Vec::new(),
        };
        proof {
            assert(accounts_view(r.accounts@) =~= Map::<u16, AccountView>::empty());
            assert(log_view(r.transactions@) =~= Map::<u32, TransactionRecord>::empty());
            assert(ids_view(r.disputed_transactions@) =~= Set::<u32>::empty());
            assert(r@ =~= empty_ledger());
        }
        r
    }

    /// The accounts in ascending client-id order, each one matching
    /// the account map of the store's state.
    pub fn accounts(&self) -> (r: &Vec<Account>)
        ensures
            r@ == self.spec_accounts(),
            self.wf() ==> clients_sorted(r@),
            self.wf() ==> forall|i: int|
                0 <= i < r@.len() ==> self@.accounts.contains_key(
                    (#[trigger] r@[i]).spec_client_id(),
                ) && self@.accounts[r@[i].spec_client_id()] == r@[i]@,
            self.wf() ==> forall|c: u16|
                self@.accounts.contains_key(c) ==> has_client(r@, c),
            self.wf() ==> forall|i: int|
                0 <= i < r@.len() ==> (#[trigger] r@[i])@.available + r@[i]@.held <= u64::MAX,
    {
        proof {
            if self.wf() {
                lemma_sorted_unique(self.accounts@);
                assert forall|i: int| 0 <= i < self.accounts@.len() implies self@.accounts.contains_key(
                    (#[trigger] self.accounts@[i]).spec_client_id(),
                ) && self@.accounts[self.accounts@[i].spec_client_id()] == self.accounts@[i]@ by {
                    lemma_client_index_pins(self.accounts@, i);
                }
            }
        }
        &self.accounts
    }

    /// The position where client `c`'s account sits, or where it
    /// would be inserted to keep the order.
    fn locate_client(accounts: &Vec<Account>, c: u16) -> (r: usize)
        requires
            clients_sorted(accounts@),
        ensures
            r <= accounts@.len(),
            forall|i: int| 0 <= i < r ==> (#[trigger] accounts@[i]).spec_client_id() < c,
            r < accounts@.len() ==> accounts@[r as int].spec_client_id() >= c,
    {
        let n = accounts.len();
        let mut i: usize = 0;
        while i < n
            invariant
                i <= n,
                n == accounts@.len(),
                forall|j: int| 0 <= j < i ==> (#[trigger] accounts@[j]).spec_client_id() < c,
            decreases n - i,
        {
            if accounts[i].client_id() >= c {
                return i;
            }
            i = i + 1;
        }
        i
    }

    /// The position of the record with id `tx` in the log, if any.
    fn find_tx(transactions: &Vec<TransactionRecord>, tx: u32) -> (r: Option<usize>)
        ensures
            match r {
                Some(i) => i < transactions@.len() && transactions@[i as int].spec_id().transaction_id
                    == tx && has_tx(transactions@, tx),
                None => !has_tx(transactions@, tx),
            },
    {
        let n = transactions.len();
        let mut i: usize = 0;
        while i < n
            invariant
                i <= n,
                n == transactions@.len(),
                forall|j: int|
                    0 <= j < i ==> (#[trigger] transactions@[j]).spec_id().transaction_id != tx,
            decreases n - i,
        {
            if transactions[i].id().transaction_id == tx {
                return Some(i);
            }
            i = i + 1;
        }
        None
    }

    /// The position of `tx` among the disputed ids, if present.
    fn dis_find(disputed: &Vec<u32>, tx: u32) -> (r: Option<usize>)
        ensures
            match r {
                Some(i) => i < disputed@.len() && disputed@[i as int] == tx && disputed@.contains(
                    tx,
                ),
                None => !disputed@.contains(tx),
            },
    {
        let n = disputed.len();
        let mut i: usize = 0;
        while i < n
            invariant
                i <= n,
                n == disputed@.len(),
                forall|j: int| 0 <= j < i ==> (#[trigger] disputed@[j]) != tx,
            decreases n - i,
        {
            if disputed[i] == tx {
                return Some(i);
            }
            i = i + 1;
        }
        None
    }

    /// Decides acceptance of `transaction` from the recorded log and
    /// the disputed ids alone, without touching any account.
    fn can_process_transaction(
        transaction: &TransactionRecord,
        recorded_transactions: &Vec<TransactionRecord>,
        disputed_transactions: &Vec<u32>,
    ) -> (r: bool)
        requires
            txs_unique(recorded_transactions@),
        ensures
            r == accepts_in(
                log_view(recorded_transactions@),
                ids_view(disputed_transactions@),
                *transaction,
            ),
    {
        let tx = transaction.id().transaction_id;
        let found = Self::find_tx(recorded_transactions, tx);
        let under = Self::dis_find(disputed_transactions, tx).is_some();
        let consistent = match found {
            Some(i) => {
                proof {
                    lemma_tx_index_pins(recorded_transactions@, i as int);
                }
                recorded_transactions[i].id().client_id == transaction.id().client_id
            },
            None => true,
        };
        match *transaction {
            TransactionRecord::Deposit { .. } => found.is_none(),
            TransactionRecord::Withdrawl { .. } => found.is_none(),
            TransactionRecord::Dispute { .. } => found.is_some() && !under && consistent,
            TransactionRecord::Resolve { .. } => found.is_some() && under && consistent,
            TransactionRecord::Chargeback { .. } => found.is_some() && under && consistent,
        }
    }

    /// The amount of the recorded transaction a dispute-lifecycle
    /// record names; zero for anything else.
    fn get_disputed_amount(
        transaction: &TransactionRecord,
        recorded_transactions: &Vec<TransactionRecord>,
    ) -> (r: Money)
        requires
            txs_unique(recorded_transactions@),
        ensures
            r@ == referenced_amount_in(log_view(recorded_transactions@), *transaction),
    {
        match *transaction {
            TransactionRecord::Deposit { .. } => Money::zero(),
            TransactionRecord::Withdrawl { .. } => Money::zero(),
            _ => {
                let tx = transaction.id().transaction_id;
                match Self::find_tx(recorded_transactions, tx) {
                    Some(i) => {
                        proof {
                            lemma_tx_index_pins(recorded_transactions@, i as int);
                        }
                        recorded_transactions[i].amount()
                    },
                    None => Money::zero(),
                }
            },
        }
    }

    /// Books an accepted record: deposits and withdrawals enter the
    /// log, a dispute marks its id disputed, a resolve or chargeback
    /// clears that mark.
    fn record_transaction(
        transaction: &TransactionRecord,
        transactions: &mut Vec<TransactionRecord>,
        disputed_transactions: &mut Vec<u32>,
    )
        requires
            txs_unique(old(transactions)@),
            log_kinds_ok(old(transactions)@),
            ids_unique(old(disputed_transactions)@),
            forall|k: int|
                0 <= k < old(disputed_transactions)@.len() ==> has_tx(
                    old(transactions)@,
                    #[trigger] old(disputed_transactions)@[k],
                ),
            accepts_in(
                log_view(old(transactions)@),
                ids_view(old(disputed_transactions)@),
                *transaction,
            ),
        ensures
            txs_unique(final(transactions)@),
            log_kinds_ok(final(transactions)@),
            ids_unique(final(disputed_transactions)@),
            forall|k: int|
                0 <= k < final(disputed_transactions)@.len() ==> has_tx(
                    final(transactions)@,
                    #[trigger] final(disputed_transactions)@[k],
                ),
            log_view(final(transactions)@) == (match *transaction {
                TransactionRecord::Deposit { .. } => log_view(old(transactions)@).insert(
                    transaction.spec_id().transaction_id,
                    *transaction,
                ),
                TransactionRecord::Withdrawl { .. } => log_view(old(transactions)@).insert(
                    transaction.spec_id().transaction_id,
                    *transaction,
                ),
                _ => log_view(old(transactions)@),
            }),
            ids_view(final(disputed_transactions)@) == (match *transaction {
                TransactionRecord::Dispute { .. } => ids_view(old(disputed_transactions)@).insert(
                    transaction.spec_id().transaction_id,
                ),
                TransactionRecord::Resolve { .. } => ids_view(old(disputed_transactions)@).remove(
                    transaction.spec_id().transaction_id,
                ),
                TransactionRecord::Chargeback { .. } => ids_view(
                    old(disputed_transactions)@,
                ).remove(transaction.spec_id().transaction_id),
                _ => ids_view(old(disputed_transactions)@),
            }),
    {
        let tx = transaction.id().transaction_id;
        match *transaction {
            TransactionRecord::Deposit { .. } => {
                proof {
                    lemma_log_view_push(transactions@, *transaction);
                }
                transactions.push(*transaction);
                proof {
                    assert forall|k: int|
                        0 <= k < disputed_transactions@.len() implies has_tx(
                        transactions@,
                        #[trigger] disputed_transactions@[k],
                    ) by {
                        let t = disputed_transactions@[k];
                        let i = choose|i: int|
                            0 <= i < old(transactions)@.len() && old(
                                transactions,
                            )@[i].spec_id().transaction_id == t;
                        assert(transactions@[i].spec_id().transaction_id == t);
                    }
                }
            },
            TransactionRecord::Withdrawl { .. } => {
                proof {
                    lemma_log_view_push(transactions@, *transaction);
                }
                transactions.push(*transaction);
                proof {
                    assert forall|k: int|
                        0 <= k < disputed_transactions@.len() implies has_tx(
                        transactions@,
                        #[trigger] disputed_transactions@[k],
                    ) by {
                        let t = disputed_transactions@[k];
                        let i = choose|i: int|
                            0 <= i < old(transactions)@.len() && old(
                                transactions,
                            )@[i].spec_id().transaction_id == t;
                        assert(transactions@[i].spec_id().transaction_id == t);
                    }
                }
            },
            TransactionRecord::Dispute { .. } => {
                proof {
                    lemma_ids_view_push(disputed_transactions@, tx);
                }
                disputed_transactions.push(tx);
            },
            TransactionRecord::Resolve { .. } => {
                let i = match Self::dis_find(disputed_transactions, tx) {
                    Some(i) => i,
                    None => {
                        proof {
                            assert(false);
                        }
                        0
                    },
                };
                proof {
                    lemma_ids_view_remove(disputed_transactions@, i as int);
                }
                disputed_transactions.remove(i);
            },
            TransactionRecord::Chargeback { .. } => {
                let i = match Self::dis_find(disputed_transactions, tx) {
                    Some(i) => i,
                    None => {
                        proof {
                            assert(false);
                        }
                        0
                    },
                };
                proof {
                    lemma_ids_view_remove(disputed_transactions@, i as int);
                }
                disputed_transactions.remove(i);
            },
        }
    }

    /// Feeds one record through the store: the addressed account is
    /// created if it does not exist yet; if the record is acceptable
    /// it is booked and applied to that account, and otherwise it is
    /// silently dropped, exactly as `ledger_step` describes.
    pub fn apply(&mut self, transaction: &TransactionRecord)
        requires
            old(self).wf(),
            deposit_fits(old(self)@, *transaction),
        ensures
            final(self).wf(),
            final(self)@ == ledger_step(old(self)@, *transaction),
    {
        let client_id = transaction.id().client_id;
        proof {
            lemma_sorted_unique(self.accounts@);
        }
        let pos = Self::locate_client(&self.accounts, client_id);
        let found = pos < self.accounts.len() && self.accounts[pos].client_id() == client_id;
        let ghost pre = self.accounts@;
        if !found {
            proof {
                assert(!has_client(pre, client_id)) by {
                    if has_client(pre, client_id) {
                        let i = choose|i: int|
                            0 <= i < pre.len() && pre[i].spec_client_id() == client_id;
                        if i < pos {
                            assert(pre[i].spec_client_id() < client_id);
                        } else if i > pos {
                            assert(pre[pos as int].spec_client_id() < pre[i].spec_client_id());
                        }
                    }
                }
            }
            let fresh = Account::create(client_id);
            proof {
                lemma_accounts_view_insert(pre, pos as int, fresh);
            }
            self.accounts.insert(pos, fresh);
            proof {
                let s1 = self.accounts@;
                assert forall|p: int, q: int|
                    0 <= p < q < s1.len() implies (#[trigger] s1[p]).spec_client_id() < (
                #[trigger] s1[q]).spec_client_id() by {
                    let p0 = if p < pos {
                        p
                    } else {
                        p - 1
                    };
                    let q0 = if q < pos {
                        q
                    } else {
                        q - 1
                    };
                    if p == pos {
                        assert(s1[q] == pre[q0]);
                        assert(pre[pos as int].spec_client_id() <= pre[q0].spec_client_id());
                        assert(!has_client(pre, client_id));
                        assert(pre[q0].spec_client_id() != client_id);
                    } else if q == pos {
                        assert(s1[p] == pre[p0]);
                    } else {
                        assert(s1[p] == pre[p0] && s1[q] == pre[q0]);
                        if p0 == q0 {
                            assert(p < pos && q > pos);
                        }
                    }
                }
            }
        }
        let ghost mid = self.accounts@;
        let ghost acc0 = mid[pos as int]@;
        proof {
            lemma_sorted_unique(mid);
            assert(mid[pos as int].spec_client_id() == client_id);
            lemma_client_index_pins(mid, pos as int);
            if found {
                lemma_client_index_pins(pre, pos as int);
                assert(accounts_view(mid) =~= accounts_view(pre).insert(client_id, acc0));
            }
            assert(accounts_view(mid) == accounts_view(pre).insert(client_id, acc0));
            assert(acc0 == (if accounts_view(pre).contains_key(client_id) {
                accounts_view(pre)[client_id]
            } else {
                fresh_account()
            }));
        }
        let can = Self::can_process_transaction(
            transaction,
            &self.transactions,
            &self.disputed_transactions,
        );
        if can {
            Self::record_transaction(
                transaction,
                &mut self.transactions,
                &mut self.disputed_transactions,
            );
            let d = Self::get_disputed_amount(transaction, &self.transactions);
            proof {
                assert(d@ == referenced_amount_in(log_view(old(self).transactions@), *transaction));
            }
            let mut acc = self.accounts.remove(pos);
            acc.apply(transaction, d);
            proof {
                assert(acc@ == account_step(acc0, *transaction, d@));
            }
            self.accounts.insert(pos, acc);
            proof {
                assert(self.accounts@ =~= mid.update(pos as int, acc));
                lemma_accounts_view_update(mid, pos as int, acc);
                assert(accounts_view(self.accounts@) =~= accounts_view(pre).insert(
                    client_id,
                    account_step(acc0, *transaction, d@),
                ));
                let s1 = self.accounts@;
                assert forall|p: int, q: int|
                    0 <= p < q < s1.len() implies (#[trigger] s1[p]).spec_client_id() < (
                #[trigger] s1[q]).spec_client_id() by {
                    assert(s1[p] == if p == pos {
                        acc
                    } else {
                        mid[p]
                    });
                    assert(s1[q] == if q == pos {
                        acc
                    } else {
                        mid[q]
                    });
                }
                assert forall|i: int|
                    0 <= i < s1.len() implies (#[trigger] s1[i])@.available + s1[i]@.held
                    <= u64::MAX by {
                    if i != pos {
                        assert(s1[i] == mid[i]);
                    }
                }
                assert(final(self)@ =~= ledger_step(old(self)@, *transaction));
            }
        } else {
            proof {
                assert(final(self)@ =~= ledger_step(old(self)@, *transaction));
                assert forall|i: int|
                    0 <= i < self.accounts@.len() implies (#[trigger] self.accounts@[i])@.available
                    + self.accounts@[i]@.held <= u64::MAX by {
                    if !found {
                        if i < pos {
                            assert(self.accounts@[i] == pre[i]);
                        } else if i > pos {
                            assert(self.accounts@[i] == pre[i - 1]);
                        }
                    }
                }
            }
        }
    }
}

} // verus!
