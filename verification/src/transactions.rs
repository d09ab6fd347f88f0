//! Transaction records: the typed events the ledger consumes, and the
//! conversion from raw textual rows into them.

use crate::digits::parse_uint;
use crate::digits::uint_parse;
use crate::money::Money;
use crate::money::MoneyParseError;
use crate::money::parse_result;
use vstd::prelude::*;
use vstd::string::StrSliceExecFns;

verus! {

/// A raw transaction row as text: a kind, a client id, a transaction
/// id, and an optional amount, all still unparsed.
#[derive(PartialEq, Eq, Debug)]
pub struct TransactionText {
    pub kind: String,
    pub client_id: String,
    pub transaction_id: String,
    pub amount: Option<String>,
}

/// Identifies a transaction: the addressed client and the globally
/// unique transaction id.
#[derive(PartialEq, Eq, Structural, Clone, Copy, Debug)]
pub struct Id {
    pub client_id: u16,
    pub transaction_id: u32,
}

/// A typed transaction event. Only deposits and withdrawals carry an
/// amount of their own; the dispute-lifecycle events refer to the
/// amount of the transaction they name.
#[derive(PartialEq, Eq, Structural, Clone, Copy, Debug)]
pub enum TransactionRecord {
    Deposit { id: Id, amount: Money },
    Withdrawl { id: Id, amount: Money },
    Dispute { id: Id },
    Resolve { id: Id },
    Chargeback { id: Id },
}

/// Why a textual row could not become a `TransactionRecord`.
#[derive(PartialEq, Eq, Structural, Clone, Copy, Debug)]
pub enum TransactionParseError {
    /// The kind is none of the five known transaction kinds.
    UnknownKind,
    /// The client id is not a numeral within sixteen bits.
    InvalidClientId,
    /// The transaction id is not a numeral within thirty-two bits.
    InvalidTransactionId,
    /// A deposit or withdrawal carries unusable monetary text.
    InvalidAmount(MoneyParseError),
}

impl TransactionRecord {
    /// The identity this event carries, whatever its kind.
    pub open spec fn spec_id(&self) -> Id {
        match *self {
            TransactionRecord::Deposit { id, .. } => id,
            TransactionRecord::Withdrawl { id, .. } => id,
            TransactionRecord::Dispute { id } => id,
            TransactionRecord::Resolve { id } => id,
            TransactionRecord::Chargeback { id } => id,
        }
    }

    /// The intrinsic amount: what a deposit or withdrawal carries,
    /// and zero for the dispute-lifecycle kinds.
    pub open spec fn spec_amount(&self) -> nat {
        match *self {
            TransactionRecord::Deposit { amount, .. } => amount@,
            TransactionRecord::Withdrawl { amount, .. } => amount@,
            _ => 0,
        }
    }

    /// The identity this event carries.
    pub fn id(&self) -> (r: Id)
        ensures
            r == self.spec_id(),
    {
        match *self {
            TransactionRecord::Deposit { id, .. } => id,
            TransactionRecord::Withdrawl { id, .. } => id,
            TransactionRecord::Dispute { id } => id,
            TransactionRecord::Resolve { id } => id,
            TransactionRecord::Chargeback { id } => id,
        }
    }

    /// The intrinsic amount; zero for dispute, resolve and chargeback.
    pub fn amount(&self) -> (r: Money)
        ensures
            r@ == self.spec_amount(),
    {
        match *self {
            TransactionRecord::Deposit { amount, .. } => amount,
            TransactionRecord::Withdrawl { amount, .. } => amount,
            _ => Money::zero(),
        }
    }
}

/// Whether `a` equals `b` up to ASCII case, where `b` is expected to
/// be lowercase.
pub open spec fn char_ieq(a: char, b: char) -> bool {
    a == b || ('A' as u32 <= a as u32 && a as u32 <= 'Z' as u32 && a as u32 + 32 == b as u32)
}

/// Whether `s` matches the lowercase word `t` up to ASCII case.
pub open spec fn matches_ci(s: Seq<char>, t: Seq<char>) -> bool {
    s.len() == t.len() && forall|i: int| 0 <= i < s.len() ==> char_ieq(s[i], t[i])
}

/// Which of the five transaction kinds the text names, in the order
/// they are tried; five means none of them.
pub open spec fn kind_code(s: Seq<char>) -> int {
    if matches_ci(s, "deposit"@) {
        0
    } else if matches_ci(s, "withdrawal"@) {
        1
    } else if matches_ci(s, "dispute"@) {
        2
    } else if matches_ci(s, "resolve"@) {
        3
    } else if matches_ci(s, "chargeback"@) {
        4
    } else {
        5
    }
}

/// Compares `s` against the lowercase word `t`, ignoring ASCII case.
fn kind_matches(s: &str, t: &str) -> (b: bool)
    ensures
        b == matches_ci(s@, t@),
{
    let n = s.unicode_len();
    let m = t.unicode_len();
    if n != m {
        return false;
    }
    let mut i: usize = 0;
    while i < n
        invariant
            0 <= i <= n,
            n == s@.len(),
            n == t@.len(),
            forall|j: int| 0 <= j < i ==> char_ieq(s@[j], t@[j]),
        decreases n - i,
    {
        let a = s.get_char(i);
        let b = t.get_char(i);
        let au = a as u32;
        let matched = a == b || (65 <= au && au <= 90 && au + 32 == b as u32);
        if !matched {
            return false;
        }
        i = i + 1;
    }
    true
}

/// What the amount field of a row stands for: a missing amount counts
/// as zero, a present one is parsed as monetary text.
pub open spec fn amount_result(t: &TransactionText) -> Result<nat, MoneyParseError> {
    match t.amount {
        Some(a) => parse_result(a@),
        None => Ok(0),
    }
}

impl TransactionText {
    /// Assembles a raw row from its four fields.
    pub fn new(kind: String, client_id: String, transaction_id: String, amount: Option<String>) -> (r:
        TransactionText)
        ensures
            r.kind == kind,
            r.client_id == client_id,
            r.transaction_id == transaction_id,
            r.amount == amount,
    {
        TransactionText { kind, client_id, transaction_id, amount }
    }

    /// Turns the raw row into a typed record: the ids must be numerals
    /// in range, the kind one of the five known words up to ASCII
    /// case, and for deposits and withdrawals the amount must be
    /// valid monetary text (a missing amount counts as zero).
    pub fn to_record(&self) -> (r: Result<TransactionRecord, TransactionParseError>)
        ensures
            ({
                let c = uint_parse(self.client_id@, u16::MAX as nat);
                let x = uint_parse(self.transaction_id@, u32::MAX as nat);
                let k = kind_code(self.kind@);
                if c is None {
                    r == Err::<TransactionRecord, _>(TransactionParseError::InvalidClientId)
                } else if x is None {
                    r == Err::<TransactionRecord, _>(TransactionParseError::InvalidTransactionId)
                } else {
                    let id = Id {
                        client_id: c->Some_0 as u16,
                        transaction_id: x->Some_0 as u32,
                    };
                    if k == 0 {
                        match amount_result(self) {
                            Err(e) => r == Err::<TransactionRecord, _>(
                                TransactionParseError::InvalidAmount(e),
                            ),
                            Ok(v) => r matches Ok(
                                TransactionRecord::Deposit { id: rid, amount },
                            ) && rid == id && amount@ == v,
                        }
                    } else if k == 1 {
                        match amount_result(self) {
                            Err(e) => r == Err::<TransactionRecord, _>(
                                TransactionParseError::InvalidAmount(e),
                            ),
                            Ok(v) => r matches Ok(
                                TransactionRecord::Withdrawl { id: rid, amount },
                            ) && rid == id && amount@ == v,
                        }
                    } else if k == 2 {
                        r == Ok::<_, TransactionParseError>(TransactionRecord::Dispute { id })
                    } else if k == 3 {
                        r == Ok::<_, TransactionParseError>(TransactionRecord::Resolve { id })
                    } else if k == 4 {
                        r == Ok::<_, TransactionParseError>(TransactionRecord::Chargeback { id })
                    } else {
                        r == Err::<TransactionRecord, _>(TransactionParseError::UnknownKind)
                    }
                }
            }),
    {
        let cs = self.client_id.as_str();
        let cn = cs.unicode_len();
        proof {
            assert(cs@.subrange(0, cn as int) =~= self.client_id@);
        }
        let c = match parse_uint(cs, 0, cn, 65535) {
            Some(c) => c,
            None => {
                return Err(TransactionParseError::InvalidClientId);
            },
        };
        let xs = self.transaction_id.as_str();
        let xn = xs.unicode_len();
        proof {
            assert(xs@.subrange(0, xn as int) =~= self.transaction_id@);
        }
        let x = match parse_uint(xs, 0, xn, 4294967295) {
            Some(x) => x,
            None => {
                return Err(TransactionParseError::InvalidTransactionId);
            },
        };
        let id = Id { client_id: c as u16, transaction_id: x as u32 };
        let ks = self.kind.as_str();
        if kind_matches(ks, "deposit") {
            match self.parse_amount() {
                Err(e) => Err(TransactionParseError::InvalidAmount(e)),
                Ok(amount) => Ok(TransactionRecord::Deposit { id, amount }),
            }
        } else if kind_matches(ks, "withdrawal") {
            match self.parse_amount() {
                Err(e) => Err(TransactionParseError::InvalidAmount(e)),
                Ok(amount) => Ok(TransactionRecord::Withdrawl { id, amount }),
            }
        } else if kind_matches(ks, "dispute") {
            Ok(TransactionRecord::Dispute { id })
        } else if kind_matches(ks, "resolve") {
            Ok(TransactionRecord::Resolve { id })
        } else if kind_matches(ks, "chargeback") {
            Ok(TransactionRecord::Chargeback { id })
        } else {
            Err(TransactionParseError::UnknownKind)
        }
    }

    /// Parses the amount field; a missing amount is zero.
    fn parse_amount(&self) -> (r: Result<Money, MoneyParseError>)
        ensures
            match amount_result(self) {
                Ok(v) => r matches Ok(m) && m@ == v,
                Err(e) => r matches Err(pe) && pe == e,
            },
    {
        match &self.amount {
            Some(a) => Money::parse(a.as_str()),
            None => Ok(Money::zero()),
        }
    }
}

} // verus!
