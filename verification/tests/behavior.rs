use ledger::Money;
use ledger::MoneyParseError;
use ledger::accounts::AccountDatabase;
use ledger::transactions::Id;
use ledger::transactions::TransactionParseError;
use ledger::transactions::TransactionRecord;
use ledger::transactions::TransactionText;

fn deposit(client: u16, tx: u32, whole: u64) -> TransactionRecord {
    TransactionRecord::Deposit {
        id: Id { client_id: client, transaction_id: tx },
        amount: Money::from_parts(whole, 0),
    }
}

fn withdrawal(client: u16, tx: u32, whole: u64) -> TransactionRecord {
    TransactionRecord::Withdrawl {
        id: Id { client_id: client, transaction_id: tx },
        amount: Money::from_parts(whole, 0),
    }
}

fn dispute(client: u16, tx: u32) -> TransactionRecord {
    TransactionRecord::Dispute { id: Id { client_id: client, transaction_id: tx } }
}

fn resolve(client: u16, tx: u32) -> TransactionRecord {
    TransactionRecord::Resolve { id: Id { client_id: client, transaction_id: tx } }
}

fn chargeback(client: u16, tx: u32) -> TransactionRecord {
    TransactionRecord::Chargeback { id: Id { client_id: client, transaction_id: tx } }
}

fn row(kind: &str, client: &str, tx: &str, amount: Option<&str>) -> TransactionText {
    TransactionText::new(
        kind.to_string(),
        client.to_string(),
        tx.to_string(),
        amount.map(|a| a.to_string()),
    )
}

#[test]
fn money_parse_exact_values() {
    assert_eq!(Money::parse("42").unwrap().units(), 420000);
    assert_eq!(Money::parse("3.14").unwrap().units(), 31400);
    assert_eq!(Money::parse("  12.5  ").unwrap().units(), 125000);
    assert_eq!(Money::parse("0.0001").unwrap().units(), 1);
    assert_eq!(Money::parse("0").unwrap().units(), 0);
}

#[test]
fn money_parse_rejects_malformed_text() {
    assert_eq!(Money::parse(""), Err(MoneyParseError::Malformed));
    assert_eq!(Money::parse("   "), Err(MoneyParseError::Malformed));
    assert_eq!(Money::parse("1.2.3"), Err(MoneyParseError::Malformed));
    assert_eq!(Money::parse("12a"), Err(MoneyParseError::Malformed));
    assert_eq!(Money::parse("1."), Err(MoneyParseError::Malformed));
    assert_eq!(Money::parse(".5"), Err(MoneyParseError::Malformed));
    assert_eq!(Money::parse("-1"), Err(MoneyParseError::Malformed));
    assert_eq!(Money::parse("99999999999999999999"), Err(MoneyParseError::Malformed));
}

#[test]
fn money_parse_rejects_excess_precision() {
    assert_eq!(Money::parse("0.12345"), Err(MoneyParseError::ExceededPrecision));
    assert_eq!(Money::parse("2000000000000000"), Err(MoneyParseError::ExceededPrecision));
}

#[test]
fn money_displays_minimal_fraction() {
    assert_eq!(Money::zero().to_display_string(), "0.0");
    assert_eq!(Money::from_parts(42, 0).to_display_string(), "42.0");
    assert_eq!(Money::from_parts(1, 5000).to_display_string(), "1.5");
    assert_eq!(Money::from_parts(0, 9995).to_display_string(), "0.9995");
    assert_eq!(Money::from_parts(3, 14).to_display_string(), "3.0014");
    assert_eq!(Money::parse("3.14").unwrap().to_display_string(), "3.14");
}

#[test]
fn money_from_parts_and_units_round_trip() {
    assert_eq!(Money::from_parts(3, 1400).units(), 31400);
    assert_eq!(Money::zero().units(), 0);
}

#[test]
fn record_kinds_are_case_insensitive() {
    let r = row("DePoSiT", "1", "2", Some("5")).to_record().unwrap();
    assert!(matches!(r, TransactionRecord::Deposit { .. }));
    assert_eq!(r.id(), Id { client_id: 1, transaction_id: 2 });
    assert_eq!(r.amount().units(), 50000);
    let w = row("WITHDRAWAL", "1", "3", Some("5")).to_record().unwrap();
    assert!(matches!(w, TransactionRecord::Withdrawl { .. }));
}

#[test]
fn record_rejects_unknown_kind() {
    assert_eq!(row("transfer", "1", "2", None).to_record(), Err(TransactionParseError::UnknownKind));
}

#[test]
fn record_rejects_bad_client_id() {
    assert_eq!(
        row("deposit", "abc", "2", Some("1")).to_record(),
        Err(TransactionParseError::InvalidClientId)
    );
    assert_eq!(
        row("deposit", "70000", "2", Some("1")).to_record(),
        Err(TransactionParseError::InvalidClientId)
    );
    assert_eq!(
        row("deposit", "", "2", Some("1")).to_record(),
        Err(TransactionParseError::InvalidClientId)
    );
}

#[test]
fn record_rejects_bad_transaction_id() {
    assert_eq!(
        row("deposit", "1", "4294967296", Some("1")).to_record(),
        Err(TransactionParseError::InvalidTransactionId)
    );
    assert_eq!(
        row("deposit", "1", "x", Some("1")).to_record(),
        Err(TransactionParseError::InvalidTransactionId)
    );
}

#[test]
fn record_rejects_bad_amounts_on_deposits_only() {
    assert_eq!(
        row("deposit", "1", "2", Some("nope")).to_record(),
        Err(TransactionParseError::InvalidAmount(MoneyParseError::Malformed))
    );
    assert_eq!(
        row("withdrawal", "1", "2", Some("1.23456")).to_record(),
        Err(TransactionParseError::InvalidAmount(MoneyParseError::ExceededPrecision))
    );
    // The lifecycle kinds ignore whatever sits in the amount field.
    assert!(row("dispute", "1", "2", Some("nope")).to_record().is_ok());
}

#[test]
fn record_missing_amount_counts_as_zero() {
    let r = row("deposit", "1", "2", None).to_record().unwrap();
    assert_eq!(r.amount().units(), 0);
}

#[test]
fn lifecycle_records_have_zero_amount() {
    assert_eq!(dispute(1, 1).amount().units(), 0);
    assert_eq!(resolve(1, 1).amount().units(), 0);
    assert_eq!(chargeback(1, 1).amount().units(), 0);
}

#[test]
fn replayed_deposit_is_dropped() {
    let mut db = AccountDatabase::new();
    db.apply(&deposit(1, 1, 42));
    db.apply(&deposit(1, 1, 5));
    let accounts = db.accounts();
    assert_eq!(accounts.len(), 1);
    assert_eq!(accounts[0].available().units(), 420000);
}

#[test]
fn clients_are_independent() {
    let mut db = AccountDatabase::new();
    db.apply(&deposit(1, 1, 42));
    db.apply(&deposit(2, 2, 5));
    db.apply(&withdrawal(1, 3, 10));
    let accounts = db.accounts();
    assert_eq!(accounts.len(), 2);
    assert_eq!(accounts[0].client_id(), 1);
    assert_eq!(accounts[0].available().units(), 320000);
    assert_eq!(accounts[1].client_id(), 2);
    assert_eq!(accounts[1].available().units(), 50000);
}

#[test]
fn exact_balance_withdrawal_is_rejected() {
    let mut db = AccountDatabase::new();
    db.apply(&deposit(1, 1, 10));
    db.apply(&withdrawal(1, 2, 10));
    assert_eq!(db.accounts()[0].available().units(), 100000);
}

#[test]
fn dispute_holds_at_most_available_funds() {
    let mut db = AccountDatabase::new();
    db.apply(&deposit(1, 1, 42));
    db.apply(&withdrawal(1, 2, 30));
    db.apply(&dispute(1, 1));
    let account = &db.accounts()[0];
    assert_eq!(account.available().units(), 0);
    assert_eq!(account.held().units(), 120000);
}

#[test]
fn resolve_releases_at_most_held_funds() {
    let mut db = AccountDatabase::new();
    db.apply(&deposit(1, 1, 42));
    db.apply(&withdrawal(1, 2, 30));
    db.apply(&dispute(1, 1));
    db.apply(&resolve(1, 1));
    let account = &db.accounts()[0];
    assert_eq!(account.available().units(), 120000);
    assert_eq!(account.held().units(), 0);
}

#[test]
fn lock_survives_later_transactions() {
    let mut db = AccountDatabase::new();
    db.apply(&deposit(1, 1, 42));
    db.apply(&dispute(1, 1));
    db.apply(&chargeback(1, 1));
    assert!(db.accounts()[0].summary().locked);
    db.apply(&deposit(1, 5, 1));
    let summary = db.accounts()[0].summary();
    assert!(summary.locked);
    assert_eq!(summary.available, "43.0");
}

#[test]
fn totals_follow_accepted_deposits_and_withdrawals() {
    let mut db = AccountDatabase::new();
    db.apply(&deposit(1, 1, 40));
    db.apply(&deposit(1, 2, 10));
    db.apply(&withdrawal(1, 3, 20));
    db.apply(&withdrawal(1, 4, 100));
    db.apply(&dispute(1, 1));
    db.apply(&resolve(1, 1));
    let account = &db.accounts()[0];
    let total = account.available().units() + account.held().units();
    assert_eq!(total, 300000);
}

#[test]
fn accounts_come_out_sorted_by_client_id() {
    let mut db = AccountDatabase::new();
    db.apply(&deposit(5, 1, 1));
    db.apply(&deposit(2, 2, 1));
    db.apply(&deposit(9, 3, 1));
    let ids: Vec<u16> = db.accounts().iter().map(|a| a.client_id()).collect();
    assert_eq!(ids, vec![2, 5, 9]);
}

#[test]
fn rejected_lifecycle_records_still_create_the_account() {
    let mut db = AccountDatabase::new();
    db.apply(&dispute(7, 99));
    let accounts = db.accounts();
    assert_eq!(accounts.len(), 1);
    assert_eq!(accounts[0].client_id(), 7);
    assert_eq!(accounts[0].summary().total, "0.0");
}
