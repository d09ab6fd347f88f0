use ledger::Money;

fn from_parts(whole: u32, decimal: u16) -> Money {
    assert!(decimal < 10000);

    Money::from_parts(whole as u64, decimal as u64)
}

#[test]
fn money_parses_whole_part_correctly() {
    let actual: Money = Money::parse("3.14").unwrap();

    assert_eq!(actual, from_parts(3, 1400));
}

#[test]
fn money_adds_correctly() {
    let a: Money = Money::parse("3.14").unwrap();
    let b: Money = Money::parse("1.23").unwrap();

    assert_eq!(a.add(b), from_parts(4, 3700));
}

#[test]
fn money_subs_correctly() {
    let a: Money = Money::parse("3.14").unwrap();
    let b: Money = Money::parse("1.23").unwrap();

    assert_eq!(a.sub(b), from_parts(1, 9100));
}
