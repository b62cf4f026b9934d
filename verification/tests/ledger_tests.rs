use fincapx::{is_balanced, CurrencyCode, Money, MoneyError, Posting};
use uuid::Uuid;

fn cop() -> CurrencyCode {
    CurrencyCode::new("COP").unwrap()
}

fn usd() -> CurrencyCode {
    CurrencyCode::new("USD").unwrap()
}

// A lunch: out of cash, into expenses.
#[test]
fn simple_transaction_balances() {
    let postings = [Money::new(-50_000, cop()), Money::new(50_000, cop())];
    assert!(is_balanced(&postings).unwrap());
}

#[test]
fn detects_amounts_that_do_not_add_up() {
    let postings = [Money::new(-50_000, cop()), Money::new(40_000, cop())];
    assert!(!is_balanced(&postings).unwrap());
}

// Four postings, two currencies, each balancing on its own.
#[test]
fn currency_exchange_balances_per_currency() {
    let postings = [
        Money::new(-10_000, usd()),
        Money::new(10_000, usd()),
        Money::new(-400_000, cop()),
        Money::new(400_000, cop()),
    ];
    assert!(is_balanced(&postings).unwrap());
}

// The grand total is zero, but the currencies differ.
#[test]
fn does_not_mix_currencies() {
    let postings = [Money::new(-10_000, usd()), Money::new(10_000, cop())];
    assert!(!is_balanced(&postings).unwrap());
}

#[test]
fn empty_list_balances() {
    assert!(is_balanced(&[]).unwrap());
}

#[test]
fn interleaved_currencies_balance() {
    let postings = [
        Money::new(-10_000, usd()),
        Money::new(-400_000, cop()),
        Money::new(10_000, usd()),
        Money::new(400_000, cop()),
    ];
    assert!(is_balanced(&postings).unwrap());
}

#[test]
fn one_unbalanced_currency_is_enough() {
    let postings = [
        Money::new(-10_000, usd()),
        Money::new(10_000, usd()),
        Money::new(-400_000, cop()),
        Money::new(399_999, cop()),
    ];
    assert!(!is_balanced(&postings).unwrap());
}

#[test]
fn running_total_overflow_is_an_error() {
    let postings = [
        Money::new(i64::MAX, cop()),
        Money::new(1, cop()),
        Money::new(i64::MIN, cop()),
    ];
    assert_eq!(is_balanced(&postings), Err(MoneyError::Overflow));
}

#[test]
fn large_amounts_in_different_currencies_do_not_overflow() {
    let postings = [
        Money::new(i64::MAX, cop()),
        Money::new(i64::MAX, usd()),
        Money::new(-i64::MAX, cop()),
        Money::new(-i64::MAX, usd()),
    ];
    assert!(is_balanced(&postings).unwrap());
}

#[test]
fn codes_written_in_any_case_share_a_bucket() {
    let postings = [
        Money::new(-700, CurrencyCode::new("eur").unwrap()),
        Money::new(700, CurrencyCode::new("EUR").unwrap()),
    ];
    assert!(is_balanced(&postings).unwrap());
}

#[test]
fn posting_keeps_what_it_was_given() {
    let account = Uuid::now_v7();
    let amount = Money::new(-50_000, cop());
    let p = Posting::new(account, amount, Some("Almuerzo".to_string()));
    assert_eq!(p.account_id(), account);
    assert_eq!(p.amount(), amount);
    assert_eq!(p.memo(), Some("Almuerzo"));
    assert_eq!(p.id().get_version_num(), 7);
    assert_ne!(p.id(), account);

    let q = Posting::new(account, amount, None);
    assert_eq!(q.memo(), None);
    assert_ne!(p.id(), q.id());
    assert_eq!(p.clone(), p);
}

#[test]
fn posting_with_id_keeps_every_field() {
    let id = Uuid::now_v7();
    let account = Uuid::now_v7();
    let amount = Money::new(1234, usd());
    let p = Posting::with_id(id, account, amount, Some("Cambio".to_string()));
    assert_eq!(p.id(), id);
    assert_eq!(p.account_id(), account);
    assert_eq!(p.amount(), amount);
    assert_eq!(p.memo(), Some("Cambio"));
}

#[test]
fn order_of_amounts_does_not_change_the_answer() {
    let a = [
        Money::new(-10_000, usd()),
        Money::new(-400_000, cop()),
        Money::new(10_000, usd()),
        Money::new(400_000, cop()),
    ];
    let b = [a[3], a[1], a[2], a[0]];
    assert_eq!(is_balanced(&a), is_balanced(&b));
    let c = [Money::new(-5, cop()), Money::new(4, cop()), Money::new(1, usd())];
    let d = [c[2], c[0], c[1]];
    assert_eq!(is_balanced(&c), Ok(false));
    assert_eq!(is_balanced(&d), Ok(false));
}
