use fincapx::{CurrencyCode, Money, MoneyError};

fn cop() -> CurrencyCode {
    CurrencyCode::new("COP").unwrap()
}

fn usd() -> CurrencyCode {
    CurrencyCode::new("USD").unwrap()
}

#[test]
fn accepts_valid_code() {
    assert_eq!(CurrencyCode::new("COP").unwrap().as_str(), "COP");
}

#[test]
fn normalizes_to_uppercase() {
    assert_eq!(CurrencyCode::new("usd").unwrap().as_str(), "USD");
    assert_eq!(CurrencyCode::new("eUr").unwrap().as_str(), "EUR");
}

#[test]
fn rejects_wrong_length() {
    assert!(CurrencyCode::new("CO").is_err());
    assert!(CurrencyCode::new("COPP").is_err());
    assert!(CurrencyCode::new("").is_err());
}

#[test]
fn rejects_non_alphabetic() {
    assert!(CurrencyCode::new("C0P").is_err());
    assert!(CurrencyCode::new("US ").is_err());
    assert!(CurrencyCode::new("CÖP").is_err());
}

#[test]
fn equal_codes_compare_equal() {
    assert_eq!(
        CurrencyCode::new("COP").unwrap(),
        CurrencyCode::new("cop").unwrap()
    );
}

#[test]
fn adds_same_currency() {
    let a = Money::new(1500, cop());
    let b = Money::new(2500, cop());
    assert_eq!(a.try_add(b).unwrap().amount(), 4000);
}

#[test]
fn rejects_different_currencies() {
    let a = Money::new(1500, cop());
    let b = Money::new(1500, usd());
    assert!(a.try_add(b).is_err());
}

#[test]
fn zero_is_neutral() {
    let a = Money::new(1500, cop());
    let z = Money::zero(cop());
    assert_eq!(a.try_add(z).unwrap(), a);
}

#[test]
fn detects_overflow_on_add() {
    let a = Money::new(i64::MAX, cop());
    let b = Money::new(1, cop());
    assert_eq!(a.try_add(b), Err(MoneyError::Overflow));
}

#[test]
fn detects_underflow_on_add() {
    let a = Money::new(i64::MIN, cop());
    let b = Money::new(-1, cop());
    assert_eq!(a.try_add(b), Err(MoneyError::Overflow));
}

#[test]
fn subtracts_same_currency() {
    let a = Money::new(2500, cop());
    let b = Money::new(1500, cop());
    assert_eq!(a.try_sub(b).unwrap().amount(), 1000);
}

#[test]
fn subtraction_rejects_different_currencies() {
    let a = Money::new(1500, cop());
    let b = Money::new(1500, usd());
    assert!(a.try_sub(b).is_err());
}

#[test]
fn negates_amount() {
    let a = Money::new(1500, cop());
    assert_eq!(a.try_neg().unwrap().amount(), -1500);
}

#[test]
fn detects_overflow_on_neg() {
    let a = Money::new(i64::MIN, cop());
    assert_eq!(a.try_neg(), Err(MoneyError::Overflow));
}

#[test]
fn error_reads_as_a_sentence() {
    let a = Money::new(1, cop());
    let b = Money::new(1, usd());
    let err = a.try_add(b).unwrap_err();
    assert_eq!(err.to_string(), "monedas distintas: COP y USD");
}

#[test]
fn invalid_code_error_keeps_the_text() {
    assert_eq!(
        CurrencyCode::new("C0P"),
        Err(MoneyError::InvalidCurrencyCode("C0P".to_string()))
    );
    assert_eq!(
        CurrencyCode::new("CÖP"),
        Err(MoneyError::InvalidCurrencyCode("CÖP".to_string()))
    );
}

#[test]
fn money_error_messages() {
    assert_eq!(
        MoneyError::InvalidCurrencyCode("C0P".to_string()).to_string(),
        "código de moneda inválido: \"C0P\""
    );
    assert_eq!(
        MoneyError::InvalidCurrencyCode("a\"b\n".to_string()).to_string(),
        "código de moneda inválido: \"a\\\"b\\n\""
    );
    assert_eq!(MoneyError::Overflow.to_string(), "importe fuera de rango");
}

#[test]
fn mismatch_error_names_both_currencies() {
    let a = Money::new(1, cop());
    let b = Money::new(1, usd());
    assert_eq!(
        a.try_sub(b),
        Err(MoneyError::CurrencyMismatch { left: cop(), right: usd() })
    );
    assert_eq!(
        b.try_add(a),
        Err(MoneyError::CurrencyMismatch { left: usd(), right: cop() })
    );
}

#[test]
fn detects_overflow_on_sub() {
    let a = Money::new(i64::MIN, cop());
    let b = Money::new(1, cop());
    assert_eq!(a.try_sub(b), Err(MoneyError::Overflow));
    let c = Money::new(i64::MAX, cop());
    let d = Money::new(-1, cop());
    assert_eq!(c.try_sub(d), Err(MoneyError::Overflow));
}

#[test]
fn edges_of_the_range_still_work() {
    let a = Money::new(i64::MAX - 1, cop());
    let b = Money::new(1, cop());
    assert_eq!(a.try_add(b).unwrap().amount(), i64::MAX);
    assert_eq!(Money::new(i64::MAX, cop()).try_neg().unwrap().amount(), -i64::MAX);
}

#[test]
fn sub_undoes_add_and_neg_twice_is_identity() {
    let a = Money::new(1500, cop());
    let b = Money::new(-250, cop());
    assert_eq!(a.try_add(b).unwrap().try_sub(b).unwrap(), a);
    assert_eq!(a.try_add(b).unwrap(), b.try_add(a).unwrap());
    assert_eq!(a.try_neg().unwrap().try_neg().unwrap(), a);
    assert_eq!(a.try_sub(b).unwrap(), a.try_add(b.try_neg().unwrap()).unwrap());
}

#[test]
fn getters_and_zero() {
    let a = Money::new(-42, usd());
    assert_eq!(a.amount(), -42);
    assert_eq!(a.currency(), usd());
    assert!(!a.is_zero());
    assert!(Money::zero(usd()).is_zero());
    assert_eq!(Money::zero(usd()).currency().as_str(), "USD");
}

#[test]
fn codes_differ_when_letters_differ() {
    assert_ne!(CurrencyCode::new("COP").unwrap(), CurrencyCode::new("CUP").unwrap());
    assert_eq!(CurrencyCode::new("zZz").unwrap().as_str(), "ZZZ");
    assert_eq!(CurrencyCode::new("aZm").unwrap().as_str(), "AZM");
}
