use ledger_view::accounts::Account;
use ledger_view::decimal::{parse_decimal, Date, Decimal, DecimalError};
use ledger_view::sexpr::{parse_sexpr, Value};
use ledger_view::transactions::{
    Amount, CurrencyAmount, ParseAmounError, ParsePostingError, ParseTransactionError, Posting,
    Transaction,
};

#[test]
fn posting_decodes_account_amount_and_note() {
    let items = parse_sexpr("(8562 \"expenses:Pending\" \"148.95 SEK\" pending \" shared:: 35%\")")
        .unwrap();
    let posting = Posting::from_sexpr(&items).unwrap();
    assert_eq!(posting.account.segments, vec!["expenses", "Pending"]);
    assert_eq!(posting.amount.value.value, Decimal::new(14895, 2));
    assert_eq!(posting.amount.value.commodity, "SEK");
    assert_eq!(posting.note.as_deref(), Some(" shared:: 35%"));
}

#[test]
fn posting_without_note() {
    let items = parse_sexpr("(1 \"a:b\" \"1 X\" pending)").unwrap();
    let posting = Posting::from_sexpr(&items).unwrap();
    assert_eq!(posting.note, None);
}

#[test]
fn posting_errors() {
    let short = parse_sexpr("(1 \"a\" \"1 X\")").unwrap();
    assert_eq!(Posting::from_sexpr(&short), Err(ParsePostingError::UnexpectedLength(4, 3)));
    let bad_account = parse_sexpr("(1 acct \"1 X\" p)").unwrap();
    assert_eq!(
        Posting::from_sexpr(&bad_account),
        Err(ParsePostingError::UnexpectedType(1, Value::Atom("acct".into())))
    );
    let bad_amount = parse_sexpr("(1 \"a\" 5 p)").unwrap();
    assert_eq!(
        Posting::from_sexpr(&bad_amount),
        Err(ParsePostingError::UnexpectedType(2, Value::I64(5)))
    );
    let bad_note = parse_sexpr("(1 \"a\" \"1 X\" p note)").unwrap();
    assert_eq!(
        Posting::from_sexpr(&bad_note),
        Err(ParsePostingError::UnexpectedType(4, Value::Atom("note".into())))
    );
    let bad_text = parse_sexpr("(1 \"a\" \"\" p)").unwrap();
    assert_eq!(
        Posting::from_sexpr(&bad_text),
        Err(ParsePostingError::InvalidAmount(ParseAmounError::InvalidFormat))
    );
}

#[test]
fn transaction_errors() {
    let short = parse_sexpr("(\"f\" 1 \"2025-01-01\" nil)").unwrap();
    assert_eq!(
        Transaction::from_sexpr(&short),
        Err(ParseTransactionError::UnexpectedLength(5, 4))
    );
    let bad_file = parse_sexpr("(f 1 \"2025-01-01\" nil \"d\")").unwrap();
    assert_eq!(
        Transaction::from_sexpr(&bad_file),
        Err(ParseTransactionError::UnexpectedType(0, Value::Atom("f".into())))
    );
    let bad_line = parse_sexpr("(\"f\" \"1\" \"2025-01-01\" nil \"d\")").unwrap();
    assert_eq!(
        Transaction::from_sexpr(&bad_line),
        Err(ParseTransactionError::UnexpectedType(1, Value::String("1".into())))
    );
    let bad_posting_kind = parse_sexpr("(\"f\" 1 \"2025-01-01\" nil \"d\" x)").unwrap();
    assert_eq!(
        Transaction::from_sexpr(&bad_posting_kind),
        Err(ParseTransactionError::UnexpectedType(5, Value::Atom("x".into())))
    );
    let bad_posting = parse_sexpr("(\"f\" 1 \"2025-01-01\" nil \"d\" (1 \"a\" \"1 X\" p) (1))").unwrap();
    assert_eq!(
        Transaction::from_sexpr(&bad_posting),
        Err(ParseTransactionError::PostingError(1, ParsePostingError::UnexpectedLength(4, 1)))
    );
    let bad_date = parse_sexpr("(\"f\" 1 \"2025-13-01\" nil \"d\")").unwrap();
    assert_eq!(
        Transaction::from_sexpr(&bad_date),
        Err(ParseTransactionError::ParseDateError(Value::String("2025-13-01".into())))
    );
}

#[test]
fn transaction_with_epoch_date() {
    let items = parse_sexpr("(\"f\" 3 1765639800 nil \"d\")").unwrap();
    let t = Transaction::from_sexpr(&items).unwrap();
    assert_eq!(t.time, Date { year: 2025, month: 12, day: 13 });
    assert_eq!(t.postings.len(), 0);
}

#[test]
fn amount_grammar() {
    let a = Amount::parse("-1,020.48 GEL").unwrap();
    assert_eq!(a.value.value, Decimal::new(-102048, 2));
    assert_eq!(a.value.commodity, "GEL");

    let b = Amount::parse("-20.48 GEL {3.6041025641 SEK} [2025/12/03]").unwrap();
    assert_eq!(b.value, CurrencyAmount { value: Decimal::new(-2048, 2), commodity: "GEL".into() });
    assert_eq!(
        b.price,
        Some(CurrencyAmount { value: Decimal::new(36041025641, 10), commodity: "SEK".into() })
    );
    assert_eq!(b.date, Some(Date { year: 2025, month: 12, day: 3 }));
    assert_eq!(b.to_text(), "-20.48 GEL {3.6041025641 SEK} [2025/12/03]");

    let long = Amount::parse("1 X {1.23456789012345678901234567890123 Y}").unwrap();
    assert_eq!(
        long.price.unwrap().value.to_text(),
        "1.23456789012345678901234567890123"
    );
    let only_date = Amount::parse("5 X [2024/02/29]").unwrap();
    assert_eq!(only_date.value.commodity, "X");
    assert_eq!(only_date.date, Some(Date { year: 2024, month: 2, day: 29 }));
}

#[test]
fn amount_keeps_trailing_zeros_and_quoted_commodity() {
    let a = Amount::parse("  194.21240000   \"Some Fund\"  ").unwrap();
    assert_eq!(a.value.value, Decimal::new(19421240000, 8));
    assert_eq!(a.value.value.to_text(), "194.21240000");
    assert_eq!(a.value.commodity, "Some Fund");
}

#[test]
fn amount_errors() {
    assert_eq!(Amount::parse(""), Err(ParseAmounError::InvalidFormat));
    assert_eq!(Amount::parse("1 X {2 Y"), Err(ParseAmounError::InvalidFormat));
    assert_eq!(Amount::parse("1 X } {2 Y"), Err(ParseAmounError::InvalidFormat));
    assert_eq!(Amount::parse("1 X {} "), Err(ParseAmounError::InvalidFormat));
    assert_eq!(Amount::parse("1 X [2025/02/30]"), Err(ParseAmounError::InvalidFormat));
    assert!(matches!(Amount::parse("abc X"), Err(ParseAmounError::InvalidDecimal(_))));
    assert!(matches!(CurrencyAmount::parse("inf X"), Err(ParseAmounError::InvalidDecimal(_))));
}

#[test]
fn decimal_parsing_and_text() {
    assert_eq!(parse_decimal("-0.50"), Ok(Decimal { negative: true, digits: 50, scale: 2 }));
    assert!(matches!(parse_decimal("1.2.3"), Err(DecimalError::Syntax(_))));
    assert_eq!(parse_decimal("NaN"), Err(DecimalError::NotFinite));
    assert_eq!(Decimal::new(5, 3).to_text(), "0.005");
    assert_eq!(Decimal::new(-1234, 2).to_text(), "-12.34");
    assert_eq!(Decimal::new(7, -2).to_text(), "700");
    assert_eq!(Decimal::new(0, 0).to_text(), "0");
}

#[test]
fn decimal_sums_are_exact() {
    let a = Decimal::new(10000, 2);
    let b = Decimal::new(-125, 3);
    assert_eq!(a.checked_add(&b), Some(Decimal::new(99875, 3)));
    let big = Decimal { negative: false, digits: u128::MAX, scale: 0 };
    assert_eq!(big.checked_add(&Decimal::new(1, 0)), None);
    assert_eq!(big.checked_add(&Decimal::new(-1, 0)), Some(Decimal { negative: false, digits: u128::MAX - 1, scale: 0 }));
}

#[test]
fn date_text() {
    assert_eq!(Date { year: 2025, month: 9, day: 7 }.to_text(), "2025/09/07");
    assert_eq!(Date { year: 33, month: 1, day: 1 }.to_text(), "0033/01/01");
}

#[test]
fn account_helpers() {
    let a = Account::parse("::assets::bank:");
    assert_eq!(a.segments, vec!["assets", "bank"]);
    assert!(Account::parse("assets").is_parent_of(&a));
    assert!(!a.is_parent_of(&a));
    assert!(!Account::parse("asset").is_parent_of(&a));
    assert!(Account::empty().is_parent_of(&a));
    assert_eq!(Account::empty().depth(), 0);
    assert_eq!(Account::from_segments(vec!["x".into()]).to_text(), "x");
}

#[test]
fn exponents_are_refused_without_reaching_fastnum() {
    assert_eq!(parse_decimal("0.1E-2147483648"), Err(DecimalError::Exponent));
    assert_eq!(parse_decimal("1e5"), Err(DecimalError::Exponent));
    assert_eq!(
        Amount::parse("0.1E-2147483648 USD"),
        Err(ParseAmounError::InvalidDecimal("exponent not accepted".into()))
    );
}

#[test]
fn plain_amounts_keep_every_digit() {
    let a = CurrencyAmount::parse("-1,234,567,890,123,456,789,012,345,678.12 XAU").unwrap();
    assert_eq!(a.value, Decimal::new(-123456789012345678901234567812, 2));
    assert_eq!(a.commodity, "XAU");
    assert_eq!(a.value.to_text(), "-1234567890123456789012345678.12");
}
