use ledger_view::decimal::{Date, Decimal};
use ledger_view::sexpr::parse_sexpr;
use ledger_view::transactions::{Amount, Posting, Transaction};

#[test]
fn test_parse_posting() {
    let sexpr_str = "(8562 \"expenses:Pending\" \"148.95 SEK\" pending \" shared:: 35%\")";
    let sexpr_value = parse_sexpr(sexpr_str).expect("should sexpr");
    let posting = Posting::from_sexpr(&sexpr_value).expect("should parse posting");
    assert_eq!(posting.account.to_text(), "expenses:Pending");
    assert_eq!(posting.amount, Amount::parse("148.95 SEK").expect("should parse amount"));
    assert!(posting.note.is_some());
    assert_eq!(posting.note.unwrap(), " shared:: 35%");
}

#[test]
fn test_parse_transaction() {
    let sexpr_str = "(\"/Users/nikita.galaiko/Developer/finance/transactions/2025.ledger\" 8561 \"2025-12-13\" nil \"Kop\"
  (8562 \"expenses:Pending\" \"148.95 SEK\" pending \" shared:: 35%\"))";
    let sexpr_value = parse_sexpr(sexpr_str).expect("should sexpr");
    let transaction = Transaction::from_sexpr(&sexpr_value).expect("should parse transaction");
    assert_eq!(
        transaction.file,
        "/Users/nikita.galaiko/Developer/finance/transactions/2025.ledger"
    );
    assert_eq!(transaction.line, 8561);
    assert_eq!(transaction.description, "Kop");
    assert_eq!(transaction.time, Date { year: 2025, month: 12, day: 13 });
    assert_eq!(transaction.postings.len(), 1);
    let posting = &transaction.postings[0];
    assert_eq!(posting.account.to_text(), "expenses:Pending");
    assert_eq!(posting.amount, Amount::parse("148.95 SEK").expect("should parse amount"));
    assert!(posting.note.is_some());
    assert_eq!(posting.note.as_ref().unwrap(), " shared:: 35%");
}

#[test]
fn test_parse_currency_amount_no_commodity() {
    let amount = Amount::parse("-1,020.48").expect("should parse amount");
    assert_eq!(amount.value.value, Decimal::new(-102048, 2));
    assert_eq!(amount.value.commodity, "");
    assert!(amount.price.is_none());
    assert!(amount.date.is_none());
}

#[test]
fn test_parse_currency_amount_thousand() {
    let amount = Amount::parse("-1,020.48 GEL").expect("should parse amount");
    assert_eq!(amount.value.value, Decimal::new(-102048, 2));
    assert_eq!(amount.value.commodity, "GEL");
    assert!(amount.price.is_none());
    assert!(amount.date.is_none());
}

#[test]
fn test_parse_currency_amount_simple() {
    let amount = Amount::parse("-20.48 GEL").expect("should parse amount");
    assert_eq!(amount.value.value, Decimal::new(-2048, 2));
    assert_eq!(amount.value.commodity, "GEL");
    assert!(amount.price.is_none());
    assert!(amount.date.is_none());
}

#[test]
fn test_parse_amount_priced() {
    let amount =
        Amount::parse("-20.48 GEL {3.6041025641 SEK} [2025/12/03]").expect("should parse amount");
    assert_eq!(amount.value.value, Decimal::new(-2048, 2));
    assert_eq!(amount.value.commodity, "GEL");
    assert!(amount.price.is_some());
    let price = amount.price.as_ref().unwrap();
    assert_eq!(price.value, Decimal::new(36041025641, 10));
    assert_eq!(price.commodity, "SEK");
    assert!(amount.date.is_some());
    assert_eq!(amount.date.unwrap(), Date { year: 2025, month: 12, day: 3 });
}

#[test]
fn test_parse_amount_long_price() {
    let amount = Amount::parse(
        "194.21240000 USDT {9.525653356840242950501615756769 SEK} [2025/09/17]",
    )
    .expect("should parse amount");
    assert_eq!(amount.value.value, Decimal::new(19421240000, 8));
    assert_eq!(amount.value.commodity, "USDT");
    assert!(amount.price.is_some());
    let price = amount.price.as_ref().unwrap();
    assert_eq!(price.value, Decimal::new(9525653356840242950501615756769, 30));
    assert_eq!(price.commodity, "SEK");
    assert!(amount.date.is_some());
    assert_eq!(amount.date.unwrap(), Date { year: 2025, month: 9, day: 17 });
}
