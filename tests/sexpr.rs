use ledger_view::sexpr::{Error, Parser, Value};

#[test]
fn test_parser_atom() {
    let mut parser = Parser::new();
    parser.take("(foo)").expect("should succeed");
    let output = parser.finish();
    assert_eq!(output, Ok(vec![Value::Atom("foo".into())]));
}

#[test]
fn test_parser_string() {
    let mut parser = Parser::new();
    parser.take("(\"bar baz\")").expect("should succeed");
    let output = parser.finish();
    assert_eq!(output, Ok(vec![Value::String("bar baz".into())]));
}

#[test]
fn test_parser_escaped_string() {
    let mut parser = Parser::new();
    parser.take("(\"escaped \\\"\")").expect("should succeed");
    let output = parser.finish();
    assert_eq!(output, Ok(vec![Value::String("escaped \"".into())]));
}

#[test]
fn test_parser_i64() {
    let mut parser = Parser::new();
    parser.take("(123 )").expect("should succeed");
    let output = parser.finish();
    assert_eq!(output, Ok(vec![Value::I64(123)]));
}

#[test]
fn test_parser_negative_i64() {
    let mut parser = Parser::new();
    parser.take("(-123 )").expect("should succeed");
    let output = parser.finish();
    assert_eq!(output, Ok(vec![Value::I64(-123)]));
}

#[test]
fn test_parser_nested() {
    let mut parser = Parser::new();
    parser.take("(foo (bar 42) \"baz\")").expect("should succeed");
    let output = parser.finish();
    assert_eq!(
        output,
        Ok(vec![
            Value::Atom("foo".into()),
            Value::List(vec![Value::Atom("bar".into()), Value::I64(42)]),
            Value::String("baz".into()),
        ])
    );
}

#[test]
fn test_parser_list() {
    let mut parser = Parser::new();
    let result = parser.take("(a)(1)");
    assert_eq!(result, Err(Error::MultipleTopLevelForms));
}

#[test]
fn test_parser_invalid_integer() {
    let mut parser = Parser::new();
    let result = parser.take("(123abc)");
    assert!(matches!(result, Err(Error::InvalidInteger(_))));
}

#[test]
fn test_parser_unmatched_close_paren() {
    let mut parser = Parser::new();
    let result = parser.take(")");
    assert_eq!(result, Err(Error::UnmatchedCloseParen));
}

#[test]
fn test_parser_unterminated_string() {
    let mut parser = Parser::new();
    parser.take("(\"unterminated)").expect("should succeed");
    let output = parser.finish();
    assert_eq!(output, Err(Error::UnterminatedString));
}
