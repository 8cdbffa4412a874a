use ledger_view::sexpr::{parse_sexpr, Error, IntErrorKind, Parser, Value};

fn feed(chunks: &[&str]) -> Result<Vec<Value>, Error> {
    let mut parser = Parser::new();
    let mut out = Vec::new();
    for chunk in chunks {
        parser.take(chunk)?;
        out.extend(parser.drain_output());
    }
    out.extend(parser.finish()?);
    Ok(out)
}

const TEXT: &str = "(foo (bar -42) \"b\\\"az\" (\"x\" (y)) 7)";

#[test]
fn chunked_input_gives_the_same_values() {
    let whole = parse_sexpr(TEXT).expect("whole text parses");
    assert_eq!(whole.len(), 5);
    for split in 0..TEXT.len() {
        let (a, b) = TEXT.split_at(split);
        assert_eq!(feed(&[a, b]), Ok(whole.clone()), "split at {}", split);
    }
    let singles: Vec<String> = TEXT.chars().map(|c| c.to_string()).collect();
    let refs: Vec<&str> = singles.iter().map(|s| s.as_str()).collect();
    assert_eq!(feed(&refs), Ok(whole));
}

#[test]
fn children_are_emitted_as_soon_as_they_complete() {
    let mut parser = Parser::new();
    parser.take("(first (sec").unwrap();
    assert_eq!(parser.drain_output(), vec![Value::Atom("first".into())]);
    parser.take("ond) ").unwrap();
    assert_eq!(parser.drain_output(), vec![Value::List(vec![Value::Atom("second".into())])]);
    assert_eq!(parser.drain_output(), vec![]);
    parser.take(")").unwrap();
    assert_eq!(parser.finish(), Ok(vec![]));
}

#[test]
fn lone_close_paren_is_unmatched() {
    assert_eq!(parse_sexpr(")"), Err(Error::UnmatchedCloseParen));
}

#[test]
fn open_string_at_finish_is_unterminated() {
    let mut parser = Parser::new();
    parser.take("(\"abc").unwrap();
    assert_eq!(parser.finish(), Err(Error::UnterminatedString));
}

#[test]
fn two_top_level_forms_are_refused() {
    assert_eq!(parse_sexpr("(a)(b)"), Err(Error::MultipleTopLevelForms));
}

#[test]
fn digit_led_atom_must_be_an_integer() {
    assert_eq!(parse_sexpr("(1x)"), Err(Error::InvalidInteger(IntErrorKind::InvalidDigit)));
    assert_eq!(parse_sexpr("(-)"), Err(Error::InvalidInteger(IntErrorKind::InvalidDigit)));
    assert_eq!(
        parse_sexpr("(9223372036854775808)"),
        Err(Error::InvalidInteger(IntErrorKind::PosOverflow))
    );
    assert_eq!(
        parse_sexpr("(-9223372036854775809)"),
        Err(Error::InvalidInteger(IntErrorKind::NegOverflow))
    );
    assert_eq!(parse_sexpr("(-9223372036854775808)"), Ok(vec![Value::I64(i64::MIN)]));
}

#[test]
fn unclosed_lists_are_counted() {
    assert_eq!(parse_sexpr("(a (b (c"), Err(Error::UnclosedParens(3)));
    assert_eq!(Error::UnclosedParens(3).message(), "unclosed parentheses: 3 unclosed");
    assert_eq!(Error::UnclosedParens(12).message(), "unclosed parentheses: 12 unclosed");
}

#[test]
fn escapes_in_strings() {
    assert_eq!(
        parse_sexpr("(\"a\\nb\\tc\\\\d\\qe\")"),
        Ok(vec![Value::String("a\nb\tc\\dqe".into())])
    );
}

#[test]
fn empty_input_gives_nothing() {
    assert_eq!(parse_sexpr(""), Ok(vec![]));
    assert_eq!(parse_sexpr("()"), Ok(vec![]));
    assert_eq!(parse_sexpr("  \n"), Ok(vec![]));
}

#[test]
fn deep_copy_is_equal() {
    let v = parse_sexpr("((a (1 \"s\")) b)").unwrap();
    assert_eq!(v[0].deep_copy(), v[0]);
    assert_eq!(v[0].clone(), v[0]);
}
