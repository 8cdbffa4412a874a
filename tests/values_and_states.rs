use ledger_view::checkbox::CheckboxState;
use ledger_view::sexpr::{parse_sexpr, Value};

#[test]
fn value_text_round_trips_simple_values() {
    let values = parse_sexpr("(foo -12 \"a b\" (x (y 3)) ())").unwrap();
    let texts: Vec<String> = values.iter().map(Value::to_text).collect();
    assert_eq!(texts, vec!["foo", "-12", "\"a b\"", "(x (y 3))", "()"]);
}

#[test]
fn checkbox_states() {
    assert!(CheckboxState::Checked.is_checked());
    assert!(!CheckboxState::Checked.is_unchecked());
    assert!(CheckboxState::Indeterminate.is_indeterminate());
    assert!(CheckboxState::Unchecked.is_unchecked());
    assert_eq!(CheckboxState::default(), CheckboxState::Unchecked);
    assert_eq!(CheckboxState::from(true), CheckboxState::Checked);
    assert_eq!(CheckboxState::from(false), CheckboxState::Unchecked);
}
