use ledger_view::accounts::{Account, Balance, TreeNode};
use ledger_view::decimal::Decimal;
use ledger_view::ledger::LedgerError;
use ledger_view::sexpr::parse_sexpr;
use ledger_view::state::{LoadError, State};
use ledger_view::transactions::{CurrencyAmount, Transaction};

fn amount(num: i128, scale: i16, commodity: &str) -> CurrencyAmount {
    CurrencyAmount { value: Decimal::new(num, scale), commodity: commodity.to_string() }
}

fn tree_with(paths: &[&str]) -> TreeNode {
    let mut tree = TreeNode::new();
    for p in paths {
        tree.add_account(&Account::parse(p));
    }
    tree
}

#[test]
fn rollup_sums_every_ancestor() {
    let mut tree = tree_with(&["assets:bank:checking", "assets:bank:savings", "assets:cash"]);
    tree.add_amount_to_account(&Account::parse("assets:bank:checking"), &amount(10000, 2, "USD")).unwrap();
    tree.add_amount_to_account(&Account::parse("assets:bank:savings"), &amount(20000, 2, "USD")).unwrap();
    tree.add_amount_to_account(&Account::parse("assets:cash"), &amount(5000, 2, "USD")).unwrap();
    let assets = &tree.children[0];
    assert_eq!(assets.balance.total("USD"), Some(Decimal::new(35000, 2)));
    assert_eq!(assets.children[0].balance.total("USD"), Some(Decimal::new(30000, 2)));
    assert_eq!(assets.children[0].children[0].balance.total("USD"), Some(Decimal::new(10000, 2)));
    assert_eq!(assets.children[0].children[1].balance.total("USD"), Some(Decimal::new(20000, 2)));
    assert_eq!(assets.children[1].balance.total("USD"), Some(Decimal::new(5000, 2)));
    assert_eq!(tree.balance.total("USD"), None);
}

#[test]
fn commodities_stay_separate_at_every_ancestor() {
    let mut tree = tree_with(&["assets:bank", "assets:cash"]);
    tree.add_amount_to_account(&Account::parse("assets:bank"), &amount(100, 0, "USD")).unwrap();
    tree.add_amount_to_account(&Account::parse("assets:cash"), &amount(50, 0, "EUR")).unwrap();
    tree.add_amount_to_account(&Account::parse("assets:cash"), &amount(-5, 1, "EUR")).unwrap();
    let assets = &tree.children[0];
    assert_eq!(assets.balance.total("USD"), Some(Decimal::new(100, 0)));
    assert_eq!(assets.balance.total("EUR"), Some(Decimal::new(495, 1)));
    assert_eq!(assets.balance.to_text(), "100 USD, 49.5 EUR");
    assert_eq!(assets.children[0].balance.total("EUR"), None);
    assert_eq!(assets.children[1].balance.total("USD"), None);
}

#[test]
fn adding_a_path_twice_adds_no_node() {
    let mut tree = tree_with(&["a:b"]);
    tree.add_account(&Account::parse("a:b"));
    tree.add_account(&Account::parse("a"));
    assert_eq!(tree.children.len(), 1);
    assert_eq!(tree.children[0].children.len(), 1);
    assert_eq!(tree.children[0].children[0].children.len(), 0);
}

#[test]
fn amount_for_missing_account_changes_nothing() {
    let mut tree = tree_with(&["a:b"]);
    tree.add_amount_to_account(&Account::parse("a:c"), &amount(1, 0, "X")).unwrap();
    assert_eq!(tree.children[0].balance.total("X"), None);
    tree.add_amount_to_account(&Account::parse("a"), &amount(1, 0, "X")).unwrap();
    assert_eq!(tree.children[0].balance.total("X"), Some(Decimal::new(1, 0)));
    assert_eq!(tree.children[0].children[0].balance.total("X"), None);
}

#[test]
fn clear_empties_the_tree() {
    let mut tree = tree_with(&["a:b", "c"]);
    tree.clear();
    assert_eq!(tree.children.len(), 0);
    assert_eq!(tree.account, Account::empty());
}

#[test]
fn overflowing_total_is_reported() {
    let mut tree = tree_with(&["a"]);
    let huge = CurrencyAmount {
        value: Decimal { negative: false, digits: u128::MAX, scale: 0 },
        commodity: "X".into(),
    };
    tree.add_amount_to_account(&Account::parse("a"), &huge).unwrap();
    assert!(tree.add_amount_to_account(&Account::parse("a"), &huge).is_err());
    assert_eq!(tree.children[0].balance.total("X"), Some(huge.value));
}

#[test]
fn balance_starts_empty() {
    let mut b = Balance::new();
    assert_eq!(b.to_text(), "");
    assert!(b.add_amount(&amount(12, 1, "X")));
    assert!(b.add_amount(&amount(3, 0, "X")));
    assert_eq!(b.to_text(), "4.2 X");
}

#[test]
fn state_applies_each_transaction() {
    let text = "(\"f\" 1 \"2025-01-02\" nil \"d\" (1 \"assets:cash\" \"5 EUR\" p) (2 \"assets:bank\" \"-2.5 EUR\" p))";
    let items = parse_sexpr(text).unwrap();
    let t = Transaction::from_sexpr(&items).unwrap();
    let mut state = State::new();
    assert!(state.apply(Some(Ok(t.clone()))));
    assert!(state.apply(Some(Ok(t))));
    assert_eq!(state.transactions.len(), 2);
    assert_eq!(state.accounts.children[0].balance.total("EUR"), Some(Decimal::new(50, 1)));
    assert!(!state.apply(Some(Err(LedgerError::Stderr("boom".into())))));
    assert_eq!(state.error, Some(LoadError::Session(LedgerError::Stderr("boom".into()))));
    assert!(!state.apply(None));
    state.reset();
    assert_eq!(state.transactions.len(), 0);
    assert_eq!(state.accounts.children.len(), 0);
    assert_eq!(state.error, None);
}

#[test]
fn overflow_leaves_the_whole_path_unchanged() {
    let mut tree = tree_with(&["a:b:c"]);
    let huge = CurrencyAmount {
        value: Decimal { negative: false, digits: u128::MAX, scale: 0 },
        commodity: "X".into(),
    };
    tree.add_amount_to_account(&Account::parse("a:b"), &huge).unwrap();
    assert!(tree.add_amount_to_account(&Account::parse("a:b:c"), &huge).is_err());
    let a = &tree.children[0];
    assert_eq!(a.balance.total("X"), Some(huge.value));
    assert_eq!(a.children[0].balance.total("X"), Some(huge.value));
    assert_eq!(a.children[0].children[0].balance.total("X"), None);
}
