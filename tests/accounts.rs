use ledger_view::accounts::{Account, TreeNode};
use ledger_view::decimal::Decimal;
use ledger_view::transactions::CurrencyAmount;

fn usd(num: i128) -> CurrencyAmount {
    CurrencyAmount { value: Decimal::new(num, 2), commodity: "USD".to_string() }
}

#[test]
fn test_account_parse() {
    let account = Account::parse("assets:bank:checking");
    assert_eq!(account.name(), "checking");
    assert_eq!(account.segments, vec!["assets", "bank", "checking"]);
    assert_eq!(account.to_text(), "assets:bank:checking");

    let parent = account.parent().expect("should have parent");
    assert_eq!(parent.name(), "bank");
    assert_eq!(parent.segments, vec!["assets", "bank"]);

    let grandparent = parent.parent().expect("should have grandparent");
    assert_eq!(grandparent.name(), "assets");
    assert_eq!(grandparent.segments, vec!["assets"]);
    assert!(grandparent.parent().is_none());
}

#[test]
fn test_account_depth() {
    let account = Account::parse("assets:bank:checking");
    assert_eq!(account.depth(), 3);

    let account = Account::parse("assets");
    assert_eq!(account.depth(), 1);
}

#[test]
fn test_tree_single_account() {
    let mut tree = TreeNode::new();
    let account = Account::parse("assets:bank:checking");
    tree.add_account(&account);

    assert_eq!(tree.children.len(), 1);
    assert_eq!(tree.children[0].account, Account::parse("assets"));
    assert_eq!(tree.children[0].children.len(), 1);
    assert_eq!(tree.children[0].children[0].account, Account::parse("assets:bank"));
    assert_eq!(tree.children[0].children[0].children.len(), 1);
    assert_eq!(
        tree.children[0].children[0].children[0].account,
        Account::parse("assets:bank:checking")
    );
}

#[test]
fn test_tree_multiple_accounts() {
    let mut tree = TreeNode::new();
    tree.add_account(&Account::parse("assets:bank:checking"));
    tree.add_account(&Account::parse("assets:bank:savings"));
    tree.add_account(&Account::parse("assets:cash"));
    tree.add_account(&Account::parse("expenses:groceries"));

    assert_eq!(tree.children.len(), 2);

    let assets = &tree.children[0];
    assert_eq!(assets.account, Account::parse("assets"));
    assert_eq!(assets.children.len(), 2);

    let bank = &assets.children[0];
    assert_eq!(bank.account, Account::parse("assets:bank"));
    assert_eq!(bank.children.len(), 2);
}

#[test]
fn test_subtree_balance_single_account() {
    let mut tree = TreeNode::new();
    tree.add_account(&Account::parse("assets:bank:checking"));

    let amount = usd(10000);
    tree.add_amount_to_account(&Account::parse("assets:bank:checking"), &amount).unwrap();

    let assets = &tree.children[0];
    let bank = &assets.children[0];
    let checking = &bank.children[0];
    assert_eq!(checking.balance.to_text(), "100.00 USD");
    assert_eq!(bank.balance.to_text(), "100.00 USD");
    assert_eq!(assets.balance.to_text(), "100.00 USD");
}

#[test]
fn test_subtree_balance_multiple_accounts() {
    let mut tree = TreeNode::new();
    tree.add_account(&Account::parse("assets:bank:checking"));
    tree.add_account(&Account::parse("assets:bank:savings"));
    tree.add_account(&Account::parse("assets:cash"));

    tree.add_amount_to_account(&Account::parse("assets:bank:checking"), &usd(10000)).unwrap();
    tree.add_amount_to_account(&Account::parse("assets:bank:savings"), &usd(20000)).unwrap();
    tree.add_amount_to_account(&Account::parse("assets:cash"), &usd(5000)).unwrap();

    let assets = &tree.children[0];
    let bank = &assets.children[0];
    let checking = &bank.children[0];
    let savings = &bank.children[1];
    let cash = &assets.children[1];

    assert_eq!(checking.balance.to_text(), "100.00 USD");
    assert_eq!(savings.balance.to_text(), "200.00 USD");
    assert_eq!(cash.balance.to_text(), "50.00 USD");
    assert_eq!(bank.balance.to_text(), "300.00 USD");
    assert_eq!(assets.balance.to_text(), "350.00 USD");
}

#[test]
fn test_subtree_balance_multiple_commodities() {
    let mut tree = TreeNode::new();
    tree.add_account(&Account::parse("assets:bank:checking"));
    tree.add_account(&Account::parse("assets:cash"));

    tree.add_amount_to_account(&Account::parse("assets:bank:checking"), &usd(10000)).unwrap();
    let eur = CurrencyAmount { value: Decimal::new(5000, 2), commodity: "EUR".to_string() };
    tree.add_amount_to_account(&Account::parse("assets:cash"), &eur).unwrap();

    let assets = &tree.children[0];
    let bank = &assets.children[0];
    let checking = &bank.children[0];
    let cash = &assets.children[1];

    assert_eq!(checking.balance.to_text(), "100.00 USD");
    assert_eq!(cash.balance.to_text(), "50.00 EUR");
    assert_eq!(bank.balance.to_text(), "100.00 USD");
    let assets_balance = assets.balance.to_text();
    assert!(assets_balance.contains("100.00 USD") && assets_balance.contains("50.00 EUR"));
}
