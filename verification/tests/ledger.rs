use thunes::account::{update_transaction, Account};
use thunes::date::Date;
use thunes::error::Error;
use thunes::ledger::{
    add_transaction, balance, get_transactions, list_between, report, report_total,
    sum_amounts, total_balance, BalanceOptions, TransactionOptions,
};
use thunes::transaction::{Item, Kind, Transaction};

fn day(year: i32, month: u8, day: u8) -> Date {
    Date::new(year, month, day).unwrap()
}

fn item(date: Date, amount: i64, description: &str, tags: &[&str]) -> Item {
    Item {
        date,
        amount,
        description: description.to_string(),
        tags: tags.iter().map(|t| t.to_string()).collect(),
    }
}

fn income(date: Date, amount: i64, description: &str, tags: &[&str]) -> Transaction {
    Transaction::Income(item(date, amount, description, tags))
}

fn spending(date: Date, amount: i64, description: &str, tags: &[&str]) -> Transaction {
    Transaction::Spending(item(date, amount, description, tags))
}

fn sample() -> Account {
    let mut account = Account::new("bourso", "EUR");
    account
        .push_transaction(income(day(2024, 1, 1), 180000, "salary", &["job"]))
        .unwrap();
    account
        .push_transaction(spending(day(2024, 1, 15), 65000, "flat", &["rent"]))
        .unwrap();
    account
        .push_transaction(spending(day(2024, 2, 1), 1250, "lunch", &["food", "shared"]))
        .unwrap();
    account
}

fn descriptions(list: &[Transaction]) -> Vec<String> {
    list.iter().map(|t| t.item().description.clone()).collect()
}

#[test]
fn new_account_is_empty() {
    let account = Account::new("bourso", "EUR");
    assert_eq!(account.name(), "bourso");
    assert_eq!(account.currency(), "EUR");
    assert_eq!(account.len(), 0);
    assert!(account.records().is_empty());
}

#[test]
fn empty_account_has_balance_zero_under_any_filter() {
    let account = Account::new("bourso", "EUR");
    assert_eq!(balance(&account, &BalanceOptions::default()), 0);
    let options = BalanceOptions {
        period_start: Some(day(2024, 1, 1)),
        period_end: Some(day(2024, 12, 31)),
        tag: Some("food".to_string()),
    };
    assert_eq!(balance(&account, &options), 0);
    assert!(get_transactions(&account, &TransactionOptions::default()).is_empty());
}

#[test]
fn balance_without_filter_is_sum_of_all_amounts() {
    let account = sample();
    assert_eq!(balance(&account, &BalanceOptions::default()), 180000 - 65000 - 1250);
    assert_eq!(sum_amounts(account.records()), 113750);
}

#[test]
fn amount_is_signed_by_kind() {
    let earned = income(day(2024, 3, 1), 500, "gift", &[]);
    let spent = spending(day(2024, 3, 1), 500, "book", &[]);
    assert_eq!(earned.amount(), 500);
    assert_eq!(spent.amount(), -500);
    assert_eq!(earned.kind(), Kind::Income);
    assert_eq!(spent.kind(), Kind::Spending);
    assert_eq!(spent.date(), day(2024, 3, 1));
}

#[test]
fn range_includes_both_boundaries() {
    let mut account = Account::new("main", "EUR");
    account.push_transaction(income(day(2024, 1, 1), 100, "first", &[])).unwrap();
    account.push_transaction(income(day(2024, 1, 15), 200, "second", &[])).unwrap();
    account.push_transaction(income(day(2024, 2, 1), 400, "third", &[])).unwrap();
    let found = account.transactions_between(Some(day(2024, 1, 1)), Some(day(2024, 1, 31)));
    assert_eq!(descriptions(&found), vec!["first".to_string(), "second".to_string()]);
    let until = account.transactions_between(None, Some(day(2024, 1, 15)));
    assert_eq!(descriptions(&until), vec!["first".to_string(), "second".to_string()]);
    let from = account.transactions_between(Some(day(2024, 1, 15)), None);
    assert_eq!(descriptions(&from), vec!["second".to_string(), "third".to_string()]);
    let one_day = account.transactions_between(Some(day(2024, 2, 1)), Some(day(2024, 2, 1)));
    assert_eq!(descriptions(&one_day), vec!["third".to_string()]);
}

#[test]
fn range_with_start_after_end_is_empty() {
    let account = sample();
    let found = account.transactions_between(Some(day(2024, 2, 1)), Some(day(2024, 1, 1)));
    assert!(found.is_empty());
    let options = BalanceOptions {
        period_start: Some(day(2024, 2, 1)),
        period_end: Some(day(2024, 1, 1)),
        tag: None,
    };
    assert_eq!(balance(&account, &options), 0);
}

#[test]
fn tag_filter_matches_exact_label() {
    let mut account = Account::new("main", "EUR");
    account.push_transaction(spending(day(2024, 1, 1), 100, "a", &["food"])).unwrap();
    account.push_transaction(spending(day(2024, 1, 2), 200, "b", &["rent"])).unwrap();
    account.push_transaction(spending(day(2024, 1, 3), 400, "c", &["food", "shared"])).unwrap();
    let records = account.records();
    let matching: Vec<String> = records
        .iter()
        .filter(|t| t.has_tag("food"))
        .map(|t| t.item().description.clone())
        .collect();
    assert_eq!(matching, vec!["a".to_string(), "c".to_string()]);
    let options = BalanceOptions { period_start: None, period_end: None, tag: Some("food".to_string()) };
    assert_eq!(balance(&account, &options), -500);
    let prefix = BalanceOptions { period_start: None, period_end: None, tag: Some("foo".to_string()) };
    assert_eq!(balance(&account, &prefix), 0);
    let upper = BalanceOptions { period_start: None, period_end: None, tag: Some("Food".to_string()) };
    assert_eq!(balance(&account, &upper), 0);
}

#[test]
fn balance_under_filter_is_sum_of_listed_records_with_tag() {
    let account = sample();
    let options = BalanceOptions {
        period_start: Some(day(2024, 1, 10)),
        period_end: Some(day(2024, 2, 28)),
        tag: Some("rent".to_string()),
    };
    let listed = account.transactions_between(options.period_start, options.period_end);
    let by_hand: i128 = listed.iter().filter(|t| t.has_tag("rent")).map(|t| t.amount()).sum();
    assert_eq!(balance(&account, &options), by_hand);
    assert_eq!(by_hand, -65000);
}

#[test]
fn listing_is_chronological_and_stable() {
    let mut account = Account::new("main", "EUR");
    account.push_transaction(income(day(2024, 3, 1), 1, "late", &[])).unwrap();
    account.push_transaction(income(day(2024, 1, 1), 2, "early one", &[])).unwrap();
    account.push_transaction(income(day(2024, 2, 1), 3, "middle", &[])).unwrap();
    account.push_transaction(income(day(2024, 1, 1), 4, "early two", &[])).unwrap();
    let found = get_transactions(&account, &TransactionOptions::default());
    assert_eq!(
        descriptions(&found),
        vec![
            "early one".to_string(),
            "early two".to_string(),
            "middle".to_string(),
            "late".to_string()
        ]
    );
    assert_eq!(descriptions(account.records())[0], "late");
}

#[test]
fn summary_takes_period_from_dates_not_from_append_order() {
    let mut account = Account::new("main", "EUR");
    account.push_transaction(income(day(2024, 3, 1), 1000, "late", &[])).unwrap();
    account.push_transaction(spending(day(2024, 1, 5), 300, "back-dated", &[])).unwrap();
    let summary = list_between(&account, None, None);
    assert_eq!(summary.period, Some((day(2024, 1, 5), day(2024, 3, 1))));
    assert_eq!(summary.balance, 700);
    let nothing = list_between(&account, Some(day(2025, 1, 1)), None);
    assert_eq!(nothing.period, None);
    assert_eq!(nothing.balance, 0);
}

#[test]
fn push_refuses_invalid_transactions() {
    let mut account = Account::new("main", "EUR");
    let zero = income(day(2024, 1, 1), 0, "nothing", &[]);
    assert_eq!(account.push_transaction(zero), Err(Error::InvalidInput));
    let negative = income(day(2024, 1, 1), -5, "negative", &[]);
    assert_eq!(account.push_transaction(negative), Err(Error::InvalidInput));
    let unnamed = income(day(2024, 1, 1), 5, "", &[]);
    assert_eq!(account.push_transaction(unnamed), Err(Error::InvalidInput));
    let twice = income(day(2024, 1, 1), 5, "x", &["a", "a"]);
    assert_eq!(account.push_transaction(twice), Err(Error::InvalidInput));
    let out_of_order = income(day(2024, 1, 1), 5, "x", &["b", "a"]);
    assert_eq!(account.push_transaction(out_of_order), Err(Error::InvalidInput));
    let no_day = income(Date { year: 2023, month: 2, day: 29 }, 5, "x", &[]);
    assert_eq!(account.push_transaction(no_day), Err(Error::InvalidInput));
    assert_eq!(account.len(), 0);
}

#[test]
fn transaction_new_checks_the_item() {
    let good = Transaction::new(Kind::Spending, item(day(2024, 1, 1), 5, "x", &["a"]));
    assert_eq!(good.unwrap().amount(), -5);
    let bad = Transaction::new(Kind::Income, item(day(2024, 1, 1), 5, "", &[]));
    assert!(matches!(bad, Err(Error::InvalidInput)));
}

#[test]
fn add_transaction_normalises_sign_and_tags() {
    let mut account = Account::new("main", "EUR");
    let tags = vec!["shared".to_string(), "food".to_string(), "shared".to_string()];
    add_transaction(&mut account, day(2024, 5, 1), -1250, "lunch".to_string(), tags).unwrap();
    add_transaction(&mut account, day(2024, 5, 2), 2000, "refund".to_string(), vec![]).unwrap();
    let records = account.records();
    assert_eq!(records.len(), 2);
    assert_eq!(records[0].kind(), Kind::Spending);
    assert_eq!(records[0].item().amount, 1250);
    assert_eq!(records[0].item().tags, vec!["food".to_string(), "shared".to_string()]);
    assert_eq!(records[1].kind(), Kind::Income);
    assert_eq!(balance(&account, &BalanceOptions::default()), 750);
}

#[test]
fn add_transaction_refuses_bad_payloads() {
    let mut account = Account::new("main", "EUR");
    let date = day(2024, 5, 1);
    assert_eq!(
        add_transaction(&mut account, date, 0, "zero".to_string(), vec![]),
        Err(Error::InvalidInput)
    );
    assert_eq!(
        add_transaction(&mut account, date, i64::MIN, "huge".to_string(), vec![]),
        Err(Error::InvalidInput)
    );
    assert_eq!(
        add_transaction(&mut account, date, 10, String::new(), vec![]),
        Err(Error::InvalidInput)
    );
    let no_day = Date { year: 2024, month: 13, day: 1 };
    assert_eq!(
        add_transaction(&mut account, no_day, 10, "x".to_string(), vec![]),
        Err(Error::InvalidInput)
    );
    assert_eq!(account.len(), 0);
}

#[test]
fn update_replaces_the_record_in_place() {
    let mut account = sample();
    let edited = spending(day(2024, 1, 16), 70000, "flat, corrected", &["rent"]);
    update_transaction(&mut account, 1, edited).unwrap();
    assert_eq!(account.len(), 3);
    assert_eq!(account.records()[1].item().description, "flat, corrected");
    assert_eq!(account.records()[0].item().description, "salary");
    assert_eq!(account.records()[2].item().description, "lunch");
    assert_eq!(balance(&account, &BalanceOptions::default()), 180000 - 70000 - 1250);
}

#[test]
fn update_refuses_unknown_index_and_invalid_record() {
    let mut account = sample();
    let edited = spending(day(2024, 1, 16), 70000, "flat", &[]);
    assert_eq!(update_transaction(&mut account, 3, edited), Err(Error::InvalidInput));
    let invalid = spending(day(2024, 1, 16), 0, "flat", &[]);
    assert_eq!(update_transaction(&mut account, 1, invalid), Err(Error::InvalidInput));
    assert_eq!(balance(&account, &BalanceOptions::default()), 113750);
}

#[test]
fn with_records_checks_every_record() {
    let good = vec![income(day(2024, 1, 1), 1, "a", &[])];
    let account = Account::with_records("n".to_string(), "EUR".to_string(), good).unwrap();
    assert_eq!(account.len(), 1);
    let bad = vec![income(day(2024, 1, 1), 1, "a", &[]), income(day(2024, 1, 1), 0, "b", &[])];
    assert!(matches!(
        Account::with_records("n".to_string(), "EUR".to_string(), bad),
        Err(Error::InvalidInput)
    ));
}

#[test]
fn total_balance_adds_up_accounts() {
    let mut other = Account::new("cash", "EUR");
    other.push_transaction(income(day(2024, 1, 20), 5000, "found", &[])).unwrap();
    let accounts = vec![sample(), other];
    assert_eq!(total_balance(&accounts, &BalanceOptions::default()), Some(118750));
    let january = BalanceOptions {
        period_start: Some(day(2024, 1, 1)),
        period_end: Some(day(2024, 1, 31)),
        tag: None,
    };
    assert_eq!(total_balance(&accounts, &january), Some(180000 - 65000 + 5000));
    assert_eq!(total_balance(&[], &BalanceOptions::default()), Some(0));
}

#[test]
fn largest_amounts_do_not_overflow_the_balance() {
    let mut account = Account::new("main", "EUR");
    account.push_transaction(income(day(2024, 1, 1), i64::MAX, "a", &[])).unwrap();
    account.push_transaction(income(day(2024, 1, 2), i64::MAX, "b", &[])).unwrap();
    assert_eq!(balance(&account, &BalanceOptions::default()), 2 * (i64::MAX as i128));
}

#[test]
fn clone_keeps_the_content() {
    let source = spending(day(2024, 1, 3), 400, "c", &["food", "shared"]);
    let copy = source.clone();
    assert_eq!(copy.amount(), -400);
    assert_eq!(copy.item().description, "c");
    assert_eq!(copy.item().tags, source.item().tags);
    assert_eq!(copy.date(), source.date());
}

#[test]
fn report_names_period_account_and_balance() {
    let account = sample();
    assert_eq!(
        report(&account, None, None),
        "[2024-01-01/2024-02-01] balance for 'bourso': 1137.50 EUR"
    );
    assert_eq!(
        report(&account, Some(day(2024, 1, 10)), Some(day(2024, 1, 31))),
        "[2024-01-15/2024-01-15] balance for 'bourso': -650.00 EUR"
    );
    assert_eq!(
        report(&account, Some(day(2025, 1, 1)), None),
        "balance for 'bourso': 0.00 EUR"
    );
    assert_eq!(report(&Account::new("cash", "USD"), None, None), "balance for 'cash': 0.00 USD");
}

#[test]
fn tags_are_a_set_whatever_the_order_given() {
    let mut one = Account::new("main", "EUR");
    let mut other = Account::new("main", "EUR");
    let given = |tags: &[&str]| tags.iter().map(|t| t.to_string()).collect::<Vec<String>>();
    add_transaction(&mut one, day(2024, 5, 1), -1250, "lunch".to_string(), given(&["a", "b"]))
        .unwrap();
    add_transaction(&mut other, day(2024, 5, 1), -1250, "lunch".to_string(), given(&["b", "a", "b"]))
        .unwrap();
    assert_eq!(one.records()[0].item().tags, other.records()[0].item().tags);
    assert_eq!(one.records()[0].item().tags, vec!["a".to_string(), "b".to_string()]);
    assert!(other.records()[0].has_tag("a"));
    assert!(other.records()[0].has_tag("b"));
}

#[test]
fn report_total_adds_up_accounts() {
    let mut other = Account::new("cash", "EUR");
    other.push_transaction(income(day(2024, 1, 20), 5000, "found", &[])).unwrap();
    let accounts = vec![sample(), other];
    assert_eq!(report_total(&accounts, &BalanceOptions::default()), "Total: 1187.50 EUR");
    assert_eq!(report_total(&[], &BalanceOptions::default()), "Total: 0.00 EUR");
}
