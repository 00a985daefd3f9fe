use thunes::account::Account;
use thunes::codec::{decode, encode};
use thunes::date::Date;
use thunes::error::Error;
use thunes::input::parse_tags;
use thunes::ledger::add_transaction;
use thunes::record::{create, load, write_transaction, Record};
use thunes::transaction::{Item, Transaction};

fn day(year: i32, month: u8, day: u8) -> Date {
    Date::new(year, month, day).unwrap()
}

fn spending(date: Date, amount: i64, description: &str, tags: &[&str]) -> Transaction {
    Transaction::Spending(Item {
        date,
        amount,
        description: description.to_string(),
        tags: tags.iter().map(|t| t.to_string()).collect(),
    })
}

fn income(date: Date, amount: i64, description: &str, tags: &[&str]) -> Transaction {
    Transaction::Income(Item {
        date,
        amount,
        description: description.to_string(),
        tags: tags.iter().map(|t| t.to_string()).collect(),
    })
}

fn sample() -> Account {
    let mut account = Account::new("compte joint", "EUR");
    account.push_transaction(income(day(2024, 1, 1), 180000, "salaire", &["job"])).unwrap();
    account
        .push_transaction(spending(day(2024, 1, 15), 1250, "déjeuner à midi", &["food", "shared"]))
        .unwrap();
    account.push_transaction(spending(day(-44, 3, 15), 1, "ides", &[])).unwrap();
    account
}

fn same(a: &Account, b: &Account) -> bool {
    a.name() == b.name()
        && a.currency() == b.currency()
        && a.len() == b.len()
        && a.records().iter().zip(b.records().iter()).all(|(x, y)| {
            x.kind() == y.kind()
                && x.date() == y.date()
                && x.item().amount == y.item().amount
                && x.item().description == y.item().description
                && x.item().tags == y.item().tags
        })
}

#[test]
fn empty_account_has_the_expected_bytes() {
    let bytes = encode(&Account::new("ab", "EUR"));
    let mut expected: Vec<u8> = vec![0x4c, 0x44, 0x47, 0x52, 1];
    expected.extend_from_slice(&2u64.to_le_bytes());
    expected.extend_from_slice(b"ab");
    expected.extend_from_slice(&3u64.to_le_bytes());
    expected.extend_from_slice(b"EUR");
    expected.extend_from_slice(&0u64.to_le_bytes());
    assert_eq!(bytes, expected);
}

#[test]
fn record_has_the_expected_bytes() {
    let mut account = Account::new("", "");
    account.push_transaction(spending(day(2024, 1, 15), 1250, "x", &["t"])).unwrap();
    let bytes = encode(&account);
    let mut expected: Vec<u8> = vec![0x4c, 0x44, 0x47, 0x52, 1];
    expected.extend_from_slice(&0u64.to_le_bytes());
    expected.extend_from_slice(&0u64.to_le_bytes());
    expected.extend_from_slice(&1u64.to_le_bytes());
    expected.push(1);
    expected.extend_from_slice(&(2024u64 + 9999).to_le_bytes());
    expected.push(1);
    expected.push(15);
    expected.extend_from_slice(&1250u64.to_le_bytes());
    expected.extend_from_slice(&1u64.to_le_bytes());
    expected.extend_from_slice(b"x");
    expected.extend_from_slice(&1u64.to_le_bytes());
    expected.extend_from_slice(&1u64.to_le_bytes());
    expected.extend_from_slice(b"t");
    assert_eq!(bytes, expected);
}

#[test]
fn decode_gives_back_what_was_encoded() {
    let account = sample();
    let back = decode(&encode(&account)).unwrap();
    assert!(same(&account, &back));
    assert_eq!(back.records()[1].item().description, "déjeuner à midi");
    let empty = Account::new("n", "USD");
    assert!(same(&empty, &decode(&encode(&empty)).unwrap()));
}

#[test]
fn encoding_twice_gives_identical_bytes() {
    let account = sample();
    assert_eq!(encode(&account), encode(&account));
    let again = decode(&encode(&account)).unwrap();
    assert_eq!(encode(&again), encode(&account));
}

#[test]
fn decode_refuses_every_truncation() {
    let bytes = encode(&sample());
    for cut in 0..bytes.len() {
        assert!(matches!(decode(&bytes[..cut]), Err(Error::Corrupt)), "cut at {}", cut);
    }
}

#[test]
fn decode_refuses_trailing_bytes() {
    let mut bytes = encode(&sample());
    bytes.push(0);
    assert!(matches!(decode(&bytes), Err(Error::Corrupt)));
}

#[test]
fn decode_refuses_unknown_version_and_wrong_marker() {
    let mut bytes = encode(&sample());
    bytes[4] = 2;
    assert!(matches!(decode(&bytes), Err(Error::Corrupt)));
    let mut other = encode(&sample());
    other[0] = b'X';
    assert!(matches!(decode(&other), Err(Error::Corrupt)));
    assert!(matches!(decode(b""), Err(Error::Corrupt)));
    assert!(matches!(decode(b"{\"name\": \"x\"}"), Err(Error::Corrupt)));
}

#[test]
fn decode_refuses_text_that_is_not_utf8() {
    let mut bytes: Vec<u8> = vec![0x4c, 0x44, 0x47, 0x52, 1];
    bytes.extend_from_slice(&2u64.to_le_bytes());
    bytes.extend_from_slice(&[0xff, 0xfe]);
    bytes.extend_from_slice(&0u64.to_le_bytes());
    bytes.extend_from_slice(&0u64.to_le_bytes());
    assert!(matches!(decode(&bytes), Err(Error::Corrupt)));
}

fn document_with_record(kind: u8, year: u64, month: u8, day: u8, amount: u64, tags: &[&str]) -> Vec<u8> {
    let mut bytes: Vec<u8> = vec![0x4c, 0x44, 0x47, 0x52, 1];
    bytes.extend_from_slice(&1u64.to_le_bytes());
    bytes.extend_from_slice(b"n");
    bytes.extend_from_slice(&3u64.to_le_bytes());
    bytes.extend_from_slice(b"EUR");
    bytes.extend_from_slice(&1u64.to_le_bytes());
    bytes.push(kind);
    bytes.extend_from_slice(&year.to_le_bytes());
    bytes.push(month);
    bytes.push(day);
    bytes.extend_from_slice(&amount.to_le_bytes());
    bytes.extend_from_slice(&1u64.to_le_bytes());
    bytes.extend_from_slice(b"d");
    bytes.extend_from_slice(&(tags.len() as u64).to_le_bytes());
    for tag in tags {
        bytes.extend_from_slice(&(tag.len() as u64).to_le_bytes());
        bytes.extend_from_slice(tag.as_bytes());
    }
    bytes
}

#[test]
fn decode_checks_the_fields_of_a_record() {
    let good = document_with_record(0, 2024 + 9999, 2, 29, 5, &["a", "b"]);
    let account = decode(&good).unwrap();
    assert_eq!(account.records()[0].amount(), 5);
    assert_eq!(account.records()[0].date(), day(2024, 2, 29));
    assert!(matches!(decode(&document_with_record(2, 12023, 2, 28, 5, &[])), Err(Error::Corrupt)));
    assert!(matches!(decode(&document_with_record(0, 12022, 2, 29, 5, &[])), Err(Error::Corrupt)));
    assert!(matches!(decode(&document_with_record(0, 19999, 1, 1, 5, &[])), Err(Error::Corrupt)));
    assert!(matches!(decode(&document_with_record(0, 12023, 1, 1, 0, &[])), Err(Error::Corrupt)));
    assert!(matches!(
        decode(&document_with_record(0, 12023, 1, 1, 1u64 << 63, &[])),
        Err(Error::Corrupt)
    ));
    assert!(matches!(
        decode(&document_with_record(0, 12023, 1, 1, 5, &["a", "a"])),
        Err(Error::Corrupt)
    ));
    assert!(matches!(
        decode(&document_with_record(0, 12023, 1, 1, 5, &["b", "a"])),
        Err(Error::Corrupt)
    ));
    assert!(decode(&document_with_record(0, 12023, 1, 1, 5, &["a", "ab", "b"])).is_ok());
}

#[test]
fn decode_refuses_a_count_beyond_the_records_present() {
    let mut bytes: Vec<u8> = vec![0x4c, 0x44, 0x47, 0x52, 1];
    bytes.extend_from_slice(&0u64.to_le_bytes());
    bytes.extend_from_slice(&0u64.to_le_bytes());
    bytes.extend_from_slice(&u64::MAX.to_le_bytes());
    assert!(matches!(decode(&bytes), Err(Error::Corrupt)));
    let mut text: Vec<u8> = vec![0x4c, 0x44, 0x47, 0x52, 1];
    text.extend_from_slice(&u64::MAX.to_le_bytes());
    text.extend_from_slice(b"abc");
    assert!(matches!(decode(&text), Err(Error::Corrupt)));
}

#[test]
fn load_reports_missing_and_corrupt_documents() {
    assert!(matches!(load(None), Err(Error::NotFound)));
    assert!(matches!(load(Some(b"garbage")), Err(Error::Corrupt)));
    let bytes = encode(&sample());
    assert!(same(&load(Some(&bytes)).unwrap(), &sample()));
}

#[test]
fn create_collides_with_existing_state() {
    assert!(matches!(create(true, "a", "EUR"), Err(Error::AlreadyExists)));
    let made = create(false, "a", "EUR").unwrap();
    assert_eq!(made.name(), "a");
    assert_eq!(made.currency(), "EUR");
    assert_eq!(made.len(), 0);
}

#[test]
fn second_creation_leaves_the_first_state_unmodified() {
    let mut store = Record::new();
    assert!(!store.contains("bourso"));
    store.create("bourso", "EUR").unwrap();
    let first = store.read("bourso").unwrap().to_vec();
    assert!(matches!(store.create("bourso", "USD"), Err(Error::AlreadyExists)));
    assert_eq!(store.read("bourso").unwrap(), &first[..]);
    assert_eq!(store.load("bourso").unwrap().currency(), "EUR");
    assert!(matches!(store.load("other"), Err(Error::NotFound)));
}

#[test]
fn two_sequential_cycles_keep_both_records() {
    let mut store = Record::new();
    store.create("bourso", "EUR").unwrap();

    let mut first = store.load("bourso").unwrap();
    first.push_transaction(income(day(2024, 1, 1), 100, "one", &[])).unwrap();
    store.save(&first);

    let mut second = store.load("bourso").unwrap();
    second.push_transaction(spending(day(2024, 1, 2), 30, "two", &[])).unwrap();
    store.save(&second);

    let last = store.load("bourso").unwrap();
    assert_eq!(last.len(), 2);
    assert_eq!(last.records()[0].item().description, "one");
    assert_eq!(last.records()[1].item().description, "two");
}

#[test]
fn write_transaction_is_one_whole_cycle() {
    let start = encode(&Account::new("a", "EUR"));
    let one = write_transaction(Some(&start), income(day(2024, 1, 1), 100, "one", &[])).unwrap();
    let two = write_transaction(Some(&one), spending(day(2024, 1, 2), 30, "two", &[])).unwrap();
    let account = decode(&two).unwrap();
    assert_eq!(account.len(), 2);
    assert_eq!(account.records()[0].amount(), 100);
    assert_eq!(account.records()[1].amount(), -30);
    assert!(matches!(
        write_transaction(None, income(day(2024, 1, 1), 100, "one", &[])),
        Err(Error::NotFound)
    ));
    assert!(matches!(
        write_transaction(Some(b"junk"), income(day(2024, 1, 1), 100, "one", &[])),
        Err(Error::Corrupt)
    ));
    assert!(matches!(
        write_transaction(Some(&start), income(day(2024, 1, 1), 0, "zero", &[])),
        Err(Error::InvalidInput)
    ));
}

#[test]
fn store_keeps_documents_apart() {
    let mut store = Record::new();
    store.create("a", "EUR").unwrap();
    store.create("b", "USD").unwrap();
    store.write("c", b"junk".to_vec());
    assert_eq!(store.load("a").unwrap().currency(), "EUR");
    assert_eq!(store.load("b").unwrap().currency(), "USD");
    assert!(matches!(store.load("c"), Err(Error::Corrupt)));
    store.write("a", b"overwritten".to_vec());
    assert_eq!(store.read("a").unwrap(), b"overwritten");
    assert_eq!(store.load("b").unwrap().currency(), "USD");
    assert!(store.read("d").is_none());
}

#[test]
fn tag_order_does_not_reach_the_bytes() {
    let start = encode(&Account::new("a", "EUR"));
    let lunch = |tags: &str| {
        Transaction::Spending(Item {
            date: day(2024, 1, 15),
            amount: 1250,
            description: "lunch".to_string(),
            tags: parse_tags(tags),
        })
    };
    let one = write_transaction(Some(&start), lunch("a,b")).unwrap();
    let other = write_transaction(Some(&start), lunch("b,a")).unwrap();
    assert_eq!(one, other);
    let third = write_transaction(Some(&start), lunch("b,a,b,a")).unwrap();
    assert_eq!(one, third);

    let mut first = Account::new("a", "EUR");
    let mut second = Account::new("a", "EUR");
    let given = |tags: &[&str]| tags.iter().map(|t| t.to_string()).collect::<Vec<String>>();
    add_transaction(&mut first, day(2024, 1, 15), -1250, "lunch".to_string(), given(&["a", "b"]))
        .unwrap();
    add_transaction(&mut second, day(2024, 1, 15), -1250, "lunch".to_string(), given(&["b", "a"]))
        .unwrap();
    assert_eq!(encode(&first), encode(&second));
    assert_eq!(encode(&first), one);
}
