use thunes::args::{setup_args, Arg, Block};
use thunes::account::Account;
use thunes::chart::{build, chart_between};
use thunes::date::Date;
use thunes::error::Error;
use thunes::persist::{
    is_account_name, lock_name, should_retry, temp_name, Action, SaveState, RETRY_BUDGET,
};
use thunes::record::Record;
use thunes::show::balance;
use thunes::transaction::{Item, Transaction};

fn day(year: i32, month: u8, day: u8) -> Date {
    Date::new(year, month, day).unwrap()
}

fn income(date: Date, amount: i64) -> Transaction {
    Transaction::Income(Item { date, amount, description: "in".to_string(), tags: vec![] })
}

fn spending(date: Date, amount: i64) -> Transaction {
    Transaction::Spending(Item { date, amount, description: "out".to_string(), tags: vec![] })
}

fn names(args: &[Arg]) -> Vec<(String, bool)> {
    args.iter().map(|a| (a.value.clone(), a.required)).collect()
}

#[test]
fn setup_args_lays_out_the_command_line() {
    let layout = setup_args();
    assert_eq!(layout.short, "");
    assert_eq!(layout.long, "");
    assert!(layout.required);
    assert_eq!(names(&layout.args), vec![("account".to_string(), true)]);
    assert_eq!(layout.blocks.len(), 3);

    let create = &layout.blocks[0];
    assert_eq!(create.short, "-n");
    assert_eq!(create.long, "--new");
    assert!(create.required);
    assert_eq!(names(&create.args), vec![("account".to_string(), true)]);
    assert!(create.blocks.is_empty());

    let entry = &layout.blocks[1];
    assert_eq!(entry.short, "");
    assert_eq!(entry.long, "");
    assert!(!entry.required);
    assert_eq!(names(&entry.args), vec![("label".to_string(), true), ("amount".to_string(), true)]);
    assert!(entry.blocks.is_empty());

    let remark = &layout.blocks[2];
    assert!(!remark.required);
    assert_eq!(names(&remark.args), vec![("date".to_string(), true), ("note".to_string(), true)]);
    assert!(remark.blocks.is_empty());
}

#[test]
fn blocks_collect_what_is_registered() {
    let mut block = Block::new("-x", "--example", false).register_args(vec![Arg {
        value: "one".to_string(),
        required: false,
    }]);
    block.register_args_ref(vec![Arg { value: "two".to_string(), required: true }]);
    block.register_blocks_ref(vec![Block::new("", "", true)]);
    block.register_blocks_ref(vec![Block::new("-y", "", true)]);
    assert_eq!(names(&block.args), vec![("one".to_string(), false), ("two".to_string(), true)]);
    assert_eq!(block.blocks.len(), 2);
    assert_eq!(block.blocks[1].short, "-y");
    assert_eq!(block.short, "-x");
    assert_eq!(block.long, "--example");
}

#[test]
fn chart_of_nothing() {
    let chart = build(&[]);
    assert_eq!(chart.width, 0);
    assert_eq!(chart.height, 600);
    assert_eq!(chart.plot_width, -100);
    assert_eq!(chart.plot_height, 460);
    assert_eq!(chart.smallest, 0);
    assert_eq!(chart.biggest, 0);
    assert!(chart.points.is_empty());
}

#[test]
fn chart_groups_runs_of_one_day() {
    let list = vec![
        income(day(2024, 1, 1), 1000),
        spending(day(2024, 1, 1), 300),
        spending(day(2024, 1, 2), 50),
        income(day(2024, 1, 1), 7),
        income(day(2024, 1, 1), 3),
    ];
    let chart = build(&list);
    assert_eq!(chart.width, 250);
    assert_eq!(chart.plot_width, 150);
    assert_eq!(chart.smallest, -300);
    assert_eq!(chart.biggest, 1000);
    assert_eq!(
        chart.points,
        vec![(day(2024, 1, 1), 700), (day(2024, 1, 2), -50), (day(2024, 1, 1), 10)]
    );
    let total: i128 = chart.points.iter().map(|p| p.1).sum();
    assert_eq!(total, 660);
}

#[test]
fn chart_axis_holds_zero() {
    let gains = build(&[income(day(2024, 1, 1), 5), income(day(2024, 1, 2), 9)]);
    assert_eq!((gains.smallest, gains.biggest), (0, 9));
    let losses = build(&[spending(day(2024, 1, 1), 5), spending(day(2024, 1, 2), 9)]);
    assert_eq!((losses.smallest, losses.biggest), (-9, 0));
}

#[test]
fn save_runs_write_sync_replace() {
    let mut state = SaveState::start();
    assert_eq!(state.action(), Action::WriteTemp);
    state = state.advance(true);
    assert_eq!(state.action(), Action::SyncTemp);
    state = state.advance(true);
    assert_eq!(state.action(), Action::ReplaceDestination);
    assert!(!state.is_finished());
    state = state.advance(true);
    assert_eq!(state.action(), Action::ReportSaved);
    assert!(state.is_finished());
    assert_eq!(state.result(), Ok(()));
    assert_eq!(state.advance(false), SaveState::Saved);
}

#[test]
fn failed_step_clears_the_temporary_place_and_gives_up() {
    for good_steps in 0..3 {
        let mut state = SaveState::start();
        for _ in 0..good_steps {
            state = state.advance(true);
        }
        state = state.advance(false);
        assert_eq!(state, SaveState::Failed);
        assert_eq!(state.action(), Action::RemoveTemp);
        assert_ne!(state.action(), Action::ReplaceDestination);
        for cleared in [true, false] {
            let end = state.advance(cleared);
            assert_eq!(end, SaveState::Aborted);
            assert_eq!(end.action(), Action::ReportFailure);
            assert!(end.is_finished());
            assert_eq!(end.result(), Err(Error::IoFailure));
        }
    }
}

#[test]
fn simulated_failure_before_the_move_keeps_the_old_document() {
    let old = b"old document".to_vec();
    let new = b"new document".to_vec();
    let mut destination = Some(old.clone());
    let mut temp: Option<Vec<u8>> = None;
    let outcomes = [true, false];
    let mut state = SaveState::start();
    let mut step = 0;
    while !state.is_finished() {
        let ok = if step < outcomes.len() { outcomes[step] } else { true };
        match state.action() {
            Action::WriteTemp => temp = Some(if ok { new.clone() } else { b"new d".to_vec() }),
            Action::SyncTemp => {}
            Action::ReplaceDestination => {
                if ok {
                    destination = temp.take();
                }
            }
            Action::RemoveTemp => {
                if ok {
                    temp = None;
                }
            }
            Action::ReportSaved | Action::ReportFailure => unreachable!(),
        }
        state = state.advance(ok);
        step += 1;
    }
    assert_eq!(state.result(), Err(Error::IoFailure));
    assert_eq!(destination, Some(old));
    assert_eq!(temp, None);
}

#[test]
fn retry_only_contention_within_budget() {
    assert_eq!(RETRY_BUDGET, 3);
    assert!(should_retry(Error::LockContention, 0));
    assert!(should_retry(Error::LockContention, 2));
    assert!(!should_retry(Error::LockContention, 3));
    assert!(!should_retry(Error::IoFailure, 0));
    assert!(!should_retry(Error::Corrupt, 0));
}

#[test]
fn show_balance_of_the_named_account() {
    let mut store = Record::new();
    let mut account = store.create("cash", "EUR").unwrap();
    account.push_transaction(income(day(2024, 1, 1), 1000)).unwrap();
    account.push_transaction(spending(day(2024, 1, 2), 250)).unwrap();
    store.save(&account);
    store.write("broken", b"junk".to_vec());
    let arg = |name: &str| Arg { value: name.to_string(), required: true };
    assert_eq!(balance(&store, &vec![arg("cash")]), Ok(750));
    assert_eq!(balance(&store, &vec![]), Err(Error::InvalidInput));
    assert_eq!(balance(&store, &vec![arg("other")]), Err(Error::NotFound));
    assert_eq!(balance(&store, &vec![arg("broken")]), Err(Error::Corrupt));
    assert_eq!(balance(&store, &vec![arg("cash"), arg("100")]), Err(Error::InvalidInput));
}

#[test]
fn chart_only_where_wanted_and_not_empty() {
    let mut account = Account::new("cash", "EUR");
    assert!(chart_between(&account, None, None, true).is_none());
    account.push_transaction(income(day(2024, 3, 1), 1000)).unwrap();
    account.push_transaction(spending(day(2024, 1, 5), 300)).unwrap();
    assert!(chart_between(&account, None, None, false).is_none());
    assert!(chart_between(&account, Some(day(2025, 1, 1)), None, true).is_none());
    let chart = chart_between(&account, None, None, true).unwrap();
    assert_eq!(chart.width, 100);
    assert_eq!(chart.points, vec![(day(2024, 1, 5), -300), (day(2024, 3, 1), 1000)]);
    let march = chart_between(&account, Some(day(2024, 2, 1)), None, true).unwrap();
    assert_eq!(march.points, vec![(day(2024, 3, 1), 1000)]);
}

#[test]
fn helper_files_are_no_accounts() {
    assert_eq!(temp_name("bourso"), "bourso.tmp");
    assert_eq!(lock_name("bourso"), "bourso.lock");
    assert!(is_account_name("bourso"));
    assert!(is_account_name("bourso.txt"));
    assert!(is_account_name("tmp"));
    assert!(is_account_name("lock"));
    assert!(is_account_name(""));
    assert!(is_account_name("a.tmp.b"));
    assert!(!is_account_name("bourso.tmp"));
    assert!(!is_account_name("bourso.lock"));
    assert!(!is_account_name(".tmp"));
    assert!(!is_account_name(&temp_name("été")));
    assert!(!is_account_name(&lock_name("")));
}
