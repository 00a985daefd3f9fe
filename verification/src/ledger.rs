//! The operations on a loaded account: balance and listing under a filter,
//! and taking in a new transaction.

use crate::account::{date_in_range, Account, AccountView};
use crate::amount::{amount_text, format_amount};
use crate::date::Date;
use crate::error::Error;
use crate::query::{
    chronological, lemma_listed_from_log, lemma_select_empty, lemma_select_push,
    lemma_sort_keeps_total, lemma_total_push, select, sort_by_date, total, Filter,
};
use crate::tags::{canonical, canonical_texts, lemma_canonical_of_set};
use crate::text::texts;
use crate::transaction::{views, Item, ItemView, Kind, Transaction, TransactionView};
use vstd::prelude::*;
use vstd::string::*;

verus! {

/// What a balance is asked over: a date range, both ends inclusive, and a
/// tag. A part left out does not restrict.
#[derive(Debug)]
pub struct BalanceOptions {
    pub period_start: Option<Date>,
    pub period_end: Option<Date>,
    pub tag: Option<String>,
}

impl View for BalanceOptions {
    type V = Filter;

    open spec fn view(&self) -> Filter {
        Filter {
            start: self.period_start,
            end: self.period_end,
            tag: match self.tag {
                Some(label) => Some(label@),
                None => None,
            },
        }
    }
}

impl Default for BalanceOptions {
    fn default() -> (options: Self)
        ensures
            options@ == Filter::all(),
    {
        BalanceOptions { period_start: None, period_end: None, tag: None }
    }
}

/// What a listing is asked over: a date range, both ends inclusive.
#[derive(Clone, Copy, Debug)]
pub struct TransactionOptions {
    pub start: Option<Date>,
    pub end: Option<Date>,
}

impl View for TransactionOptions {
    type V = Filter;

    open spec fn view(&self) -> Filter {
        Filter::range(self.start, self.end)
    }
}

impl Default for TransactionOptions {
    fn default() -> (options: Self)
        ensures
            options@ == Filter::all(),
    {
        TransactionOptions { start: None, end: None }
    }
}

impl BalanceOptions {
    /// Whether `t` is counted under these options.
    pub fn accepts(&self, t: &Transaction) -> (counted: bool)
        ensures
            counted == self@.accepts(t@),
    {
        let tagged = match &self.tag {
            Some(label) => t.has_tag(label.as_str()),
            None => true,
        };
        date_in_range(&t.date(), &self.period_start, &self.period_end) && tagged
    }
}

/// The total of a log of `n` records lies within `n` times the largest
/// amount of one record.
pub proof fn lemma_total_bound(records: Seq<Transaction>)
    ensures
        -0x8000_0000_0000_0000 * records.len() <= total(views(records)),
        total(views(records)) <= 0x8000_0000_0000_0000 * records.len(),
    decreases records.len(),
{
    if records.len() > 0 {
        lemma_total_bound(records.drop_last());
        assert(views(records).drop_last() =~= views(records.drop_last()));
        let last = records.last();
        assert(views(records).last() == last@);
        match last {
            Transaction::Income(item) => {
                assert(last@.amount() == item.amount as int);
            },
            Transaction::Spending(item) => {
                assert(last@.amount() == -(item.amount as int));
            },
        }
    }
}

/// The sum of the amounts of a list of transactions.
pub fn sum_amounts(list: &Vec<Transaction>) -> (sum: i128)
    ensures
        sum == total(views(list@)),
{
    let mut sum: i128 = 0;
    let mut i: usize = 0;
    assert(views(list@).take(0) =~= Seq::empty());
    while i < list.len()
        invariant
            0 <= i <= list@.len(),
            sum == total(views(list@).take(i as int)),
        decreases list@.len() - i,
    {
        let t = &list[i];
        proof {
            let seen = views(list@).take(i as int);
            assert(views(list@).take(i + 1) =~= seen.push(t@));
            lemma_total_push(seen, t@);
            lemma_total_bound(list@.take(i as int));
            lemma_total_bound(list@.take(i + 1));
            assert(views(list@.take(i as int)) =~= seen);
            assert(views(list@.take(i + 1)) =~= seen.push(t@));
        }
        sum = sum + t.amount();
        i += 1;
    }
    assert(views(list@).take(i as int) =~= views(list@));
    sum
}

/// The balance of `account` under `options`: the sum of the amounts of the
/// transactions that the options accept. Where there is none it is 0.
pub fn balance(account: &Account, options: &BalanceOptions) -> (sum: i128)
    ensures
        sum == total(select(account@.records, options@)),
{
    let list = account.records();
    let ghost filter = options@;
    let mut sum: i128 = 0;
    let mut i: usize = 0;
    let ghost mut counted: Seq<Transaction> = Seq::empty();
    proof {
        lemma_select_empty(filter);
        assert(views(list@).take(0) =~= Seq::empty());
        assert(views(counted) =~= Seq::empty());
    }
    while i < list.len()
        invariant
            0 <= i <= list@.len(),
            filter == options@,
            views(counted) == select(views(list@).take(i as int), filter),
            counted.len() <= i,
            sum == total(views(counted)),
        decreases list@.len() - i,
    {
        let t = &list[i];
        proof {
            let seen = views(list@).take(i as int);
            assert(views(list@).take(i + 1) =~= seen.push(t@));
            lemma_select_push(seen, t@, filter);
        }
        if options.accepts(t) {
            proof {
                lemma_total_push(views(counted), t@);
                lemma_total_bound(counted);
                lemma_total_bound(counted.push(*t));
                assert(views(counted.push(*t)) =~= views(counted).push(t@));
                counted = counted.push(*t);
            }
            sum = sum + t.amount();
        }
        i += 1;
    }
    assert(views(list@).take(i as int) =~= views(list@));
    sum
}

/// The transactions of `account` in the date range of `options`, in
/// chronological order.
pub fn get_transactions(account: &Account, options: &TransactionOptions) -> (found: Vec<
    Transaction,
>)
    ensures
        views(found@) == sort_by_date(select(account@.records, options@)),
        chronological(views(found@)),
{
    account.transactions_between(options.start, options.end)
}

/// The transaction that taking in a signed amount records: a positive
/// amount is income, a negative one spending of its magnitude; the tags
/// are put in canonical order, each once.
pub open spec fn recorded(
    date: Date,
    amount: int,
    description: Seq<char>,
    tags: Seq<Seq<char>>,
) -> TransactionView {
    TransactionView {
        kind: if amount >= 0 {
            Kind::Income
        } else {
            Kind::Spending
        },
        item: ItemView {
            date,
            amount: if amount >= 0 {
                amount
            } else {
                -amount
            },
            description,
            tags: canonical(tags),
        },
    }
}

/// Takes a new transaction into `account`. The sign of `amount` (in minor
/// units) gives the direction. The payload is refused with `InvalidInput`,
/// and the account stays as it was, where the date does not exist, the
/// amount is zero or its magnitude does not fit, or the description is
/// empty. Where it is taken in, the total of the log grows by `amount`.
pub fn add_transaction(
    account: &mut Account,
    date: Date,
    amount: i64,
    description: String,
    tags: Vec<String>,
) -> (done: Result<(), Error>)
    ensures
        recorded(date, amount as int, description@, texts(tags@)).valid() ==> {
            &&& done is Ok
            &&& final(account)@ == old(account)@.append(
                recorded(date, amount as int, description@, texts(tags@)),
            )
            &&& total(final(account)@.records) == total(old(account)@.records) + amount
        },
        !recorded(date, amount as int, description@, texts(tags@)).valid() ==> {
            &&& done == Err::<(), Error>(Error::InvalidInput)
            &&& final(account)@ == old(account)@
        },
{
    if amount == i64::MIN {
        return Err(Error::InvalidInput);
    }
    let ghost entry = recorded(date, amount as int, description@, texts(tags@));
    let kept = canonical_texts(&tags);
    let transaction = if amount >= 0 {
        Transaction::Income(Item { date, amount, description, tags: kept })
    } else {
        Transaction::Spending(Item { date, amount: -amount, description, tags: kept })
    };
    assert(transaction@ == entry);
    proof {
        lemma_total_push(account@.records, entry);
    }
    account.push_transaction(transaction)
}

/// What is recorded depends on the set of tags alone: the order in which
/// the tags were given, and how often, makes no difference.
pub proof fn lemma_recorded_ignores_tag_order(
    date: Date,
    amount: int,
    description: Seq<char>,
    tags: Seq<Seq<char>>,
    others: Seq<Seq<char>>,
)
    requires
        tags.to_set() == others.to_set(),
    ensures
        recorded(date, amount, description, tags) == recorded(date, amount, description, others),
{
    lemma_canonical_of_set(tags, others);
}

/// What a listing is summed up to for a report: the day of its first and of
/// its last transaction, and the balance.
#[derive(Clone, Copy, Debug)]
pub struct Summary {
    /// The days of the earliest and of the latest transaction, where there
    /// is any.
    pub period: Option<(Date, Date)>,
    pub balance: i128,
}

/// The days of the first and of the last record of a listing, where it has
/// any.
pub open spec fn period_of(listed: Seq<TransactionView>) -> Option<(Date, Date)> {
    if listed.len() == 0 {
        None
    } else {
        Some((listed.first().date(), listed.last().date()))
    }
}

/// The summary of the transactions of `account` dated from `start` to
/// `end`, both days included. The period is taken from the chronological
/// order, not from the order in which the transactions were appended.
pub fn list_between(account: &Account, start: Option<Date>, end: Option<Date>) -> (summary: Summary)
    ensures
        summary.balance == total(select(account@.records, Filter::range(start, end))),
        summary.period == period_of(
            sort_by_date(select(account@.records, Filter::range(start, end))),
        ),
{
    let found = account.transactions_between(start, end);
    proof {
        lemma_sort_keeps_total(select(account@.records, Filter::range(start, end)));
    }
    let balance = sum_amounts(&found);
    let period = if found.len() == 0 {
        None
    } else {
        Some((found[0].date(), found[found.len() - 1].date()))
    };
    Summary { period, balance }
}

/// The mathematical content of each account of a list.
pub open spec fn account_views(accounts: Seq<Account>) -> Seq<AccountView> {
    accounts.map_values(|a: Account| a@)
}

/// The sum of the balances of `accounts` under `filter`.
pub open spec fn balances_sum(accounts: Seq<AccountView>, filter: Filter) -> int
    decreases accounts.len(),
{
    if accounts.len() == 0 {
        0
    } else {
        balances_sum(accounts.drop_last(), filter) + total(select(accounts.last().records, filter))
    }
}

pub open spec fn fits_i128(v: int) -> bool {
    i128::MIN <= v <= i128::MAX
}

/// The balance of all of `accounts` together under `options`, added up
/// account by account. It is `None` exactly where the sum up to some
/// account leaves the range of the result.
pub fn total_balance(accounts: &[Account], options: &BalanceOptions) -> (sum: Option<i128>)
    ensures
        sum matches Some(v) ==> v == balances_sum(account_views(accounts@), options@),
        sum is None <==> exists|k: int|
            0 <= k <= accounts@.len() && !fits_i128(
                #[trigger] balances_sum(account_views(accounts@).take(k), options@),
            ),
{
    let ghost all = account_views(accounts@);
    let ghost filter = options@;
    let mut sum: i128 = 0;
    let mut i: usize = 0;
    proof {
        assert(all.take(0) =~= Seq::empty());
    }
    while i < accounts.len()
        invariant
            0 <= i <= accounts@.len(),
            all == account_views(accounts@),
            filter == options@,
            sum == balances_sum(all.take(i as int), filter),
            forall|k: int| 0 <= k <= i ==> fits_i128(#[trigger] balances_sum(all.take(k), filter)),
        decreases accounts@.len() - i,
    {
        let one = balance(&accounts[i], options);
        proof {
            assert(all.take(i + 1).drop_last() =~= all.take(i as int));
            assert(all.take(i + 1).last() == accounts@[i as int]@);
        }
        match sum.checked_add(one) {
            Some(next) => {
                sum = next;
            },
            None => {
                assert(!fits_i128(balances_sum(all.take(i + 1), filter)));
                return None;
            },
        }
        i += 1;
    }
    assert(all.take(i as int) =~= all);
    Some(sum)
}

/// The line that reports a balance: the period in square brackets where
/// there is any transaction, the name of the account, the balance in major
/// units and the currency.
pub open spec fn report_text(
    name: Seq<char>,
    currency: Seq<char>,
    period: Option<(Date, Date)>,
    balance: int,
) -> Seq<char> {
    match period {
        Some((first, last)) => "["@ + first.text_spec() + "/"@ + last.text_spec()
            + "] balance for '"@ + name + "': "@ + amount_text(balance) + " "@ + currency,
        None => "balance for '"@ + name + "': "@ + amount_text(0) + " "@ + currency,
    }
}

/// The report of the balance of `account` over the transactions dated from
/// `start` to `end`, both days included, as one line of text.
pub fn report(account: &Account, start: Option<Date>, end: Option<Date>) -> (line: String)
    ensures
        line@ == report_text(
            account@.name,
            account@.currency,
            period_of(sort_by_date(select(account@.records, Filter::range(start, end)))),
            total(select(account@.records, Filter::range(start, end))),
        ),
{
    let summary = list_between(account, start, end);
    let log = account.records();
    let mut line = String::new();
    let balance = match summary.period {
        Some((first, last)) => {
            proof {
                let filter = Filter::range(start, end);
                let listed = sort_by_date(select(account@.records, filter));
                lemma_listed_from_log(account@.records, filter, 0);
                lemma_listed_from_log(account@.records, filter, listed.len() - 1);
                let low = choose|i: int|
                    0 <= i < account@.records.len() && account@.records[i] == listed[0];
                let high = choose|i: int|
                    0 <= i < account@.records.len() && account@.records[i] == listed[listed.len()
                        - 1];
                assert(account@.records[low].valid());
                assert(account@.records[high].valid());
            }
            let first_text = match first.text() {
                Ok(text) => text,
                Err(_) => String::new(),
            };
            let last_text = match last.text() {
                Ok(text) => text,
                Err(_) => String::new(),
            };
            line.append("[");
            line.append(first_text.as_str());
            line.append("/");
            line.append(last_text.as_str());
            line.append("] ");
            summary.balance
        },
        None => 0,
    };
    let ghost head = line@;
    line.append("balance for '");
    line.append(account.name());
    line.append("': ");
    line.append(format_amount(balance).as_str());
    line.append(" ");
    line.append(account.currency());
    proof {
        reveal_strlit("[");
        reveal_strlit("/");
        reveal_strlit("] ");
        reveal_strlit("] balance for '");
        reveal_strlit("balance for '");
        let tail = "balance for '"@ + account@.name + "': "@ + amount_text(balance as int) + " "@
            + account@.currency;
        assert(line@ =~= head + tail);
        match summary.period {
            Some((first, last)) => {
                assert(head =~= "["@ + first.text_spec() + "/"@ + last.text_spec() + "] "@);
                assert("] balance for '"@ =~= "] "@ + "balance for '"@);
                assert(line@ =~= "["@ + first.text_spec() + "/"@ + last.text_spec()
                    + "] balance for '"@ + account@.name + "': "@ + amount_text(balance as int)
                    + " "@ + account@.currency);
            },
            None => {
                assert(head =~= Seq::<char>::empty());
            },
        }
    }
    line
}

/// The sum of the balances of `accounts` under `filter`, added up account
/// by account; `None` where the sum up to some account leaves the range of
/// a balance.
pub open spec fn total_of(accounts: Seq<AccountView>, filter: Filter) -> Option<int> {
    if exists|k: int|
        0 <= k <= accounts.len() && !fits_i128(#[trigger] balances_sum(accounts.take(k), filter)) {
        None
    } else {
        Some(balances_sum(accounts, filter))
    }
}

/// The line that reports the total of several accounts. The total is
/// given in euro.
pub open spec fn total_text(sum: Option<int>) -> Seq<char> {
    match sum {
        Some(total) => "Total: "@ + amount_text(total) + " EUR"@,
        None => "Total: out of range"@,
    }
}

/// The report of the balance of all of `accounts` together under
/// `options`, as one line of text.
pub fn report_total(accounts: &[Account], options: &BalanceOptions) -> (line: String)
    ensures
        line@ == total_text(total_of(account_views(accounts@), options@)),
{
    match total_balance(accounts, options) {
        Some(total) => {
            let mut line = String::from_str("Total: ");
            line.append(format_amount(total).as_str());
            line.append(" EUR");
            line
        },
        None => String::from_str("Total: out of range"),
    }
}

} // verus!
