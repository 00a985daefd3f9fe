//! The ledger of one account: its name, its currency and the log of its
//! transactions in the order in which they were appended.

use crate::date::Date;
use crate::error::Error;
use crate::query::{
    chronological, insert_by_date, lemma_insert_position, lemma_select_empty, lemma_select_push,
    lemma_sort_by_date, select, sort_by_date, Filter,
};
use crate::transaction::{views, Transaction, TransactionView};
use vstd::prelude::*;
use vstd::string::*;

verus! {

/// The ledger of one account. Every transaction in it is valid; the balance
/// is never stored, it is always the sum over the log.
#[derive(Debug)]
pub struct Account {
    name: String,
    currency: String,
    records: Vec<Transaction>,
}

/// The mathematical content of an [`Account`].
pub struct AccountView {
    pub name: Seq<char>,
    pub currency: Seq<char>,
    pub records: Seq<TransactionView>,
}

impl AccountView {
    /// The account as it is when it was just created.
    pub open spec fn empty(name: Seq<char>, currency: Seq<char>) -> AccountView {
        AccountView { name, currency, records: Seq::empty() }
    }

    /// The account with `t` appended to its log.
    pub open spec fn append(self, t: TransactionView) -> AccountView {
        AccountView { records: self.records.push(t), ..self }
    }

    /// The account with the record at `index` replaced by `t`.
    pub open spec fn replace(self, index: int, t: TransactionView) -> AccountView {
        AccountView { records: self.records.update(index, t), ..self }
    }

    /// Every transaction of the log is valid.
    pub open spec fn valid(self) -> bool {
        forall|i: int| 0 <= i < self.records.len() ==> (#[trigger] self.records[i]).valid()
    }
}

impl View for Account {
    type V = AccountView;

    closed spec fn view(&self) -> AccountView {
        AccountView { name: self.name@, currency: self.currency@, records: views(self.records@) }
    }
}

/// Whether `date` lies in the range from `start` to `end`, both inclusive;
/// a bound that is absent does not restrict.
pub fn date_in_range(date: &Date, start: &Option<Date>, end: &Option<Date>) -> (inside: bool)
    ensures
        inside == Filter::range(*start, *end).accepts_date(*date),
{
    let after_start = match start {
        Some(first) => first.is_on_or_before(date),
        None => true,
    };
    let before_end = match end {
        Some(last) => date.is_on_or_before(last),
        None => true,
    };
    after_start && before_end
}

/// Puts `t` into `sorted` behind the last record dated on or before it.
fn insert_sorted(sorted: &mut Vec<Transaction>, t: Transaction)
    ensures
        views(final(sorted)@) == insert_by_date(views(old(sorted)@), t@),
{
    let mut at: usize = sorted.len();
    while at > 0 && !sorted[at - 1].date().is_on_or_before(&t.date())
        invariant
            0 <= at <= sorted@.len(),
            forall|k: int|
                at <= k < sorted@.len() ==> !views(sorted@)[k].date().on_or_before(t@.date()),
        decreases at,
    {
        at -= 1;
    }
    proof {
        lemma_insert_position(views(sorted@), t@, at as int);
        assert(views(sorted@.insert(at as int, t)) =~= views(sorted@).insert(at as int, t@));
    }
    sorted.insert(at, t);
}

impl Account {
    #[verifier::type_invariant]
    spec fn all_records_valid(self) -> bool {
        forall|i: int| 0 <= i < self.records@.len() ==> (#[trigger] self.records@[i])@.valid()
    }

    /// A new account without transactions.
    pub fn new(name: &str, currency: &str) -> (account: Account)
        ensures
            account@ == AccountView::empty(name@, currency@),
    {
        let account = Account {
            name: String::from_str(name),
            currency: String::from_str(currency),
            records: Vec::new(),
        };
        assert(views(account.records@) =~= Seq::empty());
        account
    }

    /// An account with the given log, or `InvalidInput` where one of the
    /// transactions is not valid.
    pub fn with_records(name: String, currency: String, records: Vec<Transaction>) -> (made: Result<
        Account,
        Error,
    >)
        ensures
            match made {
                Ok(account) => account@ == (AccountView {
                    name: name@,
                    currency: currency@,
                    records: views(records@),
                }) && account@.valid(),
                Err(e) => e == Error::InvalidInput && !(AccountView {
                    name: name@,
                    currency: currency@,
                    records: views(records@),
                }).valid(),
            },
    {
        let mut i: usize = 0;
        while i < records.len()
            invariant
                0 <= i <= records@.len(),
                forall|k: int| 0 <= k < i ==> (#[trigger] records@[k])@.valid(),
            decreases records@.len() - i,
        {
            if !records[i].is_valid() {
                proof {
                    let whole = AccountView {
                        name: name@,
                        currency: currency@,
                        records: views(records@),
                    };
                    assert(!whole.records[i as int].valid());
                }
                return Err(Error::InvalidInput);
            }
            i += 1;
        }
        assert forall|k: int| 0 <= k < views(records@).len() implies (#[trigger] views(
            records@,
        )[k]).valid() by {
            assert(records@[k]@.valid());
        }
        Ok(Account { name, currency, records })
    }

    /// An account with a log of which every transaction is known to be valid.
    pub(crate) fn from_valid_records(name: String, currency: String, records: Vec<Transaction>) -> (account:
        Account)
        requires
            forall|i: int| 0 <= i < records@.len() ==> (#[trigger] records@[i])@.valid(),
        ensures
            account@ == (AccountView { name: name@, currency: currency@, records: views(records@) }),
    {
        Account { name, currency, records }
    }

    pub fn name(&self) -> (name: &str)
        ensures
            name@ == self@.name,
    {
        self.name.as_str()
    }

    pub fn currency(&self) -> (currency: &str)
        ensures
            currency@ == self@.currency,
    {
        self.currency.as_str()
    }

    /// The log, in the order in which the transactions were appended.
    pub fn records(&self) -> (records: &Vec<Transaction>)
        ensures
            views(records@) == self@.records,
            self@.valid(),
    {
        proof {
            use_type_invariant(self);
            assert forall|i: int| 0 <= i < self@.records.len() implies (#[trigger] self@.records[i]).valid() by {
                assert(self.records@[i]@.valid());
            }
        }
        &self.records
    }

    /// The number of transactions in the log.
    pub fn len(&self) -> (len: usize)
        ensures
            len == self@.records.len(),
    {
        self.records.len()
    }

    /// Appends `t` to the log. A transaction that is not valid is refused
    /// with `InvalidInput`, and the account stays as it was.
    pub fn push_transaction(&mut self, t: Transaction) -> (done: Result<(), Error>)
        ensures
            t@.valid() ==> done is Ok && final(self)@ == old(self)@.append(t@),
            !t@.valid() ==> done == Err::<(), Error>(Error::InvalidInput) && final(self)@ == old(
                self,
            )@,
    {
        if !t.is_valid() {
            return Err(Error::InvalidInput);
        }
        proof {
            use_type_invariant(&*self);
        }
        let mut records: Vec<Transaction> = Vec::new();
        std::mem::swap(&mut records, &mut self.records);
        let ghost before = records@;
        records.push(t);
        assert(views(records@) =~= views(before).push(t@));
        self.records = records;
        Ok(())
    }

    /// The transactions dated from `start` to `end`, both days included, in
    /// chronological order; transactions of one day in the order in which
    /// they were appended. A bound that is absent does not restrict.
    pub fn transactions_between(&self, start: Option<Date>, end: Option<Date>) -> (found: Vec<
        Transaction,
    >)
        ensures
            views(found@) == sort_by_date(select(self@.records, Filter::range(start, end))),
            chronological(views(found@)),
    {
        let ghost filter = Filter::range(start, end);
        let mut found: Vec<Transaction> = Vec::new();
        let mut i: usize = 0;
        proof {
            lemma_select_empty(filter);
            assert(views(self.records@).take(0) =~= Seq::empty());
            assert(views(found@) =~= Seq::empty());
        }
        while i < self.records.len()
            invariant
                0 <= i <= self.records@.len(),
                filter == Filter::range(start, end),
                views(found@) == sort_by_date(select(views(self.records@).take(i as int), filter)),
            decreases self.records@.len() - i,
        {
            let t = &self.records[i];
            proof {
                let seen = views(self.records@).take(i as int);
                assert(views(self.records@).take(i + 1) =~= seen.push(t@));
                lemma_select_push(seen, t@, filter);
                if filter.accepts(t@) {
                    assert(select(seen, filter).push(t@).drop_last() =~= select(seen, filter));
                }
            }
            if date_in_range(&t.date(), &start, &end) {
                insert_sorted(&mut found, t.clone());
            }
            i += 1;
        }
        proof {
            assert(views(self.records@).take(i as int) =~= views(self.records@));
            lemma_sort_by_date(select(views(self.records@), filter));
        }
        found
    }
}

/// Replaces the record at `index` of the log by `t`: an edit is a new record
/// in the place of an old one. An index outside the log and a transaction
/// that is not valid are refused with `InvalidInput`, and the account stays
/// as it was.
pub fn update_transaction(account: &mut Account, index: usize, t: Transaction) -> (done: Result<
    (),
    Error,
>)
    ensures
        index < old(account)@.records.len() && t@.valid() ==> done is Ok && final(account)@ == old(
            account,
        )@.replace(index as int, t@),
        !(index < old(account)@.records.len() && t@.valid()) ==> done == Err::<(), Error>(
            Error::InvalidInput,
        ) && final(account)@ == old(account)@,
{
    if index >= account.records.len() || !t.is_valid() {
        return Err(Error::InvalidInput);
    }
    proof {
        use_type_invariant(&*account);
    }
    let mut records: Vec<Transaction> = Vec::new();
    std::mem::swap(&mut records, &mut account.records);
    let ghost before = records@;
    records.set(index, t);
    assert(views(records@) =~= views(before).update(index as int, t@));
    account.records = records;
    Ok(())
}

} // verus!
