//! Transaction records: one dated monetary event each.

use crate::date::Date;
use crate::error::Error;
use crate::tags::{ascending, is_ascending};
use crate::text::{contains_text, copy_texts, texts};
use vstd::prelude::*;
use vstd::string::*;

verus! {

/// The direction of a transaction.
#[derive(Clone, Copy, Debug, PartialEq, Eq, Structural)]
pub enum Kind {
    /// Money that came in: it counts positive in a balance.
    Income,
    /// Money that went out: it counts negative in a balance.
    Spending,
}

/// What a transaction is about: when it happened, how much money moved, and
/// how it is labelled.
#[derive(Debug)]
pub struct Item {
    pub date: Date,
    /// The magnitude of the transaction in minor units of the account's
    /// currency (cents); the direction is the transaction's kind.
    pub amount: i64,
    pub description: String,
    /// The labels of the transaction. They are a set: a valid item holds
    /// them in ascending order, each once, so that a set has one form only.
    pub tags: Vec<String>,
}

/// The mathematical content of an [`Item`].
pub struct ItemView {
    pub date: Date,
    pub amount: int,
    pub description: Seq<char>,
    pub tags: Seq<Seq<char>>,
}

impl ItemView {
    /// What an item must satisfy to be recorded: a day that exists, a
    /// positive amount, a description, and its tags in canonical order
    /// (ascending, none twice).
    pub open spec fn valid(self) -> bool {
        &&& self.date.valid()
        &&& 0 < self.amount <= i64::MAX
        &&& self.description.len() > 0
        &&& ascending(self.tags)
    }

    pub open spec fn has_tag(self, label: Seq<char>) -> bool {
        self.tags.contains(label)
    }
}

impl View for Item {
    type V = ItemView;

    open spec fn view(&self) -> ItemView {
        ItemView {
            date: self.date,
            amount: self.amount as int,
            description: self.description@,
            tags: texts(self.tags@),
        }
    }
}

impl Clone for Item {
    fn clone(&self) -> (copy: Self)
        ensures
            copy@ == self@,
    {
        Item {
            date: self.date,
            amount: self.amount,
            description: self.description.clone(),
            tags: copy_texts(&self.tags),
        }
    }
}

impl Item {
    pub fn is_valid(&self) -> (ok: bool)
        ensures
            ok == self@.valid(),
    {
        self.date.is_valid() && self.amount > 0 && !self.description.as_str().is_empty()
            && is_ascending(&self.tags)
    }

    pub fn has_tag(&self, label: &str) -> (found: bool)
        ensures
            found == self@.has_tag(label@),
    {
        contains_text(&self.tags, label)
    }
}

/// One monetary event of an account.
#[derive(Debug)]
pub enum Transaction {
    Income(Item),
    Spending(Item),
}

/// The mathematical content of a [`Transaction`].
pub struct TransactionView {
    pub kind: Kind,
    pub item: ItemView,
}

impl TransactionView {
    /// The amount as it counts in a balance: positive for income, negative
    /// for spending.
    pub open spec fn amount(self) -> int {
        match self.kind {
            Kind::Income => self.item.amount,
            Kind::Spending => -self.item.amount,
        }
    }

    pub open spec fn date(self) -> Date {
        self.item.date
    }

    pub open spec fn has_tag(self, label: Seq<char>) -> bool {
        self.item.has_tag(label)
    }

    pub open spec fn valid(self) -> bool {
        self.item.valid()
    }
}

impl View for Transaction {
    type V = TransactionView;

    open spec fn view(&self) -> TransactionView {
        match self {
            Transaction::Income(item) => TransactionView { kind: Kind::Income, item: item@ },
            Transaction::Spending(item) => TransactionView { kind: Kind::Spending, item: item@ },
        }
    }
}

impl Clone for Transaction {
    fn clone(&self) -> (copy: Self)
        ensures
            copy@ == self@,
    {
        match self {
            Transaction::Income(item) => Transaction::Income(item.clone()),
            Transaction::Spending(item) => Transaction::Spending(item.clone()),
        }
    }
}

impl Transaction {
    /// A transaction of the given kind, or `InvalidInput` where the item may
    /// not be recorded.
    pub fn new(kind: Kind, item: Item) -> (made: Result<Transaction, Error>)
        ensures
            item@.valid() ==> (made matches Ok(t) && t@ == (TransactionView { kind, item: item@ })),
            !item@.valid() ==> made matches Err(Error::InvalidInput),
    {
        if !item.is_valid() {
            return Err(Error::InvalidInput);
        }
        match kind {
            Kind::Income => Ok(Transaction::Income(item)),
            Kind::Spending => Ok(Transaction::Spending(item)),
        }
    }

    pub fn kind(&self) -> (kind: Kind)
        ensures
            kind == self@.kind,
    {
        match self {
            Transaction::Income(_) => Kind::Income,
            Transaction::Spending(_) => Kind::Spending,
        }
    }

    pub fn item(&self) -> (item: &Item)
        ensures
            item@ == self@.item,
    {
        match self {
            Transaction::Income(item) => item,
            Transaction::Spending(item) => item,
        }
    }

    pub fn date(&self) -> (date: Date)
        ensures
            date == self@.date(),
    {
        self.item().date
    }

    /// The amount as it counts in a balance, in minor units.
    pub fn amount(&self) -> (amount: i128)
        ensures
            amount == self@.amount(),
    {
        match self {
            Transaction::Income(item) => item.amount as i128,
            Transaction::Spending(item) => -(item.amount as i128),
        }
    }

    pub fn has_tag(&self, label: &str) -> (found: bool)
        ensures
            found == self@.has_tag(label@),
    {
        self.item().has_tag(label)
    }

    pub fn is_valid(&self) -> (ok: bool)
        ensures
            ok == self@.valid(),
    {
        self.item().is_valid()
    }
}

/// The mathematical content of each transaction of a list.
pub open spec fn views(list: Seq<Transaction>) -> Seq<TransactionView> {
    list.map_values(|t: Transaction| t@)
}

} // verus!
