//! A ledger store: the transaction log of one account, its persisted form,
//! and the queries that filter the log and fold it into a balance.

pub mod account;
pub mod amount;
pub mod args;
pub mod chart;
pub mod codec;
pub mod date;
pub mod error;
pub mod format;
pub mod input;
pub mod ledger;
pub mod persist;
pub mod query;
pub mod record;
pub mod show;
pub mod tags;
pub mod text;
pub mod transaction;

pub use account::{update_transaction, Account};
pub use args::setup_args;
pub use chart::build;
pub use error::{CommandError, Error};
pub use ledger::{
    add_transaction, balance, get_transactions, BalanceOptions, TransactionOptions,
};
pub use record::Record;
