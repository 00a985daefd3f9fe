//! Showing the balance of an account that is named on the command line.

use crate::args::{arg_views, Arg};
use crate::error::Error;
use crate::ledger::sum_amounts;
use crate::query::total;
use crate::record::{document_of, load_result, Record};
use vstd::prelude::*;
use vstd::string::*;

verus! {

/// What asking for a balance comes to. Exactly one argument, the name of
/// the account, is accepted: the balance is the sum over the log and cannot
/// be set, so a second argument is as invalid as none.
pub open spec fn balance_result(
    store: Map<Seq<char>, Seq<u8>>,
    args: Seq<(Seq<char>, bool)>,
) -> Result<int, Error> {
    if args.len() != 1 {
        Err(Error::InvalidInput)
    } else {
        match load_result(document_of(store, args[0].0)) {
            Ok(account) => Ok(total(account.records)),
            Err(e) => Err(e),
        }
    }
}

/// The balance of the account that `args` names, loaded from `rd`.
pub fn balance(rd: &Record, args: &Vec<Arg>) -> (shown: Result<i128, Error>)
    ensures
        match balance_result(rd@, arg_views(args@)) {
            Ok(sum) => shown matches Ok(v) && v == sum,
            Err(e) => shown matches Err(x) && x == e,
        },
{
    if args.len() != 1 {
        return Err(Error::InvalidInput);
    }
    assert(arg_views(args@)[0].0 == args@[0].value@);
    match rd.load(args[0].value.as_str()) {
        Ok(account) => Ok(sum_amounts(account.records())),
        Err(e) => Err(e),
    }
}

} // verus!
