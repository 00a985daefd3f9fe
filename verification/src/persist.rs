//! The discipline of saving: the steps that replace a persisted document
//! without ever leaving it half written, and when to try again.
//!
//! The caller performs each step on the storage and reports whether it
//! went well; the next step follows from that. The new bytes are written to
//! a temporary place beside the destination, made durable, and only then
//! put in the place of the destination in one move.

use crate::error::Error;
use crate::text::{ends_with, text_ends_with};
use vstd::prelude::*;
use vstd::string::*;

verus! {

/// How far a save has come.
#[derive(Clone, Copy, Debug, PartialEq, Eq, Structural)]
pub enum SaveState {
    /// Nothing was done yet.
    Start,
    /// The temporary place holds the new bytes.
    Written,
    /// The new bytes in the temporary place are durable.
    Synced,
    /// A step failed; the temporary place is still to be cleared.
    Failed,
    /// The destination holds the new bytes.
    Saved,
    /// The save was given up; the destination is as it was.
    Aborted,
}

/// What the caller is to do next.
#[derive(Clone, Copy, Debug, PartialEq, Eq, Structural)]
pub enum Action {
    /// Write the new bytes to the temporary place.
    WriteTemp,
    /// Flush the temporary place to stable storage.
    SyncTemp,
    /// Move the temporary place over the destination, atomically.
    ReplaceDestination,
    /// Remove the temporary place.
    RemoveTemp,
    /// Stop: the save succeeded.
    ReportSaved,
    /// Stop: the save failed, and the caller reports `IoFailure`.
    ReportFailure,
}

/// How often an operation that met `LockContention` is tried again before
/// the error is reported.
pub const RETRY_BUDGET: u32 = 3;

impl SaveState {
    pub open spec fn next_action(self) -> Action {
        match self {
            SaveState::Start => Action::WriteTemp,
            SaveState::Written => Action::SyncTemp,
            SaveState::Synced => Action::ReplaceDestination,
            SaveState::Failed => Action::RemoveTemp,
            SaveState::Saved => Action::ReportSaved,
            SaveState::Aborted => Action::ReportFailure,
        }
    }

    /// The state after the action of this state was performed; `ok` says
    /// whether it went well.
    pub open spec fn after(self, ok: bool) -> SaveState {
        match self {
            SaveState::Start => if ok {
                SaveState::Written
            } else {
                SaveState::Failed
            },
            SaveState::Written => if ok {
                SaveState::Synced
            } else {
                SaveState::Failed
            },
            SaveState::Synced => if ok {
                SaveState::Saved
            } else {
                SaveState::Failed
            },
            SaveState::Failed => SaveState::Aborted,
            SaveState::Saved => SaveState::Saved,
            SaveState::Aborted => SaveState::Aborted,
        }
    }

    pub open spec fn finished(self) -> bool {
        self == SaveState::Saved || self == SaveState::Aborted
    }

    /// What the save comes to once it is finished.
    pub open spec fn outcome(self) -> Result<(), Error> {
        if self == SaveState::Saved {
            Ok(())
        } else {
            Err(Error::IoFailure)
        }
    }

    pub fn start() -> (state: SaveState)
        ensures
            state == SaveState::Start,
    {
        SaveState::Start
    }

    /// What is to be done in this state.
    pub fn action(&self) -> (action: Action)
        ensures
            action == self.next_action(),
    {
        match self {
            SaveState::Start => Action::WriteTemp,
            SaveState::Written => Action::SyncTemp,
            SaveState::Synced => Action::ReplaceDestination,
            SaveState::Failed => Action::RemoveTemp,
            SaveState::Saved => Action::ReportSaved,
            SaveState::Aborted => Action::ReportFailure,
        }
    }

    /// The state that follows once the action of this state was performed.
    /// A failure is never retried: a failed step leads to clearing the
    /// temporary place and then to giving up.
    pub fn advance(self, ok: bool) -> (next: SaveState)
        ensures
            next == self.after(ok),
    {
        match self {
            SaveState::Start => if ok {
                SaveState::Written
            } else {
                SaveState::Failed
            },
            SaveState::Written => if ok {
                SaveState::Synced
            } else {
                SaveState::Failed
            },
            SaveState::Synced => if ok {
                SaveState::Saved
            } else {
                SaveState::Failed
            },
            SaveState::Failed => SaveState::Aborted,
            SaveState::Saved => SaveState::Saved,
            SaveState::Aborted => SaveState::Aborted,
        }
    }

    pub fn is_finished(&self) -> (done: bool)
        ensures
            done == self.finished(),
    {
        match self {
            SaveState::Saved => true,
            SaveState::Aborted => true,
            _ => false,
        }
    }

    /// The result to report once the save is finished.
    pub fn result(&self) -> (result: Result<(), Error>)
        ensures
            result == self.outcome(),
    {
        match self {
            SaveState::Saved => Ok(()),
            _ => Err(Error::IoFailure),
        }
    }
}

/// Whether an operation that failed with `error` is tried once more, after
/// `attempts` tries: only contention is retried, and only within the budget.
pub fn should_retry(error: Error, attempts: u32) -> (again: bool)
    ensures
        again == (error.retryable() && attempts < RETRY_BUDGET),
{
    error.is_retryable() && attempts < RETRY_BUDGET
}

/// A model of the two places on the storage that a save touches.
pub struct Disk {
    /// What the destination holds; `None` where it does not exist.
    pub destination: Option<Seq<u8>>,
    /// What the temporary place holds; `None` where it does not exist.
    pub temp: Option<Seq<u8>>,
}

/// What an action does to the storage. A write that fails may leave
/// anything in the temporary place (`debris`); a move or a removal that
/// fails leaves everything as it was. No action but a move that succeeds
/// touches the destination.
pub open spec fn effect(
    action: Action,
    ok: bool,
    disk: Disk,
    new: Seq<u8>,
    debris: Option<Seq<u8>>,
) -> Disk {
    match action {
        Action::WriteTemp => Disk { temp: if ok { Some(new) } else { debris }, ..disk },
        Action::SyncTemp => disk,
        Action::ReplaceDestination => if ok {
            Disk { destination: disk.temp, temp: None }
        } else {
            disk
        },
        Action::RemoveTemp => if ok {
            Disk { temp: None, ..disk }
        } else {
            disk
        },
        Action::ReportSaved => disk,
        Action::ReportFailure => disk,
    }
}

/// What holds of the storage in each state of a save that is to put `new`
/// in the place of `old`.
pub open spec fn consistent(state: SaveState, disk: Disk, old: Option<Seq<u8>>, new: Seq<u8>) -> bool {
    match state {
        SaveState::Start => disk.destination == old,
        SaveState::Written => disk.destination == old && disk.temp == Some(new),
        SaveState::Synced => disk.destination == old && disk.temp == Some(new),
        SaveState::Failed => disk.destination == old,
        SaveState::Saved => disk.destination == Some(new),
        SaveState::Aborted => disk.destination == old,
    }
}

/// The state and the storage after a run of steps, each with its outcome
/// and with what a failed write would leave behind.
pub open spec fn run(
    state: SaveState,
    disk: Disk,
    new: Seq<u8>,
    outcomes: Seq<(bool, Option<Seq<u8>>)>,
) -> (SaveState, Disk)
    decreases outcomes.len(),
{
    if outcomes.len() == 0 {
        (state, disk)
    } else {
        let (before, storage) = run(state, disk, new, outcomes.drop_last());
        let (ok, debris) = outcomes.last();
        (before.after(ok), effect(before.next_action(), ok, storage, new, debris))
    }
}

/// One step of a save keeps the storage consistent, whether it succeeds or
/// fails.
pub proof fn lemma_step_consistent(
    state: SaveState,
    ok: bool,
    disk: Disk,
    old: Option<Seq<u8>>,
    new: Seq<u8>,
    debris: Option<Seq<u8>>,
)
    requires
        consistent(state, disk, old, new),
    ensures
        consistent(state.after(ok), effect(state.next_action(), ok, disk, new, debris), old, new),
{
}

/// Atomic replacement: whatever steps of a save fail, and wherever it is
/// interrupted, the destination holds either the whole old document or the
/// whole new one. It holds the new one once the save has succeeded, and the
/// old one as long as it has not.
pub proof fn lemma_destination_never_partial(
    disk: Disk,
    new: Seq<u8>,
    outcomes: Seq<(bool, Option<Seq<u8>>)>,
)
    ensures
        ({
            let (state, storage) = run(SaveState::Start, disk, new, outcomes);
            &&& consistent(state, storage, disk.destination, new)
            &&& storage.destination == if state == SaveState::Saved {
                Some(new)
            } else {
                disk.destination
            }
        }),
    decreases outcomes.len(),
{
    if outcomes.len() > 0 {
        lemma_destination_never_partial(disk, new, outcomes.drop_last());
        let (before, storage) = run(SaveState::Start, disk, new, outcomes.drop_last());
        let (ok, debris) = outcomes.last();
        lemma_step_consistent(before, ok, storage, disk.destination, new, debris);
    }
}

/// A save is over after four steps at most.
pub proof fn lemma_save_ends(first: bool, second: bool, third: bool, fourth: bool)
    ensures
        SaveState::Start.after(first).after(second).after(third).after(fourth).finished(),
        SaveState::Start.after(true).after(true).after(true) == SaveState::Saved,
{
}

/// Whether a file name is that of a helper file of a save, a temporary
/// place or a lock, and not that of an account.
pub open spec fn helper_name(name: Seq<char>) -> bool {
    ends_with(name, ".tmp"@) || ends_with(name, ".lock"@)
}

/// The name of the temporary place beside the file `name`.
pub fn temp_name(name: &str) -> (temp: String)
    ensures
        temp@ == name@ + ".tmp"@,
{
    let mut temp = String::from_str(name);
    temp.append(".tmp");
    temp
}

/// The name of the lock beside the file `name`.
pub fn lock_name(name: &str) -> (lock: String)
    ensures
        lock@ == name@ + ".lock"@,
{
    let mut lock = String::from_str(name);
    lock.append(".lock");
    lock
}

/// Whether a file of the accounts directory is an account: every file is,
/// but the temporary places and the locks that a save puts beside one.
pub fn is_account_name(name: &str) -> (account: bool)
    ensures
        account == !helper_name(name@),
{
    !text_ends_with(name, ".tmp") && !text_ends_with(name, ".lock")
}

/// The temporary place and the lock of a file are never taken for
/// accounts.
pub proof fn lemma_helpers_are_no_accounts(name: Seq<char>)
    ensures
        helper_name(name + ".tmp"@),
        helper_name(name + ".lock"@),
{
    let temp = name + ".tmp"@;
    assert(temp.skip(temp.len() - ".tmp"@.len()) =~= ".tmp"@);
    let lock = name + ".lock"@;
    assert(lock.skip(lock.len() - ".lock"@.len()) =~= ".lock"@);
}

} // verus!
