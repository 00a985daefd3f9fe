//! The failures that the ledger store reports, each with a fixed message.

use vstd::prelude::*;
use vstd::string::*;

verus! {

/// What can go wrong while an account is created, loaded, changed or saved.
#[derive(Clone, Copy, Debug, PartialEq, Eq, Structural)]
pub enum Error {
    /// No persisted state exists for the requested account.
    NotFound,
    /// An account of that name already has persisted state.
    AlreadyExists,
    /// The persisted bytes are not a document of the supported version.
    Corrupt,
    /// A date, an amount or a description handed in by the caller is malformed.
    InvalidInput,
    /// The underlying storage failed to read or write.
    IoFailure,
    /// The account is held by another writer; the caller may try again.
    LockContention,
}

impl Error {
    /// The message shown for this error.
    pub open spec fn message_text(self) -> Seq<char> {
        match self {
            Error::NotFound => "Account not found"@,
            Error::AlreadyExists => "Account already exists"@,
            Error::Corrupt => "Account data is corrupt"@,
            Error::InvalidInput => "Invalid input"@,
            Error::IoFailure => "Storage failure"@,
            Error::LockContention => "Account is busy, try again"@,
        }
    }

    /// Whether the caller may repeat the operation without a human stepping in.
    pub open spec fn retryable(self) -> bool {
        self == Error::LockContention
    }

    pub fn message(&self) -> (text: String)
        ensures
            text@ == self.message_text(),
    {
        match self {
            Error::NotFound => String::from_str("Account not found"),
            Error::AlreadyExists => String::from_str("Account already exists"),
            Error::Corrupt => String::from_str("Account data is corrupt"),
            Error::InvalidInput => String::from_str("Invalid input"),
            Error::IoFailure => String::from_str("Storage failure"),
            Error::LockContention => String::from_str("Account is busy, try again"),
        }
    }

    pub fn is_retryable(&self) -> (retry: bool)
        ensures
            retry == self.retryable(),
    {
        match self {
            Error::LockContention => true,
            _ => false,
        }
    }
}

/// Two different errors never share a message.
pub proof fn lemma_messages_distinct(a: Error, b: Error)
    requires
        a != b,
    ensures
        a.message_text() != b.message_text(),
{
    reveal_strlit("Account not found");
    reveal_strlit("Account already exists");
    reveal_strlit("Account data is corrupt");
    reveal_strlit("Invalid input");
    reveal_strlit("Storage failure");
    reveal_strlit("Account is busy, try again");
    assert(Error::NotFound.message_text().len() == 17);
    assert(Error::AlreadyExists.message_text().len() == 22);
    assert(Error::Corrupt.message_text().len() == 23);
    assert(Error::InvalidInput.message_text().len() == 13);
    assert(Error::IoFailure.message_text().len() == 15);
    assert(Error::LockContention.message_text().len() == 26);
}

/// An error of a command, with the account it was working on.
#[derive(Debug)]
pub enum CommandError {
    /// The account of the given name could not be created, loaded or saved.
    Account(String, Error),
    /// A transaction was refused.
    Operation(Error),
    /// The given text is not a date.
    InvalidDate(String),
}

impl CommandError {
    /// The message shown for this error: where an account is concerned its
    /// name comes first.
    pub open spec fn message_text(self) -> Seq<char> {
        match self {
            CommandError::Account(name, error) => "Account '"@ + name@ + "': "@
                + error.message_text(),
            CommandError::Operation(error) => error.message_text(),
            CommandError::InvalidDate(text) => "Invalid date '"@ + text@ + "'"@,
        }
    }

    pub fn message(&self) -> (text: String)
        ensures
            text@ == self.message_text(),
    {
        match self {
            CommandError::Account(name, error) => {
                let mut text = String::from_str("Account '");
                text.append(name.as_str());
                text.append("': ");
                text.append(error.message().as_str());
                text
            },
            CommandError::Operation(error) => error.message(),
            CommandError::InvalidDate(given) => {
                let mut text = String::from_str("Invalid date '");
                text.append(given.as_str());
                text.append("'");
                text
            },
        }
    }
}

impl From<Error> for CommandError {
    fn from(value: Error) -> (error: CommandError) {
        CommandError::Operation(value)
    }
}

impl vstd::std_specs::convert::FromSpecImpl<Error> for CommandError {
    open spec fn obeys_from_spec() -> bool {
        true
    }

    open spec fn from_spec(value: Error) -> CommandError {
        CommandError::Operation(value)
    }
}

} // verus!
