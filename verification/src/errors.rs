//! What an operation of the store can fail with.

use vstd::prelude::*;
use vstd::std_specs::convert::FromSpecImpl;

verus! {

/// Operating on a key that holds a different structure type.
#[derive(Clone, Copy, Debug, PartialEq, Eq, Structural)]
pub struct WrongType;

/// A score refused because it is not a number, or because a sum is not finite.
#[derive(Clone, Copy, Debug, PartialEq, Eq, Structural)]
pub struct BadScore;

/// A mutation or a transaction call that the state of the store refuses.
#[derive(Clone, Copy, Debug, PartialEq, Eq, Structural)]
pub enum IoError {
    /// The store has been closed.
    StoreClosed,
    /// A transaction is already open.
    TransactionOpen,
    /// No transaction is open.
    NoTransaction,
}

impl IoError {
    /// The message of the error.
    pub open spec fn text(self) -> Seq<char> {
        match self {
            IoError::StoreClosed => "store is closed"@,
            IoError::TransactionOpen => "a transaction is already open"@,
            IoError::NoTransaction => "no transaction is open"@,
        }
    }

    /// The message of the error.
    pub fn message(&self) -> (text: String)
        ensures
            text@ == self.text(),
    {
        match self {
            IoError::StoreClosed => "store is closed".to_owned(),
            IoError::TransactionOpen => "a transaction is already open".to_owned(),
            IoError::NoTransaction => "no transaction is open".to_owned(),
        }
    }
}

/// A structure operation can fail on the type that the key holds, or on the state
/// of the store.
#[derive(Clone, Copy, Debug, PartialEq, Eq, Structural)]
pub enum ListError {
    WrongType,
    Io(IoError),
}

impl ListError {
    /// The message of the error.
    pub open spec fn text(self) -> Seq<char> {
        match self {
            ListError::WrongType => "WRONGTYPE"@,
            ListError::Io(e) => e.text(),
        }
    }

    /// The message of the error.
    pub fn message(&self) -> (text: String)
        ensures
            text@ == self.text(),
    {
        match self {
            ListError::WrongType => "WRONGTYPE".to_owned(),
            ListError::Io(e) => e.message(),
        }
    }
}

impl From<WrongType> for ListError {
    fn from(e: WrongType) -> (out: Self) {
        ListError::WrongType
    }
}

impl FromSpecImpl<WrongType> for ListError {
    open spec fn obeys_from_spec() -> bool {
        true
    }

    open spec fn from_spec(e: WrongType) -> Self {
        ListError::WrongType
    }
}

impl From<IoError> for ListError {
    fn from(e: IoError) -> (out: Self) {
        ListError::Io(e)
    }
}

impl FromSpecImpl<IoError> for ListError {
    open spec fn obeys_from_spec() -> bool {
        true
    }

    open spec fn from_spec(e: IoError) -> Self {
        ListError::Io(e)
    }
}

/// Adding to a sorted set can fail on the type that the key holds, on the score, or
/// on the state of the store.
#[derive(Clone, Copy, Debug, PartialEq, Eq, Structural)]
pub enum ZAddError {
    WrongType,
    BadScore,
    Io(IoError),
}

impl ZAddError {
    /// The message of the error.
    pub open spec fn text(self) -> Seq<char> {
        match self {
            ZAddError::WrongType => "WRONGTYPE"@,
            ZAddError::BadScore => "score is not a valid number"@,
            ZAddError::Io(e) => e.text(),
        }
    }

    /// The message of the error.
    pub fn message(&self) -> (text: String)
        ensures
            text@ == self.text(),
    {
        match self {
            ZAddError::WrongType => "WRONGTYPE".to_owned(),
            ZAddError::BadScore => "score is not a valid number".to_owned(),
            ZAddError::Io(e) => e.message(),
        }
    }
}

impl From<IoError> for ZAddError {
    fn from(e: IoError) -> (out: Self) {
        ZAddError::Io(e)
    }
}

impl FromSpecImpl<IoError> for ZAddError {
    open spec fn obeys_from_spec() -> bool {
        true
    }

    open spec fn from_spec(e: IoError) -> Self {
        ZAddError::Io(e)
    }
}

/// A transaction fails either because its body returned an error, or because it
/// could not be begun or ended.
#[derive(Debug)]
pub enum TxError<E> {
    User(E),
    Io(IoError),
}

/// Why a snapshot cannot be parsed.
#[derive(Debug, PartialEq, Eq)]
pub struct SnapshotError(pub String);

impl SnapshotError {
    /// The message of the error.
    pub fn message(&self) -> (text: String)
        ensures
            text@ == self.0@,
    {
        self.0.clone()
    }
}

/// What replaying a log on startup found.
#[derive(Clone, Copy, Debug, PartialEq, Eq, Structural)]
pub struct Recovery {
    /// Records applied.
    pub applied: u32,
    /// Whether a torn or corrupt tail was found and dropped.
    pub truncated: bool,
}

impl Default for Recovery {
    fn default() -> (out: Self)
        ensures
            out == (Recovery { applied: 0, truncated: false }),
    {
        Recovery { applied: 0, truncated: false }
    }
}

/// What replaying a log on startup found, as a caller of the engine is told.
#[derive(Clone, Copy, Debug, PartialEq, Eq, Structural)]
pub struct RecoveryInfo {
    /// Records applied from the log.
    pub applied: u32,
    /// Whether a torn tail was found and dropped.
    pub truncated: bool,
}

impl From<Recovery> for RecoveryInfo {
    fn from(r: Recovery) -> (out: Self) {
        RecoveryInfo { applied: r.applied, truncated: r.truncated }
    }
}

impl FromSpecImpl<Recovery> for RecoveryInfo {
    open spec fn obeys_from_spec() -> bool {
        true
    }

    open spec fn from_spec(r: Recovery) -> Self {
        RecoveryInfo { applied: r.applied, truncated: r.truncated }
    }
}

} // verus!
