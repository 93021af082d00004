use vstd::prelude::*;

verus! {

/// The failure taxonomy of the storage engine.
///
/// "Not found" is never an error: lookups that find nothing return an empty
/// or absent result instead.
#[derive(Clone, Copy, Debug, PartialEq, Eq, Structural)]
pub enum StorageError {
    /// The database file could not be opened or the schema could not be
    /// applied; fatal at startup.
    InitFailed,
    /// The system clock could not produce a timestamp; the write was aborted
    /// and no state changed.
    ClockError,
    /// A write transaction could not complete; it was rolled back and the
    /// caller should treat the write as not having happened.
    WriteFailed,
    /// A read could not execute; prior state is untouched.
    QueryFailed,
}

impl StorageError {
    /// A short diagnostic text for the calling layer to present.
    pub fn message(&self) -> (r: &'static str)
        ensures
            self is InitFailed ==> r@ == "failed to open or initialize the database"@,
            self is ClockError ==> r@ == "system clock could not produce a timestamp"@,
            self is WriteFailed ==> r@ == "write transaction failed and was rolled back"@,
            self is QueryFailed ==> r@ == "query could not execute"@,
    {
        match self {
            StorageError::InitFailed => "failed to open or initialize the database",
            StorageError::ClockError => "system clock could not produce a timestamp",
            StorageError::WriteFailed => "write transaction failed and was rolled back",
            StorageError::QueryFailed => "query could not execute",
        }
    }
}

} // verus!
