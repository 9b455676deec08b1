//! The errors that the store's operations return.

use vstd::prelude::*;

verus! {

/// Every failure the store reports.
#[derive(Debug, Clone, PartialEq, Eq)]
pub enum BoltError {
    /// An option was given a value that cannot be used.
    Config(String),
    /// The host could not read or write the file.
    Io(String),
    /// The file could not be grown.
    ResizeFail,
    /// A managed transaction was committed or rolled back by hand.
    TxManaged,
    /// A cursor stack was empty where a position was needed.
    StackEmpty,
    /// A consistency check failed.
    CheckFailed(String),
    /// A page or a value does not hold what its layout requires.
    Unexpected(&'static str),
    /// The database was used before it was opened or after it was closed.
    DatabaseNotOpen,
    /// Neither meta page is valid: the file is not a database.
    Invalid,
    /// The file could not be mapped.
    InvalidMapping,
    /// The file was written by another version of the format.
    VersionMismatch,
    /// A meta page's checksum does not match its contents.
    Checksum,
    /// The file lock was not obtained in time.
    Timeout,
    /// A write was attempted in a read-only transaction.
    TxNotWritable,
    /// The transaction was already committed or rolled back.
    TxClosed,
    /// A writing transaction was asked of a read-only database.
    DatabaseReadOnly,
    /// The free pages of a read-only database were not loaded.
    FreePagesNotLoaded,
    /// No bucket has the given name.
    BucketNotFound,
    /// A bucket with the given name already exists.
    BucketExists,
    /// A bucket name was empty.
    BucketNameRequired,
    /// A key was empty.
    KeyRequired,
    /// A key is longer than the largest key allowed.
    KeyTooLarge,
    /// A value is longer than the largest value allowed.
    ValueTooLarge,
    /// A plain value was used as a bucket or a bucket as a plain value.
    IncompatibleValue,
    /// A bucket was moved into the bucket it is in.
    SameBuckets,
    /// A bucket was moved between two databases.
    DifferentDB,
}

} // verus!
