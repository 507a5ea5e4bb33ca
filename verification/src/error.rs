//! What can go wrong in the store.

use vstd::prelude::*;

verus! {

/// `std::io::Error`, a failure that the operating system reports. The store
/// passes it on and never looks inside.
#[verifier::external_type_specification]
#[verifier::external_body]
pub struct ExIoError(std::io::Error);

/// Why an operation of the store failed. Paths are byte strings.
#[derive(Debug)]
pub enum Error {
    /// An input or output operation failed.
    Io(std::io::Error),
    /// The file is not a valid sorted table.
    CorruptSsTable { path: Vec<u8>, detail: String },
    /// The write-ahead log is damaged before its last complete record.
    CorruptWal { path: Vec<u8>, detail: String },
    /// Another process holds the lock of the directory.
    DatabaseDirectoryAlreadyInUse { path: Vec<u8> },
    /// The key's length does not fit in 32 bits.
    KeyTooLong { len: usize },
    /// The value's length does not fit in 32 bits.
    ValueTooLong { len: usize },
}

/// The result of an operation of the store.
pub type Result<T> = std::result::Result<T, Error>;

/// An `Error` as a value.
pub enum ErrorView {
    Io(std::io::Error),
    CorruptSsTable { path: Seq<u8>, detail: Seq<char> },
    CorruptWal { path: Seq<u8>, detail: Seq<char> },
    DatabaseDirectoryAlreadyInUse { path: Seq<u8> },
    KeyTooLong { len: nat },
    ValueTooLong { len: nat },
}

impl View for Error {
    type V = ErrorView;

    open spec fn view(&self) -> ErrorView {
        match self {
            Error::Io(error) => ErrorView::Io(*error),
            Error::CorruptSsTable { path, detail } => ErrorView::CorruptSsTable {
                path: path@,
                detail: detail@,
            },
            Error::CorruptWal { path, detail } => ErrorView::CorruptWal {
                path: path@,
                detail: detail@,
            },
            Error::DatabaseDirectoryAlreadyInUse { path } => {
                ErrorView::DatabaseDirectoryAlreadyInUse { path: path@ }
            },
            Error::KeyTooLong { len } => ErrorView::KeyTooLong { len: *len as nat },
            Error::ValueTooLong { len } => ErrorView::ValueTooLong { len: *len as nat },
        }
    }
}

} // verus!
