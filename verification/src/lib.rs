//! A small LSM-tree key-value store.
//!
//! - [`memtable`]: the in-memory ordered write buffer
//! - [`wal`]: the write-ahead log record format and its replay
//! - [`sstable`]: the immutable sorted table format, its writer and reader
//! - [`engine`]: the read and write paths that combine the layers
//!
//! Files and directories are handled by the caller: the library works on
//! byte buffers and reports which bytes have to reach which file.

pub mod keys;
pub mod checksum;
pub mod memtable;
pub mod record;
pub mod wal;
pub mod sstable;
pub mod engine;

pub use engine::LsmEngine;


use vstd::prelude::*;

verus! {

#[verifier::external_type_specification]
#[verifier::external_body]
pub struct ExIoError(std::io::Error);

/// The error type of the store.
#[derive(Debug)]
pub enum Error {
    /// A failure of the underlying storage.
    Io(std::io::Error),
    /// Stored bytes that do not have the expected shape.
    Corruption(String),
    /// A requested key is absent.
    KeyNotFound,
}

pub type Result<T> = core::result::Result<T, Error>;

impl From<std::io::Error> for Error {
    fn from(e: std::io::Error) -> (r: Error) {
        Error::Io(e)
    }
}

impl vstd::std_specs::convert::FromSpecImpl<std::io::Error> for Error {
    open spec fn obeys_from_spec() -> bool {
        true
    }

    open spec fn from_spec(e: std::io::Error) -> Error {
        Error::Io(e)
    }
}

impl Error {
    /// The text of the error, as its display form reads.
    pub fn message(&self) -> (s: String)
        ensures
            match self {
                Error::Io(_) => s@.len() >= "IO error: "@.len() && s@.subrange(0, "IO error: "@.len() as int) == "IO error: "@,
                Error::Corruption(msg) => s@ == "Data corruption: "@ + msg@,
                Error::KeyNotFound => s@ == "Key not found"@,
            },
    {
        match self {
            Error::Io(e) => {
                let r = String::from_str("IO error: ").concat(io_error_text(e).as_str());
                proof {
                    assert(r@.subrange(0, "IO error: "@.len() as int) =~= "IO error: "@);
                }
                r
            },
            Error::Corruption(msg) => String::from_str("Data corruption: ").concat(msg.as_str()),
            Error::KeyNotFound => String::from_str("Key not found"),
        }
    }
}

/// The display text of an I/O error, as `std::io::Error`'s `Display` writes it.
#[verifier::external_body]
fn io_error_text(e: &std::io::Error) -> String {
    format!("{}", e)
}

/// Builds the error for a read that ran past the end of the stored bytes.
#[verifier::external_body]
pub(crate) fn unexpected_eof() -> (e: std::io::Error) {
    std::io::Error::from(std::io::ErrorKind::UnexpectedEof)
}

} // verus!
