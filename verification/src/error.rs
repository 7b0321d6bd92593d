//! The error taxonomy callers see: a missing vault or note, a path
//! problem, a storage rejection, or an I/O failure. No error here is
//! fatal to the process.

use vstd::prelude::*;
use crate::indexer::IndexError;
use crate::store::StoreError;

verus! {

/// The library's error type.
#[derive(Debug)]
pub enum ChronicleError {
    /// The vault directory does not exist.
    VaultNotFound(String),
    /// No note at the given path is indexed.
    NoteNotFound(String),
    /// A note at the given path already exists.
    NoteExists(String),
    /// The given path cannot be used.
    InvalidPath(String),
    /// No vault is open.
    NoVaultOpen,
    /// The store rejected a write or query.
    Database(String),
    /// A file could not be read or written.
    Io(String),
}

impl ChronicleError {
    /// A short description: the error's kind, then the offending value.
    pub fn message(&self) -> (r: String)
        ensures
            match self {
                ChronicleError::VaultNotFound(p) => r@ == "Vault not found: "@ + p@,
                ChronicleError::NoteNotFound(p) => r@ == "Note not found: "@ + p@,
                ChronicleError::NoteExists(p) => r@ == "Note already exists: "@ + p@,
                ChronicleError::InvalidPath(p) => r@ == "Invalid path: "@ + p@,
                ChronicleError::NoVaultOpen => r@ == "No vault is open"@,
                ChronicleError::Database(e) => r@ == "Database error: "@ + e@,
                ChronicleError::Io(e) => r@ == "IO error: "@ + e@,
            },
    {
        match self {
            ChronicleError::VaultNotFound(p) => String::from_str("Vault not found: ").concat(
                p.as_str(),
            ),
            ChronicleError::NoteNotFound(p) => String::from_str("Note not found: ").concat(
                p.as_str(),
            ),
            ChronicleError::NoteExists(p) => String::from_str("Note already exists: ").concat(
                p.as_str(),
            ),
            ChronicleError::InvalidPath(p) => String::from_str("Invalid path: ").concat(
                p.as_str(),
            ),
            ChronicleError::NoVaultOpen => String::from_str("No vault is open"),
            ChronicleError::Database(e) => String::from_str("Database error: ").concat(
                e.as_str(),
            ),
            ChronicleError::Io(e) => String::from_str("IO error: ").concat(e.as_str()),
        }
    }

    /// An indexing error, under the caller-facing taxonomy.
    pub fn from_index_error(e: IndexError) -> (r: ChronicleError)
        ensures
            match e {
                IndexError::VaultNotFound(p) => r == ChronicleError::VaultNotFound(p),
                IndexError::Storage(s) => r == ChronicleError::Database(s),
                IndexError::Io(s) => r == ChronicleError::Io(s),
            },
    {
        match e {
            IndexError::VaultNotFound(p) => ChronicleError::VaultNotFound(p),
            IndexError::Storage(s) => ChronicleError::Database(s),
            IndexError::Io(s) => ChronicleError::Io(s),
        }
    }

    /// A store rejection, under the caller-facing taxonomy.
    pub fn from_store_error(e: StoreError) -> (r: ChronicleError)
        ensures
            ({
                match r {
                    ChronicleError::Database(s) => match e {
                        StoreError::IdsExhausted => s@ == "identifiers exhausted"@,
                        StoreError::MissingRow => s@ == "referenced row is missing"@,
                        StoreError::DuplicatePath => s@ == "path already present"@,
                    },
                    _ => false,
                }
            }),
    {
        match e {
            StoreError::IdsExhausted => ChronicleError::Database(
                String::from_str("identifiers exhausted"),
            ),
            StoreError::MissingRow => ChronicleError::Database(
                String::from_str("referenced row is missing"),
            ),
            StoreError::DuplicatePath => ChronicleError::Database(
                String::from_str("path already present"),
            ),
        }
    }
}

} // verus!
