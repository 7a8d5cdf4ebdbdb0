//! The errors of the library.

use vstd::prelude::*;

use crate::text::concat;

verus! {

/// Everything that an operation on a vault can fail with.
#[derive(Clone, Debug, PartialEq, Eq)]
pub enum BunkerError {
    VaultNotFound(String),
    EntryNotFound(String),
    VaultExists(String),
    InvalidPassword,
    SessionExpired,
    NoSession,
    DecryptFailure,
    EncryptFailure,
    KdfFailure,
    IoError(String),
    SerializationError(String),
    ConfigError(String),
    ChecksumMismatch,
    ImportError(String),
    ExportError(String),
    HistoryStoreError(String),
    ClipboardError(String),
    Other(String),
}

/// The mathematical value of a [`BunkerError`].
pub enum BunkerErrorView {
    VaultNotFound(Seq<char>),
    EntryNotFound(Seq<char>),
    VaultExists(Seq<char>),
    InvalidPassword,
    SessionExpired,
    NoSession,
    DecryptFailure,
    EncryptFailure,
    KdfFailure,
    IoError(Seq<char>),
    SerializationError(Seq<char>),
    ConfigError(Seq<char>),
    ChecksumMismatch,
    ImportError(Seq<char>),
    ExportError(Seq<char>),
    HistoryStoreError(Seq<char>),
    ClipboardError(Seq<char>),
    Other(Seq<char>),
}

impl View for BunkerError {
    type V = BunkerErrorView;

    open spec fn view(&self) -> BunkerErrorView {
        match self {
            BunkerError::VaultNotFound(s) => BunkerErrorView::VaultNotFound(s@),
            BunkerError::EntryNotFound(s) => BunkerErrorView::EntryNotFound(s@),
            BunkerError::VaultExists(s) => BunkerErrorView::VaultExists(s@),
            BunkerError::InvalidPassword => BunkerErrorView::InvalidPassword,
            BunkerError::SessionExpired => BunkerErrorView::SessionExpired,
            BunkerError::NoSession => BunkerErrorView::NoSession,
            BunkerError::DecryptFailure => BunkerErrorView::DecryptFailure,
            BunkerError::EncryptFailure => BunkerErrorView::EncryptFailure,
            BunkerError::KdfFailure => BunkerErrorView::KdfFailure,
            BunkerError::IoError(s) => BunkerErrorView::IoError(s@),
            BunkerError::SerializationError(s) => BunkerErrorView::SerializationError(s@),
            BunkerError::ConfigError(s) => BunkerErrorView::ConfigError(s@),
            BunkerError::ChecksumMismatch => BunkerErrorView::ChecksumMismatch,
            BunkerError::ImportError(s) => BunkerErrorView::ImportError(s@),
            BunkerError::ExportError(s) => BunkerErrorView::ExportError(s@),
            BunkerError::HistoryStoreError(s) => BunkerErrorView::HistoryStoreError(s@),
            BunkerError::ClipboardError(s) => BunkerErrorView::ClipboardError(s@),
            BunkerError::Other(s) => BunkerErrorView::Other(s@),
        }
    }
}

impl BunkerErrorView {
    /// The message for an error: what kind it is, and the name or the
    /// reason that goes with it. A wrong password and a failed decryption
    /// read the same.
    pub open spec fn message(self) -> Seq<char> {
        match self {
            BunkerErrorView::VaultNotFound(s) => "Vault not found: "@ + s,
            BunkerErrorView::EntryNotFound(s) => "Entry not found: "@ + s,
            BunkerErrorView::VaultExists(s) => "Vault already exists: "@ + s,
            BunkerErrorView::InvalidPassword => "Invalid password or corrupted data"@,
            BunkerErrorView::SessionExpired => "Session expired"@,
            BunkerErrorView::NoSession => "No active session"@,
            BunkerErrorView::DecryptFailure => "Invalid password or corrupted data"@,
            BunkerErrorView::EncryptFailure => "Encryption failed"@,
            BunkerErrorView::KdfFailure => "Key derivation failed"@,
            BunkerErrorView::IoError(s) => "IO error: "@ + s,
            BunkerErrorView::SerializationError(s) => "Serialization error: "@ + s,
            BunkerErrorView::ConfigError(s) => "Configuration error: "@ + s,
            BunkerErrorView::ChecksumMismatch => "Checksum verification failed"@,
            BunkerErrorView::ImportError(s) => "Import error: "@ + s,
            BunkerErrorView::ExportError(s) => "Export error: "@ + s,
            BunkerErrorView::HistoryStoreError(s) => "History store error: "@ + s,
            BunkerErrorView::ClipboardError(s) => "Clipboard error: "@ + s,
            BunkerErrorView::Other(s) => s,
        }
    }
}

impl BunkerError {
    /// The message for the error.
    pub fn message(&self) -> (r: String)
        ensures
            r@ == self@.message(),
    {
        match self {
            BunkerError::VaultNotFound(s) => concat("Vault not found: ", s.as_str()),
            BunkerError::EntryNotFound(s) => concat("Entry not found: ", s.as_str()),
            BunkerError::VaultExists(s) => concat("Vault already exists: ", s.as_str()),
            BunkerError::InvalidPassword => "Invalid password or corrupted data".to_string(),
            BunkerError::SessionExpired => "Session expired".to_string(),
            BunkerError::NoSession => "No active session".to_string(),
            BunkerError::DecryptFailure => "Invalid password or corrupted data".to_string(),
            BunkerError::EncryptFailure => "Encryption failed".to_string(),
            BunkerError::KdfFailure => "Key derivation failed".to_string(),
            BunkerError::IoError(s) => concat("IO error: ", s.as_str()),
            BunkerError::SerializationError(s) => concat("Serialization error: ", s.as_str()),
            BunkerError::ConfigError(s) => concat("Configuration error: ", s.as_str()),
            BunkerError::ChecksumMismatch => "Checksum verification failed".to_string(),
            BunkerError::ImportError(s) => concat("Import error: ", s.as_str()),
            BunkerError::ExportError(s) => concat("Export error: ", s.as_str()),
            BunkerError::HistoryStoreError(s) => concat("History store error: ", s.as_str()),
            BunkerError::ClipboardError(s) => concat("Clipboard error: ", s.as_str()),
            BunkerError::Other(s) => s.clone(),
        }
    }
}

} // verus!
