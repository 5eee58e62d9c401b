//! Typed failures of the two transfer directions, and the `(kind, message)`
//! rendering that the notification sink receives.
//!
//! Rate-limit responses never appear here: they are retried locally and do
//! not surface.  Cancellation is not an error either; it has its own event.

use crate::text::{dec_of, string_push_str, u64_to_string};
use vstd::prelude::*;

verus! {

/// An AEAD authentication failure (corrupted data or the wrong key).
#[derive(Debug)]
pub struct CryptoError {}

/// Canned message for a connection that could not be opened.
pub open spec fn connect_message() -> Seq<char> {
    "Could not open a connection. Check your internet connection and try again."@
}

/// Canned message for a connection that timed out.
pub open spec fn timeout_message() -> Seq<char> {
    "Connection timed out. Check your internet connection and try again."@
}

/// Why an upload job failed.
#[derive(Debug)]
pub enum UploadError {
    /// A local filesystem failure, with the OS error text.
    Io(String),
    /// A network-level failure; connect and timeout failures are
    /// distinguished so the sink can phrase them.
    Transport { connect: bool, timeout: bool, message: String },
    /// The remote store rejected the credentials.
    Unauthorized,
    /// The remote store refused access.
    Forbidden,
    /// The remote destination does not exist.
    NotFound,
    /// Any other non-success response: status code and body text.
    Unknown(u16, String),
    /// An orchestration task was lost before it reported.
    JoinError,
}

/// The kind tag an upload error is delivered under.
pub open spec fn upload_error_kind(e: UploadError) -> Seq<char> {
    match e {
        UploadError::Io(_) => "Io"@,
        UploadError::Transport { .. } => "Reqwest"@,
        UploadError::Unauthorized => "Unauthorized"@,
        UploadError::Forbidden => "Forbidden"@,
        UploadError::NotFound => "NotFound"@,
        UploadError::Unknown(_, _) => "Unknown"@,
        UploadError::JoinError => "JoinError"@,
    }
}

/// The message text an upload error is delivered with.
pub open spec fn upload_error_message(e: UploadError) -> Seq<char> {
    match e {
        UploadError::Io(m) => m@,
        UploadError::Transport { connect, timeout, message } => if connect {
            connect_message()
        } else if timeout {
            timeout_message()
        } else {
            message@
        },
        UploadError::Unauthorized => ""@,
        UploadError::Forbidden => ""@,
        UploadError::NotFound => ""@,
        UploadError::Unknown(code, m) => dec_of(code as int) + " - "@ + m@,
        UploadError::JoinError => ""@,
    }
}

impl UploadError {
    /// The `(kind, message)` pair the notification sink receives.
    pub fn serialize(&self) -> (r: (String, String))
        ensures
            r.0@ == upload_error_kind(*self),
            r.1@ == upload_error_message(*self),
    {
        match self {
            UploadError::Io(m) => ("Io".to_owned(), m.clone()),
            UploadError::Transport { connect, timeout, message } => {
                let msg: String = if *connect {
                    "Could not open a connection. Check your internet connection and try again.".to_owned()
                } else if *timeout {
                    "Connection timed out. Check your internet connection and try again.".to_owned()
                } else {
                    message.clone()
                };
                ("Reqwest".to_owned(), msg)
            },
            UploadError::Unauthorized => ("Unauthorized".to_owned(), "".to_owned()),
            UploadError::Forbidden => ("Forbidden".to_owned(), "".to_owned()),
            UploadError::NotFound => ("NotFound".to_owned(), "".to_owned()),
            UploadError::Unknown(code, m) => {
                let mut msg = u64_to_string(*code as u64);
                string_push_str(&mut msg, " - ");
                string_push_str(&mut msg, m.as_str());
                ("Unknown".to_owned(), msg)
            },
            UploadError::JoinError => ("JoinError".to_owned(), "".to_owned()),
        }
    }
}

/// Why a download job failed.
#[derive(Debug)]
pub enum DownloadError {
    /// A local filesystem failure, with the OS error text.
    Io(String),
    /// A network-level failure; connect and timeout failures are
    /// distinguished so the sink can phrase them.
    Transport { connect: bool, timeout: bool, message: String },
    /// The remote store rejected the credentials.
    Unauthorized,
    /// The remote store refused access.
    Forbidden,
    /// A remote object does not exist.
    NotFound,
    /// Any other non-success response: status code and body text.
    Unknown(u16, String),
    /// The requested file id is absent from the local records.
    NotFoundLocal,
    /// A cluster's message handle no longer resolves remotely.
    NotFoundRemote,
    /// An orchestration task was lost before it reported.
    JoinError,
    /// The downloaded file's checksum differs from the stored one:
    /// expected, then actual.
    ChecksumMismatch(u32, u32),
    /// AEAD authentication failed while decrypting, with the cipher's text.
    EncryptionError(String),
}

/// The kind tag a download error is delivered under.
pub open spec fn download_error_kind(e: DownloadError) -> Seq<char> {
    match e {
        DownloadError::Io(_) => "Io"@,
        DownloadError::Transport { .. } => "Reqwest"@,
        DownloadError::Unauthorized => "Unauthorized"@,
        DownloadError::Forbidden => "Forbidden"@,
        DownloadError::NotFound => "NotFound"@,
        DownloadError::Unknown(_, _) => ""@,
        DownloadError::NotFoundLocal => "NotFoundLocal"@,
        DownloadError::NotFoundRemote => "NotFoundRemote"@,
        DownloadError::JoinError => "JoinError"@,
        DownloadError::ChecksumMismatch(_, _) => "ChecksumMismatch"@,
        DownloadError::EncryptionError(_) => "EncryptionError"@,
    }
}

/// The message text a download error is delivered with.
pub open spec fn download_error_message(e: DownloadError) -> Seq<char> {
    match e {
        DownloadError::Io(m) => m@,
        DownloadError::Transport { connect, timeout, message } => if connect {
            connect_message()
        } else if timeout {
            timeout_message()
        } else {
            message@
        },
        DownloadError::Unauthorized => ""@,
        DownloadError::Forbidden => ""@,
        DownloadError::NotFound => ""@,
        DownloadError::Unknown(code, m) => dec_of(code as int) + " "@ + m@,
        DownloadError::NotFoundLocal => ""@,
        DownloadError::NotFoundRemote => ""@,
        DownloadError::JoinError => ""@,
        DownloadError::ChecksumMismatch(expected, actual) => "Expected: "@ + dec_of(
            expected as int,
        ) + ", Actual: "@ + dec_of(actual as int),
        DownloadError::EncryptionError(m) => m@,
    }
}

impl DownloadError {
    /// The `(kind, message)` pair the notification sink receives.
    pub fn serialize(&self) -> (r: (String, String))
        ensures
            r.0@ == download_error_kind(*self),
            r.1@ == download_error_message(*self),
    {
        match self {
            DownloadError::Io(m) => ("Io".to_owned(), m.clone()),
            DownloadError::Transport { connect, timeout, message } => {
                let msg: String = if *connect {
                    "Could not open a connection. Check your internet connection and try again.".to_owned()
                } else if *timeout {
                    "Connection timed out. Check your internet connection and try again.".to_owned()
                } else {
                    message.clone()
                };
                ("Reqwest".to_owned(), msg)
            },
            DownloadError::Unauthorized => ("Unauthorized".to_owned(), "".to_owned()),
            DownloadError::Forbidden => ("Forbidden".to_owned(), "".to_owned()),
            DownloadError::NotFound => ("NotFound".to_owned(), "".to_owned()),
            DownloadError::Unknown(code, m) => {
                let mut msg = u64_to_string(*code as u64);
                string_push_str(&mut msg, " ");
                string_push_str(&mut msg, m.as_str());
                ("".to_owned(), msg)
            },
            DownloadError::NotFoundLocal => ("NotFoundLocal".to_owned(), "".to_owned()),
            DownloadError::NotFoundRemote => ("NotFoundRemote".to_owned(), "".to_owned()),
            DownloadError::JoinError => ("JoinError".to_owned(), "".to_owned()),
            DownloadError::ChecksumMismatch(expected, actual) => {
                let mut msg = "Expected: ".to_owned();
                let e = u64_to_string(*expected as u64);
                string_push_str(&mut msg, e.as_str());
                string_push_str(&mut msg, ", Actual: ");
                let a = u64_to_string(*actual as u64);
                string_push_str(&mut msg, a.as_str());
                ("ChecksumMismatch".to_owned(), msg)
            },
            DownloadError::EncryptionError(m) => ("EncryptionError".to_owned(), m.clone()),
        }
    }
}

/// The error a failed decrypt surfaces as, carrying the cipher's own text.
pub fn crypto_to_download(_e: CryptoError) -> (r: DownloadError)
    ensures
        r matches DownloadError::EncryptionError(m) && m@ == "aead::Error"@,
{
    DownloadError::EncryptionError("aead::Error".to_owned())
}

} // verus!
