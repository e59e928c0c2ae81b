//! The errors of the library.
use vstd::prelude::*;
use vstd::string::*;

verus! {

/// What a storage backend or a key protector reported: its text, and the status
/// code of the operating system where it gave one.
#[derive(Debug)]
pub struct ErrorSource {
    pub code: Option<i32>,
    pub message: String,
}

/// Everything that can go wrong while XSec is used.
#[derive(Debug)]
#[non_exhaustive]
pub enum XSecError {
    NotFound,
    AlreadyExists,
    StorageNotLoaded,
    AlreadyLoaded,
    NotInitialized,
    Locked,
    Destroyed,
    AlreadyUnlocked,
    AuthenticationFailed,
    AuthenticationCancelled,
    WindowsHelloNotSupported,
    WindowsHelloNotConfigured,
    ProviderNotSupported,
    UserVerificationRequired,
    SystemProtectorUnavailable,
    SystemAuthenticationNotConfigured,
    SystemKeyNotFound,
    SystemKeyInvalidated,
    IncompatibleSystemProtector,
    Corrupted,
    InvalidCiphertext,
    UnsupportedVersion,
    UnsupportedAlgorithm,
    ProtectorNotFound,
    ProtectorAlreadyExists,
    LastProtector,
    Storage { source: ErrorSource },
    Protector { source: ErrorSource },
    Crypto,
}

pub type XSecResult<T> = Result<T, XSecError>;

impl ErrorSource {
    /// A source with a text and no status code.
    pub fn new(message: String) -> (source: Self)
        ensures
            source.code is None,
            source.message == message,
    {
        ErrorSource { code: None, message }
    }

    /// A source with the status code that the operating system gave.
    pub fn with_code(code: i32, message: String) -> (source: Self)
        ensures
            source.code == Some(code),
            source.message == message,
    {
        ErrorSource { code: Some(code), message }
    }
}

impl XSecError {
    /// The text shown for the error.
    pub open spec fn text(self) -> Seq<char> {
        match self {
            XSecError::NotFound => "XSec metadata was not found"@,
            XSecError::AlreadyExists => "XSec metadata already exists"@,
            XSecError::StorageNotLoaded => "XSec storage has not been loaded"@,
            XSecError::AlreadyLoaded => "XSec storage has already been loaded"@,
            XSecError::NotInitialized => "XSec is not initialized"@,
            XSecError::Locked => "XSec is locked"@,
            XSecError::Destroyed => "XSec has been destroyed"@,
            XSecError::AlreadyUnlocked => "XSec is already unlocked"@,
            XSecError::AuthenticationFailed => "authentication failed"@,
            XSecError::AuthenticationCancelled => "authentication was cancelled"@,
            XSecError::WindowsHelloNotSupported => "Windows Hello is not supported"@,
            XSecError::WindowsHelloNotConfigured => "Windows Hello is not configured"@,
            XSecError::ProviderNotSupported =>
                "the cryptographic provider does not support required user verification"@,
            XSecError::UserVerificationRequired => "user verification is required"@,
            XSecError::SystemProtectorUnavailable => "the system protector is unavailable"@,
            XSecError::SystemAuthenticationNotConfigured =>
                "system authentication is not configured"@,
            XSecError::SystemKeyNotFound => "the system key was not found"@,
            XSecError::SystemKeyInvalidated => "the system key has been invalidated"@,
            XSecError::IncompatibleSystemProtector =>
                "the key is protected by an incompatible system protector"@,
            XSecError::Corrupted => "XSec metadata is corrupted"@,
            XSecError::InvalidCiphertext => "ciphertext is invalid"@,
            XSecError::UnsupportedVersion => "format version is unsupported"@,
            XSecError::UnsupportedAlgorithm => "algorithm is unsupported"@,
            XSecError::ProtectorNotFound => "key protector was not found"@,
            XSecError::ProtectorAlreadyExists => "key protector already exists"@,
            XSecError::LastProtector => "the last key protector cannot be removed"@,
            XSecError::Storage { source } => "storage error: "@ + source.message@,
            XSecError::Protector { source } => "key protector error: "@ + source.message@,
            XSecError::Crypto => "cryptographic operation failed"@,
        }
    }

    /// Wraps what a storage backend reported.
    pub fn storage(source: ErrorSource) -> (error: Self)
        ensures
            error == (XSecError::Storage { source }),
    {
        XSecError::Storage { source }
    }

    /// Wraps what a key protector reported.
    pub fn protector(source: ErrorSource) -> (error: Self)
        ensures
            error == (XSecError::Protector { source }),
    {
        XSecError::Protector { source }
    }

    /// Renders the error for people.
    pub fn message(&self) -> (text: String)
        ensures
            text@ == self.text(),
    {
        match self {
            XSecError::NotFound => "XSec metadata was not found".to_owned(),
            XSecError::AlreadyExists => "XSec metadata already exists".to_owned(),
            XSecError::StorageNotLoaded => "XSec storage has not been loaded".to_owned(),
            XSecError::AlreadyLoaded => "XSec storage has already been loaded".to_owned(),
            XSecError::NotInitialized => "XSec is not initialized".to_owned(),
            XSecError::Locked => "XSec is locked".to_owned(),
            XSecError::Destroyed => "XSec has been destroyed".to_owned(),
            XSecError::AlreadyUnlocked => "XSec is already unlocked".to_owned(),
            XSecError::AuthenticationFailed => "authentication failed".to_owned(),
            XSecError::AuthenticationCancelled => "authentication was cancelled".to_owned(),
            XSecError::WindowsHelloNotSupported => "Windows Hello is not supported".to_owned(),
            XSecError::WindowsHelloNotConfigured => "Windows Hello is not configured".to_owned(),
            XSecError::ProviderNotSupported =>
                "the cryptographic provider does not support required user verification".to_owned(),
            XSecError::UserVerificationRequired => "user verification is required".to_owned(),
            XSecError::SystemProtectorUnavailable =>
                "the system protector is unavailable".to_owned(),
            XSecError::SystemAuthenticationNotConfigured =>
                "system authentication is not configured".to_owned(),
            XSecError::SystemKeyNotFound => "the system key was not found".to_owned(),
            XSecError::SystemKeyInvalidated => "the system key has been invalidated".to_owned(),
            XSecError::IncompatibleSystemProtector =>
                "the key is protected by an incompatible system protector".to_owned(),
            XSecError::Corrupted => "XSec metadata is corrupted".to_owned(),
            XSecError::InvalidCiphertext => "ciphertext is invalid".to_owned(),
            XSecError::UnsupportedVersion => "format version is unsupported".to_owned(),
            XSecError::UnsupportedAlgorithm => "algorithm is unsupported".to_owned(),
            XSecError::ProtectorNotFound => "key protector was not found".to_owned(),
            XSecError::ProtectorAlreadyExists => "key protector already exists".to_owned(),
            XSecError::LastProtector => "the last key protector cannot be removed".to_owned(),
            XSecError::Storage { source } => {
                let mut text: String = "storage error: ".to_owned();
                text.append(source.message.as_str());
                text
            },
            XSecError::Protector { source } => {
                let mut text: String = "key protector error: ".to_owned();
                text.append(source.message.as_str());
                text
            },
            XSecError::Crypto => "cryptographic operation failed".to_owned(),
        }
    }
}

} // verus!
