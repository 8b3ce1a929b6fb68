//! Error kinds of the secrets store and of the service around it.

use vstd::prelude::*;

verus! {

/// What can go wrong inside a secrets store.
#[derive(Debug, Clone)]
pub enum SecretStoreError {
    /// AEAD verification failed, a length was wrong or a header or stored
    /// blob was malformed.
    Cipher(String),
    /// The passphrase given to `unlock` did not open the sealed private key.
    InvalidPassphrase,
    /// The unlocking identity is not among a block's recipients.
    NoRecipient,
    /// A secret operation was attempted while the store is locked.
    Locked,
    /// `unlock` was attempted while the store is already unlocked.
    AlreadyUnlocked,
    /// No secret or block under the given id.
    NotFound,
    /// A serialized secret version failed structural validation.
    InvalidVersion(String),
    /// An identity with the same id already exists in the ring.
    Conflict,
    /// Reading or writing the underlying storage failed.
    IO(String),
}

impl SecretStoreError {
    /// A short display text for this error.
    pub fn message(&self) -> (r: String)
        ensures
            true,
    {
        match self {
            SecretStoreError::Cipher(detail) => {
                let mut m = String::new();
                m.push_str("cipher error: ");
                m.push_str(detail.as_str());
                m
            },
            SecretStoreError::InvalidPassphrase => String::from_str("invalid passphrase"),
            SecretStoreError::NoRecipient => String::from_str("not a recipient"),
            SecretStoreError::Locked => String::from_str("store is locked"),
            SecretStoreError::AlreadyUnlocked => String::from_str("store is already unlocked"),
            SecretStoreError::NotFound => String::from_str("not found"),
            SecretStoreError::InvalidVersion(detail) => {
                let mut m = String::new();
                m.push_str("invalid secret version: ");
                m.push_str(detail.as_str());
                m
            },
            SecretStoreError::Conflict => String::from_str("identity already exists"),
            SecretStoreError::IO(detail) => {
                let mut m = String::new();
                m.push_str("io error: ");
                m.push_str(detail.as_str());
                m
            },
        }
    }
}

/// What can go wrong at the service level.
#[derive(Debug, Clone)]
pub enum ServiceError {
    /// No store configuration under the given name.
    StoreNotFound(String),
    /// The platform lacks the requested capability.
    NotAvailable,
    /// An operation on the underlying secrets store failed.
    SecretsStore(SecretStoreError),
}

impl ServiceError {
    /// A short display text for this error.
    pub fn message(&self) -> (r: String)
        ensures
            true,
    {
        match self {
            ServiceError::StoreNotFound(name) => {
                let mut m = String::new();
                m.push_str("store not found: ");
                m.push_str(name.as_str());
                m
            },
            ServiceError::NotAvailable => String::from_str("not available on this platform"),
            ServiceError::SecretsStore(e) => e.message(),
        }
    }
}

} // verus!
