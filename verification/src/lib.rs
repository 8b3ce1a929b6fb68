//! A local, multi-identity secrets manager core: envelope encryption
//! (X25519 + ChaCha20-Poly1305), a passphrase-sealed identity keyring,
//! a content-addressed block log, a lockable secrets store with an
//! in-memory index, a debounced clipboard provider and a service-level
//! store registry.

pub mod api;
pub mod block;
pub mod block_store;
pub mod cipher;
pub mod clipboard;
pub mod codec;
pub mod crypto;
pub mod error;
pub mod memguard;
pub mod secrets_store;
pub mod service;
pub mod util;
pub mod wire;
