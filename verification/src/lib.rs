//! A KeePass-style encrypted vault: binary header parsing, key
//! derivation, authenticated body decryption, inner document decoding,
//! and the hierarchical group/entry model with its query and mutation
//! operations.

pub mod body;
pub mod bytes;
pub mod cipher;
pub mod crypto;
pub mod document;
pub mod error;
pub mod header;
pub mod kdf;
pub mod keepass;
pub mod model;
pub mod mutate;
