//! Decoding of DER/BER structures (as found in X.509 certificates and PKCS
//! containers) into a tree of typed records, with the codecs it relies on:
//! object identifiers between BER arcs and dotted text, and lowercase hex.

pub mod der;
pub mod error;
pub mod hex;
pub mod names;
pub mod oid;
mod text;
pub mod time;
pub mod tree;
pub mod value;
