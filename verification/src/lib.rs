//! DASL: a strict, deterministic subset of CBOR (DRISL) together with a
//! content-identifier (CID) scheme that addresses immutable data by a
//! cryptographic digest of its canonical encoding.

pub mod base32;
pub mod cid;
pub mod decode;
pub mod encode;
pub mod error;
pub mod laws;
pub mod value;
