//! The Octane ZIP archive family: a classic layout, a new layout with a
//! hash-indexed header, and the new layout encrypted with AES-128-CTR.

pub mod cipher;
pub mod digest;
pub mod driver;
pub mod key;
pub mod laws;
pub mod records;
pub mod variants;
pub mod writer;
