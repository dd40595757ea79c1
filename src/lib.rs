//! A content-addressed object store for a minimal version-control backend:
//! blobs, trees and commits, their canonical encoding, and the plans that
//! persist and materialise them.

pub mod checkout;
pub mod codec;
pub mod decode;
pub mod hex;
pub mod laws;
pub mod object;
pub mod round_trip;
pub mod sort;
pub mod store;
pub mod text;
