//! First-match subset-sum search over caller-encoded numbers.
//!
//! The searcher enumerates index-increasing combinations of an input
//! sequence in depth-first, shallowest-first order and returns the first
//! combination whose running sum the caller's arithmetic accepts as equal
//! to the target.  Numbers are carried as opaque 64-bit encodings; the
//! caller supplies the arithmetic (addition, the match test, and the
//! pruning comparison) as closures, so the search logic is verified
//! independently of the number representation.

pub mod arith;
pub mod reader;
pub mod search;
pub mod writer;
