//! Decoder for bencode, the length-prefixed serialization format used by
//! peer-to-peer metadata files: byte strings, integers, lists and
//! dictionaries, decoded into a `Value` tree.
//!
//! Grammar, over bytes:
//!
//! ```text
//! value       := byte_string | integer | list | dict
//! byte_string := digits ":" <N raw bytes>     N = the value of digits
//! integer     := "i" ["-"] digits "e"
//! list        := "l" value+ "e"
//! dict        := "d" (byte_string value)+ "e"
//! ```
//!
//! Policy choices:
//! - an empty list `le` or dictionary `de` is rejected with
//!   `EmptyCollectionRejected`;
//! - digits are taken as written: `007` is 7 and `-0` is 0;
//! - a repeated dictionary key keeps the value read last, in the place where
//!   the key was first read;
//! - an integer outside the `i64` range fails with `SignedOverflow`, and a
//!   digit run beyond `u64` with `NumericOverflow`.
//!
//! The module `grammar` states the format as spec functions; every reader in
//! `decode` is proved to return exactly what the grammar gives.
use vstd::prelude::*;

pub mod value;
pub mod grammar;
pub mod decode;
pub mod laws;

pub use decode::{dict, integer, list, string, value};
pub use value::{DecodeError, Node, Value};
