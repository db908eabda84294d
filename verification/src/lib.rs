//! An indentation-sensitive, line-oriented configuration format: keys,
//! scalars and nested list blocks parse into a generic tree value, and a
//! serializer renders such a tree back to canonical indented text.
//!
//! The pipeline is: raw bytes -> lines -> structural parser (which lexes
//! each scalar token) -> `BellandeValue` tree -> serializer -> raw bytes.
//! File access itself is left to the caller.

pub mod value;
pub mod text;
pub mod lexer;
pub mod parser;
pub mod serializer;
pub mod laws;
pub mod roundtrip;

use vstd::prelude::*;

verus! {

/// Entry point type for the format: parsing and serialization are methods
/// on this (stateless) struct.
pub struct BellandeFormat;

} // verus!
