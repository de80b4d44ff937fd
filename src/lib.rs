//! A parser for the object syntax of PDF documents: header, indirect objects,
//! cross-reference tables and trailer, with every production proved against a
//! mathematical grammar over byte sequences.
use vstd::prelude::*;

pub mod error;
pub mod laws;
pub mod object;
pub mod parser;
pub mod utils;

verus! {

} // verus!
