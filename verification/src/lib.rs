//! A binary range (arithmetic) entropy coder.
//!
//! The encoder turns a sequence of bits and CDF-indexed symbols into a compact
//! byte stream; the decoder, fed the same probabilities in the same order,
//! reproduces the original sequence exactly.  Probability tables adapt after
//! each use with identical integer arithmetic on both sides, so no model data
//! is ever transmitted.

#![allow(non_camel_case_types)]

pub mod num;
pub mod cdf;
pub mod enc;
pub mod dec;

pub use cdf::update_cdf;
pub use enc::Writer;
pub use dec::Reader;
