//! Aliquot sequences: repeated replacement of a number by the sum of its
//! proper divisors, classified into a closed set of terminal behaviours
//! (a prime, a perfect number, an amicable or sociable cycle, convergence
//! to 1, an aspiring run into a perfect number, a run into a foreign
//! cycle, or an unresolved tail), with a bounded memo cache so that the
//! suffixes of one classified sequence answer later starting numbers.

pub mod error;
pub mod render;
pub mod sums;
pub mod classification;
pub mod cache;
pub mod generator;

pub use crate::error::AliquotError;
pub use crate::classification::AliquotSeq;
pub use crate::cache::Cache;
pub use crate::generator::Generator;
