//! Verified columnar table transforms: transposing selected columns into
//! row-keyed JSON records, partitioning a table into fixed-size row chunks,
//! and combining tables by equi-join or row-wise union.
//!
//! A [`table::Table`] is an ordered sequence of named, equal-length columns
//! of [`value::Value`] cells. Every transform carries a contract over the
//! table's mathematical model and is verified against it: what it returns,
//! on which inputs it succeeds, and which error each rejected input earns.

pub mod combine;
pub mod errors;
pub mod join;
pub mod json;
pub mod partition;
pub mod record;
pub mod table;
pub mod transpose;
pub mod value;

use vstd::prelude::*;

verus! {

} // verus!
