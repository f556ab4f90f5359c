//! Content-addressed audio mosaicing: blocks of samples are fingerprinted
//! into short keys, indexed, and replaced by same-keyed blocks from a set of
//! source recordings.
use vstd::prelude::*;

pub mod brain;
pub mod hashed;
pub mod mosaic;
pub mod quantize;

verus! {

} // verus!
