//! A verified engine for large-scale, semi-automated text refactors: scan
//! a file for a pattern, resolve a decision for every match in order, and
//! splice the accepted replacements into a new buffer, never touching a
//! byte outside the matched spans. The pattern engine is the regex crate,
//! trusted at a narrow, stated interface; everything that decides and
//! rewrites is proved.

#![verifier::loop_isolation(false)]
use vstd::prelude::*;

pub mod records;
pub mod rewrite;
pub mod decide;
pub mod pattern;
pub mod scan;
pub mod batch;

verus! {

} // verus!
