//! Verified core of a Bitcoin Core block explorer: number and text
//! formatting for the page templates, the search decision procedure,
//! and the bookkeeping around JSON-RPC batches.
use vstd::prelude::*;

pub mod decimal;
pub mod grouping;
pub mod search;
pub mod batch;
pub mod chain;
pub mod clock;
pub mod filters;
mod text;

verus! {

} // verus!
