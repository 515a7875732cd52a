//! Readiness-based I/O event registry for a `poll(2)`-style selector.

use vstd::prelude::*;

pub mod error;
pub mod event;
pub mod interest;
pub mod io_source;
pub mod pipe;
pub mod selector;
pub mod state;
pub mod token;

verus! {

} // verus!
