//! A wordlist-driven HTTP probing engine: URL templates are expanded with
//! candidate words, probed under a concurrency bound, and each outcome is
//! classified against match and filter rules on status, size and lines.
use vstd::prelude::*;

pub mod classify;
pub mod cli;
pub mod dispatch;
pub mod filters;
pub mod fuzz;
pub mod http;
pub mod input;
pub mod output;
pub mod status;
pub mod text;

verus! {

} // verus!
