//! Rebuilds a git repository from a web server that exposes its `.git`
//! directory: parsers for the files found there, the derivation of further
//! paths to fetch, and the scheduler that drives a bounded crawl.

use vstd::prelude::*;

pub mod crawl;
pub mod parsing;
pub mod paths;
pub mod text;

verus! {

} // verus!
