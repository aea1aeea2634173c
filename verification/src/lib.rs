//! The verified core of `dupfinder`, a tool that finds duplicate files.
//!
//! Files are compared by signature: their size and a hash of their
//! contents. A search hashes only the files that still share a signature
//! with another file, first their first 4 KiB, then their last 4 KiB, and
//! only then their whole contents. The library holds the hashers, the
//! rounds of the search, the report's groups and totals, the progress
//! display's decisions, and the integer measurements of the hasher's
//! quality; reading files, threads, clocks and the terminal are left to the
//! program around it.
use vstd::prelude::*;

pub mod bytes;
pub mod hash;
pub mod seeded;
pub mod order;
pub mod slice;
pub mod count;
pub mod fs;
pub mod files;
pub mod state;
pub mod report;
pub mod fmt;
pub mod term;
pub mod sample;
pub mod quality;

verus! {

} // verus!
