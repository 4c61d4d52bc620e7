//! Verified core of the BadgerOS kernel: memory management, process
//! bookkeeping and the system-call ABI, stated over mathematical models.
use vstd::prelude::*;

pub mod config;
pub mod errno;
pub mod kcore;
pub mod mem;
pub mod misc;
pub mod process;
pub mod uapi;

verus! {

} // verus!
