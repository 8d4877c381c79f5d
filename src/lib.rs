//! A shell bridge and a directory snapshot, each split into the part that
//! decides or computes (here, verified) and the part that talks to the
//! operating system (left to the host program).
use vstd::prelude::*;

pub mod lines;
pub mod terminal;
pub mod tree;

verus! {

} // verus!
