//! A family of sequence containers with indexed access, insertion and
//! deletion: growable arrays, circular-buffer deques, linked lists, and a
//! space-efficient list built from a chain of bounded circular blocks.
//!
//! Every container is modelled by a mathematical sequence (its view); each
//! operation's contract states exactly how the view changes.

use vstd::prelude::*;

pub mod array;
pub mod facts;
pub mod list;

verus! {

/// The single error kind of the whole library: a requested index falls
/// outside the range that is currently valid for the requested operation.
#[derive(Clone, Copy, PartialEq, Eq, Structural, Debug)]
pub struct IndexOutOfRange;

} // verus!
