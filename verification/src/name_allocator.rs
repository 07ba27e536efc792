//! Allocation of identifiers that do not collide.
use vstd::prelude::*;

verus! {

/// Assigns identifier names so that they avoid collisions, keywords and
/// invalid characters.
#[derive(Clone, Copy, Debug)]
pub struct NameAllocator {}

} // verus!
