//! Type names.
use vstd::prelude::*;

verus! {

/// Any type of the target language. A type name is an identifier only and
/// does not model the values of the type.
#[derive(Clone, Copy, Debug)]
pub struct TypeName {}

} // verus!
