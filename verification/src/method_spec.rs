//! Declarations of constructors and methods.
use crate::code_block::CodeBlock;
use crate::modifier::Modifier;
use crate::type_ref::TypeName;
use vstd::prelude::*;

verus! {

/// A generated constructor or method declaration.
#[derive(Clone, Debug)]
pub struct MethodSpec {
    pub name: String,
    pub modifiers: Vec<Modifier>,
    pub receiver_type: TypeName,
    pub return_type: TypeName,
    pub code: CodeBlock,
}

} // verus!
