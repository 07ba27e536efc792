//! Declarations of classes, objects and interfaces.
use crate::modifier::Modifier;
use vstd::prelude::*;

verus! {

/// A generated class, interface, or enum declaration.
#[derive(Clone, Copy, Debug)]
pub struct TypeSpec {}

/// What a kind of declaration has: its keyword and the modifiers that its
/// properties, functions and nested types get where none is written. No
/// modifier occurs twice in a list.
pub struct BaseKind {
    pub declaration_keyword: &'static str,
    pub property_modifiers: Vec<Modifier>,
    pub function_modifiers: Vec<Modifier>,
    pub type_modifiers: Vec<Modifier>,
}

/// What a class declaration has.
pub struct ClassKind {
    pub kind: BaseKind,
}

/// What an object declaration has.
pub struct ObjectKind {
    pub kind: BaseKind,
}

/// What an interface declaration has.
pub struct InterfaceKind {
    pub kind: BaseKind,
}

/// The kind of a type declaration.
pub enum Kind {
    Class(ClassKind),
    Object(ObjectKind),
    Interface(InterfaceKind),
}

} // verus!
