//! Names of declared types.
use crate::code_block::TypeModel;
use vstd::prelude::*;

verus! {

/// The name of a class, object, interface or enum, with its package.
#[derive(Debug)]
pub struct StructName {
    pub package_name: String,
    pub simple_name: String,
}

impl View for StructName {
    type V = TypeModel;

    open spec fn view(&self) -> TypeModel {
        TypeModel { package_name: self.package_name@, simple_name: self.simple_name@ }
    }
}

impl Clone for StructName {
    fn clone(&self) -> (r: Self)
        ensures
            r == *self,
    {
        StructName {
            package_name: self.package_name.clone(),
            simple_name: self.simple_name.clone(),
        }
    }
}

/// Entry points for building named declarations.
pub struct StructNameBuilder {}

impl StructNameBuilder {
    /// Takes the name of a struct. Declarations are written as code blocks
    /// and have no builder of their own, so nothing is built.
    pub fn struct_builder(_name: &'static str) {
    }

    /// Takes the name of an object; nothing is built.
    pub fn object_builder(_name: &'static str) {
    }

    /// Takes the name of an interface; nothing is built.
    pub fn interface_builder(_name: &'static str) {
    }

    /// Takes the name of an enum; nothing is built.
    pub fn enum_builder(_name: &'static str) {
    }
}

} // verus!
