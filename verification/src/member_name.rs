//! Names of members: functions and properties.
use crate::class_name::StructName;
use crate::code_block::MemberModel;
use vstd::prelude::*;

verus! {

/// The name of a member such as a function or a property: its package,
/// the type that encloses it, if any, and its own name.
#[derive(Debug)]
pub struct MemberName {
    pub package_name: String,
    pub enclosing_class_name: Option<StructName>,
    pub simple_name: String,
    pub operator: Option<String>,
}

impl View for MemberName {
    type V = MemberModel;

    open spec fn view(&self) -> MemberModel {
        MemberModel {
            package_name: self.package_name@,
            enclosing: match self.enclosing_class_name {
                Some(t) => Some(t@),
                None => None,
            },
            simple_name: self.simple_name@,
        }
    }
}

impl Clone for MemberName {
    fn clone(&self) -> (r: Self)
        ensures
            r == *self,
    {
        MemberName {
            package_name: self.package_name.clone(),
            enclosing_class_name: match &self.enclosing_class_name {
                Some(t) => Some(t.clone()),
                None => None,
            },
            simple_name: self.simple_name.clone(),
            operator: match &self.operator {
                Some(o) => Some(o.clone()),
                None => None,
            },
        }
    }
}

} // verus!
