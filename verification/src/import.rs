//! Explicit imports.
use vstd::prelude::*;

verus! {

/// An import of a qualified name, under an alias if one is given.
#[derive(Debug)]
pub struct Import {
    pub qualified_name: &'static str,
    pub alias: Option<String>,
}

impl Clone for Import {
    fn clone(&self) -> (r: Self)
        ensures
            r == *self,
    {
        Import {
            qualified_name: self.qualified_name,
            alias: match &self.alias {
                Some(a) => Some(a.clone()),
                None => None,
            },
        }
    }
}

} // verus!
