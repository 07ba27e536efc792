//! Visibility modifiers and the declarations they apply to.
use vstd::prelude::*;

verus! {

/// A modifier keyword with the kinds of declaration it may stand on. No
/// target occurs twice.
#[derive(Clone, Debug)]
pub struct BaseModifier {
    pub keyword: &'static str,
    pub targets: Vec<Target>,
}

/// A kind of declaration that a modifier may stand on.
#[allow(non_camel_case_types)]
#[derive(Hash, Eq, PartialEq, Debug, Clone, Copy, Structural)]
pub enum Target {
    CLASS,
    VARIANCE_ANNOTATION,
    PARAMETER,
    TYPE_PARAMETER,
    FUNCTION,
    PROPERTY,
    INTERFACE,
}

impl BaseModifier {
    /// No target occurs twice.
    pub open spec fn wf(&self) -> bool {
        forall|i: int, j: int|
            0 <= i < j < self.targets@.len() ==> self.targets@[i] != self.targets@[j]
    }
}

/// The modifier `public`.
#[derive(Clone, Debug)]
pub struct PublicModifier {
    pub modifier: BaseModifier,
}

impl Default for PublicModifier {
    fn default() -> (r: Self)
        ensures
            r.modifier.keyword@ == "public"@,
            r.modifier.targets@ == seq![Target::PROPERTY],
            r.modifier.wf(),
    {
        let mut targets: Vec<Target> = Vec::new();
        targets.push(Target::PROPERTY);
        assert(targets@ =~= seq![Target::PROPERTY]);
        PublicModifier { modifier: BaseModifier { keyword: "public", targets } }
    }
}

/// The visibility of a declaration.
#[allow(non_camel_case_types)]
#[derive(Hash, Eq, PartialEq, Debug, Clone, Copy, Structural)]
pub enum Modifier {
    PUBLIC,
    PROTECTED,
    PRIVATE,
    INTERNAL,
}

impl Modifier {
    /// The modifier's keyword and targets: for every modifier the empty
    /// keyword and no target.
    pub fn value(&self) -> (r: BaseModifier)
        ensures
            r.keyword@ == ""@,
            r.targets@ == Seq::<Target>::empty(),
            r.wf(),
    {
        BaseModifier { keyword: "", targets: Vec::new() }
    }
}

} // verus!
