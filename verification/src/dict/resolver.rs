//! Looking up metadata definitions by AUID (ST 2001-1 §7).
use vstd::prelude::*;

use super::definition::{ClassDefinition, Definition, DefinitionView};
use crate::types::Auid;

verus! {

/// Trait for looking up SMPTE metadata definitions by AUID (ST 2001-1 §7).
pub trait DefinitionResolver {
    /// The definition with this identification, if any.
    spec fn spec_definition(&self, id: Auid) -> Option<DefinitionView>;

    /// The identifications of the direct subclasses of a class.
    spec fn spec_subclasses(&self, class: Auid) -> Seq<Auid>;

    /// The identifications of the properties that a class itself declares.
    spec fn spec_members(&self, class: Auid) -> Seq<Auid>;

    fn get_definition(&self, id: &Auid) -> (r: Option<&Definition>)
        ensures
            match self.spec_definition(*id) {
                Some(v) => (r matches Some(d) && d@ == v),
                None => r is None,
            },
    ;

    fn get_subclasses_of(&self, class: &ClassDefinition) -> (r: Vec<Auid>)
        ensures
            r@ == self.spec_subclasses(class.identification),
    ;

    fn get_members_of(&self, class: &ClassDefinition) -> (r: Vec<Auid>)
        ensures
            r@ == self.spec_members(class.identification),
    ;
}

} // verus!
