//! The strength of a dependency between two components.
use vstd::prelude::*;
use crate::vertex::Edge;

verus! {

/// A weak dependency only marks impact; a strong one is also a build-order constraint.
#[derive(Clone, Copy, Debug, PartialEq, Eq, Hash, Structural)]
pub enum Dependency {
    Weak,
    Strong,
}

impl Edge for Dependency {
    fn same(&self, other: &Dependency) -> (r: bool) {
        *self == *other
    }
}

} // verus!
