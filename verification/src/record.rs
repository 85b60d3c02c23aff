//! When two matches are the same, and which comes first.
//!
//! A match is known by its path alone: two matches at one path are equal
//! whatever they hold, and matches are ordered as their paths are.

use core::cmp::Ordering;
use vstd::prelude::*;
use crate::path::{before, precedes, same};
use crate::tree::Node;

verus! {

impl PartialEq for Node {
    fn eq(&self, other: &Node) -> (r: bool) {
        same(&self.path, &other.path)
    }
}

impl vstd::std_specs::cmp::PartialEqSpecImpl for Node {
    open spec fn obeys_eq_spec() -> bool {
        true
    }

    open spec fn eq_spec(&self, other: &Node) -> bool {
        self.path@ == other.path@
    }
}

impl Eq for Node {

}

impl PartialOrd for Node {
    fn partial_cmp(&self, other: &Node) -> (r: Option<Ordering>) {
        if same(&self.path, &other.path) {
            Some(Ordering::Equal)
        } else if before(&self.path, &other.path) {
            Some(Ordering::Less)
        } else {
            Some(Ordering::Greater)
        }
    }
}

impl vstd::std_specs::cmp::PartialOrdSpecImpl for Node {
    open spec fn obeys_partial_cmp_spec() -> bool {
        true
    }

    open spec fn partial_cmp_spec(&self, other: &Node) -> Option<Ordering> {
        if self.path@ == other.path@ {
            Some(Ordering::Equal)
        } else if precedes(self.path@, other.path@) {
            Some(Ordering::Less)
        } else {
            Some(Ordering::Greater)
        }
    }
}

} // verus!
