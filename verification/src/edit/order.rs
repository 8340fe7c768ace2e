//! The order in which edits are applied, as the order of `<` on [`Edit`].

use super::Edit;
use core::cmp::Ordering;
use vstd::prelude::*;
use vstd::std_specs::cmp::PartialOrdSpecImpl;

verus! {

impl PartialOrd for Edit {
    /// Ordering of edits for modification of a destination vector in place:
    /// replacements, ascending; then insertions, descending; then deletions,
    /// descending.
    fn partial_cmp(&self, other: &Self) -> (r: Option<Ordering>) {
        if self.precedes(other) {
            Some(Ordering::Less)
        } else if other.precedes(self) {
            Some(Ordering::Greater)
        } else {
            Some(Ordering::Equal)
        }
    }
}

impl PartialOrdSpecImpl for Edit {
    open spec fn obeys_partial_cmp_spec() -> bool {
        true
    }

    open spec fn partial_cmp_spec(&self, other: &Self) -> Option<Ordering> {
        if self.before(*other) {
            Some(Ordering::Less)
        } else if other.before(*self) {
            Some(Ordering::Greater)
        } else {
            Some(Ordering::Equal)
        }
    }
}

} // verus!
