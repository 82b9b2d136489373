//! The targets that the tracks of a clip have claimed.

use crate::model::Property;
use std::collections::BTreeSet;
use vstd::prelude::*;

verus! {

broadcast use vstd::laws_cmp::group_laws_cmp;

/// A set of bone properties.
pub struct Targets {
    claimed: BTreeSet<(usize, u8)>,
}

spec fn rank(property: Property) -> u8 {
    match property {
        Property::Translation => 0,
        Property::Rotation => 1,
        Property::Scale => 2,
    }
}

impl Targets {
    /// Whether a property of a bone is claimed.
    pub closed spec fn has(self, bone: usize, property: Property) -> bool {
        self.claimed@.contains((bone, rank(property)))
    }

    /// A set in which nothing is claimed.
    pub fn new() -> (r: Targets)
        ensures
            forall|bone: usize, property: Property| !r.has(bone, property),
    {
        Targets { claimed: BTreeSet::new() }
    }

    /// Claims a property of a bone, and says whether it was free.
    pub fn claim(&mut self, bone: usize, property: Property) -> (r: bool)
        ensures
            r == !old(self).has(bone, property),
            forall|b: usize, p: Property|
                final(self).has(b, p) == (old(self).has(b, p) || (b == bone && p == property)),
    {
        let code: u8 = match property {
            Property::Translation => 0,
            Property::Rotation => 1,
            Property::Scale => 2,
        };
        self.claimed.insert((bone, code))
    }
}

} // verus!
