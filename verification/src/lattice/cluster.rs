use std::cmp::Ordering;
use vstd::prelude::*;
use vstd::std_specs::cmp::PartialOrdSpecImpl;

verus! {

/// The label of a cluster of open cells; label 0 marks a closed cell. Labels are
/// ordered by their numbers.
#[derive(Copy, Clone, PartialEq, Eq, Structural, Hash, Ord, Debug)]
pub struct Cluster(pub u32);

impl Cluster {
    /// The number carried by this label.
    pub open spec fn id(self) -> u32 {
        self.0
    }
}

impl From<u32> for Cluster {
    fn from(value: u32) -> (c: Self) {
        Cluster(value)
    }
}

impl vstd::std_specs::convert::FromSpecImpl<u32> for Cluster {
    open spec fn obeys_from_spec() -> bool {
        true
    }

    open spec fn from_spec(v: u32) -> Self {
        Cluster(v)
    }
}

impl std::ops::Add<u32> for Cluster {
    type Output = Self;

    fn add(self, rhs: u32) -> (c: Self) {
        Cluster(self.0 + rhs)
    }
}

impl vstd::std_specs::ops::AddSpecImpl<u32> for Cluster {
    open spec fn obeys_add_spec() -> bool {
        true
    }

    open spec fn add_req(self, rhs: u32) -> bool {
        self.0 + rhs <= u32::MAX
    }

    open spec fn add_spec(self, rhs: u32) -> Self {
        Cluster((self.0 + rhs) as u32)
    }
}

impl PartialOrd for Cluster {
    fn partial_cmp(&self, other: &Self) -> (r: Option<Ordering>) {
        if self.0 < other.0 {
            Some(Ordering::Less)
        } else if self.0 == other.0 {
            Some(Ordering::Equal)
        } else {
            Some(Ordering::Greater)
        }
    }
}

impl PartialOrdSpecImpl for Cluster {
    open spec fn obeys_partial_cmp_spec() -> bool {
        true
    }

    open spec fn partial_cmp_spec(&self, other: &Self) -> Option<Ordering> {
        if self.0 < other.0 {
            Some(Ordering::Less)
        } else if self.0 == other.0 {
            Some(Ordering::Equal)
        } else {
            Some(Ordering::Greater)
        }
    }
}

} // verus!
