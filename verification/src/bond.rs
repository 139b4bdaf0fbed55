use vstd::prelude::*;

verus! {

#[derive(Clone, Copy, Debug, PartialEq, Eq, Structural)]
pub enum BondOrder {
    Single,
    Double,
    Triple,
    Aromatic,
}

/// The arrangement around a double bond.
#[derive(Clone, Copy, Debug, PartialEq, Eq, Structural)]
pub enum BondStereo {
    Unspecified,
    E,
    Z,
}

/// One edge of a molecular graph, between the atoms with indices `begin` and `end`.
#[derive(Clone, Copy, Debug, PartialEq, Eq)]
pub struct Bond {
    pub begin: usize,
    pub end: usize,
    pub order: BondOrder,
    /// Whether the bond lies on a ring. Derived: set when a graph is sanitized.
    pub in_ring: bool,
    pub stereo: BondStereo,
}

/// What a bond counts towards the valence of each of its atoms. An aromatic bond counts
/// as one; the electron that an atom gives to the aromatic system is counted apart.
pub open spec fn order_weight(o: BondOrder) -> int {
    match o {
        BondOrder::Single => 1,
        BondOrder::Double => 2,
        BondOrder::Triple => 3,
        BondOrder::Aromatic => 1,
    }
}

pub(crate) fn weight(o: BondOrder) -> (r: u32)
    ensures
        r == order_weight(o),
{
    match o {
        BondOrder::Single => 1,
        BondOrder::Double => 2,
        BondOrder::Triple => 3,
        BondOrder::Aromatic => 1,
    }
}

impl Bond {
    /// Whether the bond ends at atom `a`.
    pub open spec fn touches(self, a: int) -> bool {
        self.begin == a || self.end == a
    }

    /// Whether the bond joins atoms `a` and `b`, in either direction.
    pub open spec fn joins(self, a: int, b: int) -> bool {
        (self.begin == a && self.end == b) || (self.begin == b && self.end == a)
    }

    /// The atom at the other end from `a`.
    pub open spec fn other(self, a: int) -> int {
        if self.begin == a {
            self.end as int
        } else {
            self.begin as int
        }
    }
}

} // verus!
