use vstd::prelude::*;
use crate::atom::{atom_ok, Atom};
use crate::bond::{order_weight, Bond};

verus! {

/// The mathematical model of a molecule: its atoms and its bonds, each in the order of
/// their indices.
pub ghost struct Graph {
    pub atoms: Seq<Atom>,
    pub bonds: Seq<Bond>,
}

impl Graph {
    /// Every bond joins two different atoms of this graph, and every atom record is one
    /// that can be written down.
    pub open spec fn wf(self) -> bool {
        parts_ok(self.atoms, self.bonds)
    }

    pub open spec fn empty() -> Graph {
        Graph { atoms: Seq::empty(), bonds: Seq::empty() }
    }

    /// The number of bonds among the first `k` that end at atom `a`.
    pub open spec fn degree_upto(self, a: int, k: int) -> int
        decreases k,
    {
        if k <= 0 {
            0
        } else {
            self.degree_upto(a, k - 1) + if self.bonds[k - 1].touches(a) {
                1int
            } else {
                0int
            }
        }
    }

    /// The number of bonds that end at atom `a`.
    pub open spec fn degree(self, a: int) -> int {
        self.degree_upto(a, self.bonds.len() as int)
    }

    /// The sum, over the first `k` bonds, of what each bond at atom `a` counts towards
    /// its valence.
    pub open spec fn bond_sum_upto(self, a: int, k: int) -> int
        decreases k,
    {
        if k <= 0 {
            0
        } else {
            self.bond_sum_upto(a, k - 1) + if self.bonds[k - 1].touches(a) {
                order_weight(self.bonds[k - 1].order)
            } else {
                0int
            }
        }
    }

    /// The sum of what the bonds at atom `a` count towards its valence.
    pub open spec fn bond_sum(self, a: int) -> int {
        self.bond_sum_upto(a, self.bonds.len() as int)
    }
}

/// Atoms and bonds that make up a graph.
pub open spec fn parts_ok(atoms: Seq<Atom>, bonds: Seq<Bond>) -> bool {
    &&& forall|i: int| 0 <= i < atoms.len() ==> atom_ok(#[trigger] atoms[i])
    &&& forall|j: int|
        0 <= j < bonds.len() ==> (#[trigger] bonds[j]).begin < atoms.len() && bonds[j].end < atoms.len()
            && bonds[j].begin != bonds[j].end
}

} // verus!
