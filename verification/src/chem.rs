use vstd::prelude::*;
use crate::atom::{lowest_valence, max_valence, target_valence};
use crate::bond::BondOrder;
use crate::graph::Graph;
use crate::rings::bond_in_ring;

verus! {

impl Graph {
    /// The number of bonds among the first `k` that end at atom `a` and have order `o`.
    pub open spec fn count_order(self, a: int, o: BondOrder, k: int) -> int
        decreases k,
    {
        if k <= 0 {
            0
        } else {
            self.count_order(a, o, k - 1) + if self.bonds[k - 1].touches(a) && self.bonds[k - 1].order
                == o {
                1int
            } else {
                0int
            }
        }
    }

    /// The first bond from `j` on that ends at atom `a` and has order `o`.
    pub open spec fn first_of_order(self, a: int, o: BondOrder, j: int) -> Option<int>
        decreases self.bonds.len() - j,
    {
        if j < 0 || j >= self.bonds.len() {
            None
        } else if self.bonds[j].touches(a) && self.bonds[j].order == o {
            Some(j)
        } else {
            self.first_of_order(a, o, j + 1)
        }
    }

    /// Whether atom `a` is written as part of an aromatic system: it is marked
    /// aromatic, or one of its bonds is.
    pub open spec fn is_pi(self, a: int) -> bool {
        self.atoms[a].aromatic || self.count_order(a, BondOrder::Aromatic, self.bonds.len() as int) > 0
    }

    /// The hydrogens that an atom gets where its record gives no count: what is left of
    /// its usual valence. An atom of an aromatic system keeps one valence for that
    /// system. A charged atom gets none.
    pub open spec fn inferred_hydrogens(self, a: int) -> int {
        let z = self.atoms[a].element;
        let used = self.bond_sum(a);
        if self.atoms[a].charge != 0 {
            0
        } else if self.is_pi(a) {
            if lowest_valence(z) - used - 1 > 0 {
                lowest_valence(z) - used - 1
            } else {
                0
            }
        } else {
            match target_valence(z, used) {
                Some(t) => t - used,
                None => 0,
            }
        }
    }

    /// The hydrogens attached to atom `a`: the count in its record, or else the
    /// inferred one.
    pub open spec fn hydrogens(self, a: int) -> int {
        match self.atoms[a].hydrogens {
            Some(h) => h as int,
            None => self.inferred_hydrogens(a),
        }
    }

    /// The number of neighbours of atom `a`, hydrogens included.
    pub open spec fn sigma(self, a: int) -> int {
        self.degree(a) + self.hydrogens(a)
    }

    /// The electrons that atom `a` gives to an aromatic ring it lies on; `None` where
    /// it cannot be part of one.
    pub open spec fn pi_electrons(self, a: int) -> Option<int> {
        let m = self.bonds.len() as int;
        let z = self.atoms[a].element;
        let q = self.atoms[a].charge as int;
        let doubles = self.count_order(a, BondOrder::Double, m);
        if self.count_order(a, BondOrder::Triple, m) > 0 || doubles > 1 {
            None
        } else if doubles == 1 {
            match self.first_of_order(a, BondOrder::Double, 0) {
                Some(j) => if bond_in_ring(self, j) {
                    if gives_one(z, q, self.sigma(a)) {
                        Some(1)
                    } else {
                        None
                    }
                } else if z == 6 && pulls_electrons(self.atoms[self.bonds[j].other(a)].element) {
                    Some(0)
                } else {
                    None
                },
                None => None,
            }
        } else if self.is_pi(a) && gives_one(z, q, self.sigma(a)) {
            Some(1)
        } else {
            lone_pair(z, q, self.sigma(a))
        }
    }

    /// Whether atom `a` holds a double bond that an aromatic way of writing does not
    /// show: it is written as part of an aromatic system, has no double or triple bond,
    /// and gives one electron.
    pub open spec fn hidden_double(self, a: int) -> bool {
        let m = self.bonds.len() as int;
        self.is_pi(a) && self.count_order(a, BondOrder::Double, m) == 0 && self.count_order(
            a,
            BondOrder::Triple,
            m,
        ) == 0 && gives_one(self.atoms[a].element, self.atoms[a].charge as int, self.sigma(a))
    }

    /// The valence that atom `a` uses: its bonds, its hydrogens, and a double bond that
    /// an aromatic way of writing hides.
    pub open spec fn valence_used(self, a: int) -> int {
        self.bond_sum(a) + self.hydrogens(a) + if self.hidden_double(a) {
            1int
        } else {
            0int
        }
    }

    /// Whether atom `a` has more bonds than its element allows: the valence it uses and
    /// its charge together exceed the element's maximum.
    pub open spec fn over_valence(self, a: int) -> bool {
        match max_valence(self.atoms[a].element) {
            Some(v) => self.valence_used(a) + self.atoms[a].charge > v,
            None => false,
        }
    }
}

/// Atoms that take part in a double bond of the ring, written or hidden, and so give
/// one electron: by element, charge and number of neighbours.
pub open spec fn gives_one(z: u8, q: int, sigma: int) -> bool {
    if z == 6 {
        q == 0 && sigma == 3
    } else if z == 7 || z == 15 || z == 33 {
        (q == 0 && sigma == 2) || (q == 1 && sigma == 3)
    } else if z == 8 || z == 16 || z == 34 {
        q == 1 && sigma == 2
    } else {
        false
    }
}

/// The electrons that an atom without a double bond gives: a lone pair, or an empty
/// orbital.
pub open spec fn lone_pair(z: u8, q: int, sigma: int) -> Option<int> {
    if z == 5 {
        if q == 0 && sigma == 3 {
            Some(0)
        } else {
            None
        }
    } else if z == 6 {
        if q == -1 && sigma == 3 {
            Some(2)
        } else if q == 1 && sigma == 3 {
            Some(0)
        } else {
            None
        }
    } else if z == 7 || z == 15 || z == 33 {
        if (q == 0 && sigma == 3) || (q == -1 && sigma == 2) {
            Some(2)
        } else {
            None
        }
    } else if z == 8 || z == 16 || z == 34 {
        if q == 0 && sigma == 2 {
            Some(2)
        } else {
            None
        }
    } else {
        None
    }
}

/// Elements that take the electrons of a double bond from a ring carbon outside the
/// ring.
pub open spec fn pulls_electrons(z: u8) -> bool {
    z == 7 || z == 8 || z == 16
}

/// The electrons that the first `k` atoms of a ring give together; `None` where one of
/// them cannot be part of an aromatic ring.
pub open spec fn ring_electrons(g: Graph, ring: Seq<usize>, k: int) -> Option<int>
    decreases k,
{
    if k <= 0 {
        Some(0)
    } else {
        match (ring_electrons(g, ring, k - 1), g.pi_electrons(ring[k - 1] as int)) {
            (Some(s), Some(e)) => Some(s + e),
            _ => None,
        }
    }
}

/// A ring is aromatic when each of its atoms can give electrons to it and they give
/// 4n + 2 together.
pub open spec fn is_aromatic_ring(g: Graph, ring: Seq<usize>) -> bool {
    ring_electrons(g, ring, ring.len() as int) matches Some(s) && s % 4 == 2
}

/// Whether atom `a` lies on one of `rings` that is aromatic.
pub open spec fn atom_on_aromatic(g: Graph, rings: Seq<Seq<usize>>, a: int) -> bool {
    exists|r: int|
        0 <= r < rings.len() && is_aromatic_ring(g, #[trigger] rings[r]) && rings[r].contains(
            a as usize,
        )
}

/// Whether bond `j` lies on a ring, and both its atoms on one of `rings` that is
/// aromatic.
pub open spec fn bond_on_aromatic(g: Graph, rings: Seq<Seq<usize>>, j: int) -> bool {
    bond_in_ring(g, j) && exists|r: int|
        0 <= r < rings.len() && is_aromatic_ring(g, #[trigger] rings[r]) && rings[r].contains(
            g.bonds[j].begin,
        ) && rings[r].contains(g.bonds[j].end)
}

} // verus!
