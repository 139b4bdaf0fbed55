use vstd::prelude::*;
use crate::atom::{check_atom, atom_ok, Atom};
use crate::bond::{Bond, BondOrder, BondStereo};
use crate::error::SanitizeError;
use crate::graph::Graph;
use crate::parser::new_bond;
use crate::ro_mol::ROMol;
use crate::sanitize::{sanitize_graph, sanitize_spec};

verus! {

/// The index that atom `x` has once atom `gone` is taken out.
pub open spec fn shifted(x: usize, gone: usize) -> usize {
    if x > gone {
        (x - 1) as usize
    } else {
        x
    }
}

/// The bonds among the first `k` that do not end at atom `gone`, between the indices
/// that their atoms have once it is taken out.
pub open spec fn bonds_without(bonds: Seq<Bond>, gone: usize, k: int) -> Seq<Bond>
    decreases k,
{
    if k <= 0 {
        Seq::empty()
    } else if bonds[k - 1].touches(gone as int) {
        bonds_without(bonds, gone, k - 1)
    } else {
        bonds_without(bonds, gone, k - 1).push(
            Bond {
                begin: shifted(bonds[k - 1].begin, gone),
                end: shifted(bonds[k - 1].end, gone),
                ..bonds[k - 1]
            },
        )
    }
}

/// The index of the first bond from `from` on that joins atoms `a` and `b`.
pub open spec fn find_bond(bonds: Seq<Bond>, a: usize, b: usize, from: int) -> Option<int>
    decreases bonds.len() - from,
{
    if from < 0 || from >= bonds.len() {
        None
    } else if bonds[from].joins(a as int, b as int) {
        Some(from)
    } else {
        find_bond(bonds, a, b, from + 1)
    }
}

impl Graph {
    /// The graph with one more atom, where the record can stand in a graph; else the
    /// graph as it is.
    pub open spec fn with_atom(self, atom: Atom) -> Graph {
        if atom_ok(atom) {
            Graph { atoms: self.atoms.push(atom), bonds: self.bonds }
        } else {
            self
        }
    }

    /// The graph with one more bond, where `begin` and `end` are two different atoms of
    /// it; else the graph as it is.
    pub open spec fn with_bond(self, begin: usize, end: usize, order: BondOrder) -> Graph {
        if begin < self.atoms.len() && end < self.atoms.len() && begin != end {
            Graph { atoms: self.atoms, bonds: self.bonds.push(new_bond(begin, end, order)) }
        } else {
            self
        }
    }

    /// The graph without atom `index` and without the bonds that end at it; the atoms
    /// behind it move down by one. The graph as it is where it has no such atom.
    pub open spec fn without_atom(self, index: usize) -> Graph {
        if index < self.atoms.len() {
            Graph {
                atoms: self.atoms.remove(index as int),
                bonds: bonds_without(self.bonds, index, self.bonds.len() as int),
            }
        } else {
            self
        }
    }

    /// The graph without the first bond that joins atoms `a` and `b`; the graph as it
    /// is where no bond joins them.
    pub open spec fn without_bond(self, a: usize, b: usize) -> Graph {
        match find_bond(self.bonds, a, b, 0) {
            Some(j) => Graph { atoms: self.atoms, bonds: self.bonds.remove(j) },
            None => self,
        }
    }
}

/// A molecular graph that can be edited. Nothing of its chemistry is checked until it
/// is committed.
#[derive(Debug)]
pub struct RWMol {
    atoms: Vec<Atom>,
    bonds: Vec<Bond>,
}

impl RWMol {
    #[verifier::type_invariant]
    spec fn inv(self) -> bool {
        (Graph { atoms: self.atoms@, bonds: self.bonds@ }).wf()
    }

    pub closed spec fn view(&self) -> Graph {
        Graph { atoms: self.atoms@, bonds: self.bonds@ }
    }

    /// A graph without atoms.
    pub fn new() -> (r: RWMol)
        ensures
            r@ == Graph::empty(),
    {
        RWMol { atoms: Vec::new(), bonds: Vec::new() }
    }

    pub(crate) fn from_parts(atoms: Vec<Atom>, bonds: Vec<Bond>) -> (r: RWMol)
        requires
            (Graph { atoms: atoms@, bonds: bonds@ }).wf(),
        ensures
            r@ == (Graph { atoms: atoms@, bonds: bonds@ }),
    {
        RWMol { atoms, bonds }
    }

    pub fn num_atoms(&self) -> (n: usize)
        ensures
            n == self@.atoms.len(),
    {
        self.atoms.len()
    }

    pub fn num_bonds(&self) -> (n: usize)
        ensures
            n == self@.bonds.len(),
    {
        self.bonds.len()
    }

    /// Atom `index`, if there is one.
    pub fn atom(&self, index: usize) -> (r: Option<Atom>)
        ensures
            r == if index < self@.atoms.len() {
                Some(self@.atoms[index as int])
            } else {
                None
            },
    {
        if index < self.atoms.len() {
            Some(self.atoms[index])
        } else {
            None
        }
    }

    /// Bond `index`, if there is one.
    pub fn bond(&self, index: usize) -> (r: Option<Bond>)
        ensures
            r == if index < self@.bonds.len() {
                Some(self@.bonds[index as int])
            } else {
                None
            },
    {
        if index < self.bonds.len() {
            Some(self.bonds[index])
        } else {
            None
        }
    }

    /// Adds an atom behind the others.
    pub fn add_atom(self, atom: Atom) -> (r: RWMol)
        ensures
            r@ == self@.with_atom(atom),
    {
        proof {
            use_type_invariant(&self);
        }
        let RWMol { atoms, bonds } = self;
        let mut atoms = atoms;
        let ghost g0 = Graph { atoms: atoms@, bonds: bonds@ };
        assert(g0.wf());
        if check_atom(&atom) {
            atoms.push(atom);
            proof {
                assert forall|i: int| 0 <= i < atoms.len() implies atom_ok(#[trigger] atoms@[i]) by {
                    if i < g0.atoms.len() {
                        assert(atom_ok(g0.atoms[i]));
                    }
                }
                assert forall|j: int| 0 <= j < bonds.len() implies (#[trigger] bonds@[j]).begin < atoms.len()
                    && bonds@[j].end < atoms.len() && bonds@[j].begin != bonds@[j].end by {
                    assert(g0.bonds[j].begin < g0.atoms.len());
                }
            }
        }
        RWMol { atoms, bonds }
    }

    /// Adds a bond behind the others.
    pub fn add_bond(self, begin: usize, end: usize, order: BondOrder) -> (r: RWMol)
        ensures
            r@ == self@.with_bond(begin, end, order),
    {
        proof {
            use_type_invariant(&self);
        }
        let RWMol { atoms, bonds } = self;
        let mut bonds = bonds;
        let ghost g0 = Graph { atoms: atoms@, bonds: bonds@ };
        assert(g0.wf());
        if begin < atoms.len() && end < atoms.len() && begin != end {
            bonds.push(Bond { begin, end, order, in_ring: false, stereo: BondStereo::Unspecified });
            proof {
                assert forall|j: int| 0 <= j < bonds.len() implies (#[trigger] bonds@[j]).begin < atoms.len()
                    && bonds@[j].end < atoms.len() && bonds@[j].begin != bonds@[j].end by {
                    if j < g0.bonds.len() {
                        assert(g0.bonds[j].begin < atoms.len());
                    }
                }
            }
        }
        RWMol { atoms, bonds }
    }

    /// Takes an atom out, with the bonds that end at it.
    pub fn remove_atom(self, index: usize) -> (r: RWMol)
        ensures
            r@ == self@.without_atom(index),
    {
        proof {
            use_type_invariant(&self);
        }
        let RWMol { atoms, bonds } = self;
        if index >= atoms.len() {
            return RWMol { atoms, bonds };
        }
        let mut atoms = atoms;
        let ghost old_atoms = atoms@;
        atoms.remove(index);
        let mut kept: Vec<Bond> = Vec::new();
        let mut j: usize = 0;
        while j < bonds.len()
            invariant
                j <= bonds.len(),
                index < old_atoms.len(),
                atoms@ == old_atoms.remove(index as int),
                (Graph { atoms: old_atoms, bonds: bonds@ }).wf(),
                kept@ == bonds_without(bonds@, index, j as int),
                forall|k: int|
                    0 <= k < kept.len() ==> (#[trigger] kept[k]).begin < atoms.len() && kept[k].end
                        < atoms.len() && kept[k].begin != kept[k].end,
            decreases bonds.len() - j,
        {
            let b = bonds[j];
            assert(bonds@[j as int].begin < old_atoms.len() && bonds@[j as int].end < old_atoms.len()
                && bonds@[j as int].begin != bonds@[j as int].end);
            if b.begin != index && b.end != index {
                let begin = if b.begin > index {
                    b.begin - 1
                } else {
                    b.begin
                };
                let end = if b.end > index {
                    b.end - 1
                } else {
                    b.end
                };
                kept.push(Bond { begin, end, order: b.order, in_ring: b.in_ring, stereo: b.stereo });
            }
            j += 1;
        }
        proof {
            assert forall|i: int| 0 <= i < atoms.len() implies atom_ok(#[trigger] atoms@[i]) by {
                if i < index {
                    assert(atom_ok(old_atoms[i]));
                } else {
                    assert(atom_ok(old_atoms[i + 1]));
                }
            }
        }
        RWMol { atoms, bonds: kept }
    }

    /// Takes out the first bond between two atoms.
    pub fn remove_bond(self, a: usize, b: usize) -> (r: RWMol)
        ensures
            r@ == self@.without_bond(a, b),
    {
        proof {
            use_type_invariant(&self);
        }
        let RWMol { atoms, bonds } = self;
        let mut bonds = bonds;
        let ghost before = bonds@;
        let mut j: usize = 0;
        while j < bonds.len()
            invariant
                j <= bonds.len(),
                bonds@ == before,
                self@ == (Graph { atoms: atoms@, bonds: before }),
                find_bond(before, a, b, 0) == find_bond(before, a, b, j as int),
                (Graph { atoms: atoms@, bonds: before }).wf(),
            decreases bonds.len() - j,
        {
            let c = bonds[j];
            if (c.begin == a && c.end == b) || (c.begin == b && c.end == a) {
                bonds.remove(j);
                proof {
                    let g0 = Graph { atoms: atoms@, bonds: before };
                    assert(g0.wf());
                    assert(g0.bonds[j as int].joins(a as int, b as int));
                    assert(find_bond(before, a, b, j as int) == Some(j as int));
                    assert forall|k: int| 0 <= k < bonds.len() implies (#[trigger] bonds@[k]).begin
                        < atoms.len() && bonds@[k].end < atoms.len() && bonds@[k].begin != bonds@[k].end by {
                        if k < j {
                            assert(g0.bonds[k] == bonds@[k]);
                        } else {
                            assert(g0.bonds[k + 1] == bonds@[k]);
                        }
                    }
                }
                return RWMol { atoms, bonds };
            }
            j += 1;
        }
        RWMol { atoms, bonds }
    }

    /// Checks the chemistry of the graph as it stands and gives back the molecule, or
    /// names what is wrong. The graph itself stays as it is, so that it can be mended
    /// and committed again.
    pub fn commit(&self) -> (r: Result<ROMol, SanitizeError>)
        ensures
            match r {
                Ok(m) => sanitize_spec(self@, true) == Ok::<_, SanitizeError>(m@),
                Err(e) => sanitize_spec(self@, true) == Err::<Graph, _>(e),
            },
    {
        proof {
            use_type_invariant(self);
        }
        match sanitize_graph(&self.atoms, &self.bonds, true) {
            Ok((atoms, bonds)) => {
                proof {
                    assert(self.atoms@.len() == self.atoms.len());
                    crate::sanitize::lemma_sanitized_wf(self@);
                }
                Ok(ROMol::from_parts(atoms, bonds))
            },
            Err(e) => Err(e),
        }
    }
}

} // verus!
