use vstd::prelude::*;
use vstd::string::StringSliceAdditionalSpecFns;
use crate::atom::Atom;
use crate::bond::Bond;
use crate::canon::{canonical, order_atoms, relabel};
use crate::decimal::{decimal, write_number};
use crate::error::{MolError, ParseError};
use crate::fingerprint::{fingerprint_graph, fingerprint_of, Fingerprint};
use crate::graph::Graph;
use crate::hydrogens::{strip_hydrogens, without_hydrogens};
use crate::parser::{parse_bytes, parse_spec};
use crate::rebuild::{as_written, lemma_text_reads_back};
use crate::rings::{perceive_rings, ring_list, rings_view};
use crate::rw_mol::RWMol;
use crate::sanitize::{inferred_count, lemma_sanitized_wf, sanitize_graph, sanitize_spec, tally};
use crate::text::{as_chars, string_of};
use crate::writer::{emit, render, text_of};

verus! {

/// How a text is read.
#[derive(Clone, Copy, Debug)]
pub struct SmilesParserParams {
    /// Whether the chemistry of what was read is checked and completed.
    pub sanitize: bool,
    /// Whether an atom with more bonds than its element allows is an error.
    pub strict_valence: bool,
}

impl SmilesParserParams {
    /// Switches the check of the chemistry on or off.
    pub fn sanitize(&mut self, value: bool)
        ensures
            *final(self) == (SmilesParserParams { sanitize: value, strict_valence: old(self).strict_valence }),
    {
        self.sanitize = value;
    }

    /// Switches the check of the valences on or off.
    pub fn strict_valence(&mut self, value: bool)
        ensures
            *final(self) == (SmilesParserParams { sanitize: old(self).sanitize, strict_valence: value }),
    {
        self.strict_valence = value;
    }
}

impl Default for SmilesParserParams {
    fn default() -> (r: Self)
        ensures
            r == (SmilesParserParams { sanitize: true, strict_valence: true }),
    {
        SmilesParserParams { sanitize: true, strict_valence: true }
    }
}

/// The molecule that a text stands for: what the notation describes, and then, where
/// `sanitize` asks for it, checked and completed. Or the first thing wrong.
pub open spec fn molecule_of(s: Seq<u8>, sanitize: bool, strict: bool) -> Result<Graph, MolError> {
    match parse_spec(s) {
        Err(e) => Err(MolError::Parse(e)),
        Ok(g) => if sanitize {
            match sanitize_spec(g, strict) {
                Ok(h) => Ok(h),
                Err(e) => Err(MolError::Sanitize(e)),
            }
        } else {
            Ok(g)
        },
    }
}

/// The canonical text of a graph: the atoms put in writing order, then written down.
pub open spec fn smiles_of(g: Graph) -> Seq<u8> {
    text_of(canonical(g))
}

/// Atom `i` as it stands in a graph that is to be edited: without its hydrogen count
/// where the count is the one that is inferred, so that it follows what is done to the
/// atom's bonds.
pub open spec fn editable_atom(g: Graph, i: int) -> Atom {
    match g.atoms[i].hydrogens {
        Some(h) => if h == g.inferred_hydrogens(i) {
            Atom { hydrogens: None, ..g.atoms[i] }
        } else {
            g.atoms[i]
        },
        None => g.atoms[i],
    }
}

/// The graph as it is handed out for editing.
pub open spec fn editable(g: Graph) -> Graph {
    Graph { atoms: Seq::new(g.atoms.len(), |i: int| editable_atom(g, i)), bonds: g.bonds }
}

/// The hydrogens that the records of the first `k` atoms show.
pub open spec fn shown_hydrogens_upto(g: Graph, k: int) -> int
    decreases k,
{
    if k <= 0 {
        0
    } else {
        shown_hydrogens_upto(g, k - 1) + crate::ranks::shown_hydrogens(g.atoms[k - 1])
    }
}

/// A molecule that cannot be changed.
#[derive(Debug)]
pub struct ROMol {
    atoms: Vec<Atom>,
    bonds: Vec<Bond>,
}

impl Clone for ROMol {
    /// A copy that shares nothing with the molecule.
    fn clone(&self) -> (r: Self)
        ensures
            r@ == self@,
    {
        proof {
            use_type_invariant(self);
        }
        let (atoms, bonds) = copy_parts(&self.atoms, &self.bonds);
        ROMol { atoms, bonds }
    }
}

fn copy_parts(atoms: &Vec<Atom>, bonds: &Vec<Bond>) -> (r: (Vec<Atom>, Vec<Bond>))
    ensures
        r.0@ == atoms@,
        r.1@ == bonds@,
{
    let mut a2: Vec<Atom> = Vec::new();
    let mut i: usize = 0;
    while i < atoms.len()
        invariant
            i <= atoms.len(),
            a2@ == atoms@.take(i as int),
        decreases atoms.len() - i,
    {
        a2.push(atoms[i]);
        assert(a2@ =~= atoms@.take(i + 1));
        i += 1;
    }
    let mut b2: Vec<Bond> = Vec::new();
    let mut j: usize = 0;
    while j < bonds.len()
        invariant
            j <= bonds.len(),
            b2@ == bonds@.take(j as int),
        decreases bonds.len() - j,
    {
        b2.push(bonds[j]);
        assert(b2@ =~= bonds@.take(j + 1));
        j += 1;
    }
    assert(atoms@.take(atoms.len() as int) =~= atoms@);
    assert(bonds@.take(bonds.len() as int) =~= bonds@);
    (a2, b2)
}

impl ROMol {
    #[verifier::type_invariant]
    spec fn inv(self) -> bool {
        (Graph { atoms: self.atoms@, bonds: self.bonds@ }).wf()
    }

    pub closed spec fn view(&self) -> Graph {
        Graph { atoms: self.atoms@, bonds: self.bonds@ }
    }

    pub(crate) fn from_parts(atoms: Vec<Atom>, bonds: Vec<Bond>) -> (r: ROMol)
        requires
            (Graph { atoms: atoms@, bonds: bonds@ }).wf(),
        ensures
            r@ == (Graph { atoms: atoms@, bonds: bonds@ }),
    {
        ROMol { atoms, bonds }
    }

    /// Reads a molecule from its text, and checks and completes its chemistry.
    pub fn from_smile(smile: &str) -> (r: Result<ROMol, MolError>)
        ensures
            match r {
                Ok(m) => molecule_of(smile.spec_bytes(), true, true) == Ok::<_, MolError>(m@),
                Err(e) => molecule_of(smile.spec_bytes(), true, true) == Err::<Graph, _>(e),
            },
    {
        Self::from_bytes(smile.as_bytes(), true, true)
    }

    /// Reads a molecule from its text as the parameters say.
    pub fn from_smile_with_params(smile: &str, params: &SmilesParserParams) -> (r: Result<ROMol, MolError>)
        ensures
            match r {
                Ok(m) => molecule_of(smile.spec_bytes(), params.sanitize, params.strict_valence) == Ok::<
                    _,
                    MolError,
                >(m@),
                Err(e) => molecule_of(smile.spec_bytes(), params.sanitize, params.strict_valence) == Err::<
                    Graph,
                    _,
                >(e),
            },
    {
        Self::from_bytes(smile.as_bytes(), params.sanitize, params.strict_valence)
    }

    /// Reads a molecule from the bytes of its text.
    pub fn from_bytes(s: &[u8], sanitize: bool, strict: bool) -> (r: Result<ROMol, MolError>)
        ensures
            match r {
                Ok(m) => molecule_of(s@, sanitize, strict) == Ok::<_, MolError>(m@),
                Err(e) => molecule_of(s@, sanitize, strict) == Err::<Graph, _>(e),
            },
    {
        match parse_bytes(s) {
            Err(e) => Err(MolError::Parse(e)),
            Ok((atoms, bonds)) => {
                if sanitize {
                    match sanitize_graph(&atoms, &bonds, strict) {
                        Ok((a2, b2)) => {
                            proof {
                                assert(atoms@.len() == atoms.len());
                                lemma_sanitized_wf(Graph { atoms: atoms@, bonds: bonds@ });
                            }
                            Ok(ROMol { atoms: a2, bonds: b2 })
                        },
                        Err(e) => Err(MolError::Sanitize(e)),
                    }
                } else {
                    Ok(ROMol { atoms, bonds })
                }
            },
        }
    }

    /// The canonical text of the molecule, as bytes. Read without sanitization, the
    /// text gives the molecule back in writing order, as the text shows it.
    pub fn as_smile_bytes(&self) -> (r: Vec<u8>)
        ensures
            r@ == smiles_of(self@),
            parse_spec(r@) == Ok::<_, ParseError>(as_written(canonical(self@))),
    {
        proof {
            use_type_invariant(self);
        }
        let order = order_atoms(&self.atoms, &self.bonds);
        let (atoms, bonds) = relabel(&self.atoms, &self.bonds, &order);
        proof {
            assert(atoms@.len() == atoms.len() && bonds@.len() == bonds.len());
            lemma_text_reads_back(Graph { atoms: atoms@, bonds: bonds@ });
        }
        let tokens = emit(&atoms, &bonds);
        render(&tokens)
    }

    /// The canonical text of the molecule.
    pub fn as_smile(&self) -> (r: String)
        ensures
            r@ == as_chars(smiles_of(self@)),
    {
        let bytes = self.as_smile_bytes();
        string_of(&bytes)
    }

    /// A copy of the molecule that can be edited: see [`editable`]. The molecule holds
    /// neither properties nor conformers, so the copy is the same whatever `quick_copy`
    /// and `conf_id` are.
    pub fn as_rw_mol(&self, quick_copy: bool, conf_id: i32) -> (r: RWMol)
        ensures
            r@ == editable(self@),
    {
        proof {
            use_type_invariant(self);
        }
        let ghost g = self@;
        let (_, bonds) = copy_parts(&self.atoms, &self.bonds);
        let mut atoms: Vec<Atom> = Vec::new();
        let mut i: usize = 0;
        while i < self.atoms.len()
            invariant
                i <= self.atoms.len(),
                g == self@,
                g == (Graph { atoms: self.atoms@, bonds: self.bonds@ }),
                g.wf(),
                atoms.len() == i,
                forall|k: int| 0 <= k < i ==> #[trigger] atoms[k] == editable_atom(g, k),
            decreases self.atoms.len() - i,
        {
            let old = self.atoms[i];
            let hydrogens = match old.hydrogens {
                Some(h) => {
                    let t = tally(i, &self.bonds, Ghost(g));
                    if h == inferred_count(&old, &t, Ghost(g), Ghost(i as int)) {
                        None
                    } else {
                        Some(h)
                    }
                },
                None => None,
            };
            atoms.push(
                Atom {
                    element: old.element,
                    charge: old.charge,
                    isotope: old.isotope,
                    hydrogens,
                    aromatic: old.aromatic,
                    in_ring: old.in_ring,
                    chirality: old.chirality,
                },
            );
            i += 1;
        }
        proof {
            assert(atoms@ =~= editable(g).atoms);
            assert forall|k: int| 0 <= k < atoms.len() implies crate::atom::atom_ok(#[trigger] atoms@[k]) by {
                assert(crate::atom::atom_ok(g.atoms[k]));
            }
        }
        RWMol::from_parts(atoms, bonds)
    }

    /// The molecule without the hydrogen atoms that only hang on another atom: each is
    /// counted in the record of that atom instead.
    pub fn remove_hs(&self) -> (r: ROMol)
        ensures
            r@ == without_hydrogens(self@),
    {
        proof {
            use_type_invariant(self);
        }
        let (atoms, bonds) = strip_hydrogens(&self.atoms, &self.bonds);
        ROMol { atoms, bonds }
    }

    /// The fingerprint of the molecule with the usual radius of 2 and 2048 bits.
    pub fn fingerprint(&self) -> (f: Fingerprint)
        ensures
            f@ == fingerprint_of(self@, 2, 2048),
    {
        self.fingerprint_with(2, 2048)
    }

    /// The fingerprint of the molecule over surroundings of up to `radius` bonds,
    /// folded into `size` bits.
    pub fn fingerprint_with(&self, radius: u32, size: usize) -> (f: Fingerprint)
        ensures
            f@ == fingerprint_of(self@, radius, size),
    {
        proof {
            use_type_invariant(self);
        }
        fingerprint_graph(&self.atoms, &self.bonds, radius, size)
    }

    /// The hashes that the usual fingerprint is folded from, each as a decimal number.
    pub fn fingerprint_2_vec(&self) -> (r: Vec<String>)
        ensures
            r.len() == fingerprint_of(self@, 2, 2048).hashes.len(),
            forall|i: int|
                0 <= i < r.len() ==> (#[trigger] r[i])@ == as_chars(
                    decimal(fingerprint_of(self@, 2, 2048).hashes[i] as nat),
                ),
    {
        let f = self.fingerprint();
        let mut r: Vec<String> = Vec::new();
        let mut i: usize = 0;
        while i < f.hashes.len()
            invariant
                i <= f.hashes.len(),
                r.len() == i,
                forall|k: int| 0 <= k < i ==> (#[trigger] r[k])@ == as_chars(decimal(f.hashes[k] as nat)),
            decreases f.hashes.len() - i,
        {
            let mut digits: Vec<u8> = Vec::new();
            write_number(f.hashes[i], &mut digits);
            assert(digits@ =~= decimal(f.hashes[i as int] as nat));
            r.push(string_of(&digits));
            i += 1;
        }
        r
    }

    /// The number of atoms: those of the graph, and with them, unless `only_explicit`,
    /// the hydrogens that their records show. `usize::MAX` where the number is larger.
    pub fn num_atoms(&self, only_explicit: bool) -> (n: usize)
        ensures
            only_explicit ==> n == self@.atoms.len(),
            !only_explicit ==> n == if self@.atoms.len() + shown_hydrogens_upto(
                self@,
                self@.atoms.len() as int,
            ) > usize::MAX {
                usize::MAX as int
            } else {
                self@.atoms.len() + shown_hydrogens_upto(self@, self@.atoms.len() as int)
            },
    {
        if only_explicit {
            return self.atoms.len();
        }
        let mut n: usize = self.atoms.len();
        let mut over = false;
        let mut i: usize = 0;
        while i < self.atoms.len()
            invariant
                i <= self.atoms.len(),
                shown_hydrogens_upto(self@, i as int) >= 0,
                !over ==> n == self.atoms.len() + shown_hydrogens_upto(self@, i as int),
                over ==> self.atoms.len() + shown_hydrogens_upto(self@, i as int) > usize::MAX,
            decreases self.atoms.len() - i,
        {
            let h: usize = match self.atoms[i].hydrogens {
                Some(h) => h as usize,
                None => 0,
            };
            if !over {
                if n > usize::MAX - h {
                    over = true;
                } else {
                    n = n + h;
                }
            }
            i += 1;
        }
        if over {
            usize::MAX
        } else {
            n
        }
    }

    pub fn num_bonds(&self) -> (n: usize)
        ensures
            n == self@.bonds.len(),
    {
        self.bonds.len()
    }

    /// Atom `index`, if there is one.
    pub fn atom(&self, index: usize) -> (r: Option<Atom>)
        ensures
            r == if index < self@.atoms.len() {
                Some(self@.atoms[index as int])
            } else {
                None
            },
    {
        if index < self.atoms.len() {
            Some(self.atoms[index])
        } else {
            None
        }
    }

    /// Bond `index`, if there is one.
    pub fn bond(&self, index: usize) -> (r: Option<Bond>)
        ensures
            r == if index < self@.bonds.len() {
                Some(self@.bonds[index as int])
            } else {
                None
            },
    {
        if index < self.bonds.len() {
            Some(self.bonds[index])
        } else {
            None
        }
    }

    /// The rings of the molecule: for every bond on a ring, the smallest ring through
    /// it, each ring once, as the atoms on it in walking order.
    pub fn rings(&self) -> (r: Vec<Vec<usize>>)
        ensures
            rings_view(r@) == ring_list(self@),
    {
        proof {
            use_type_invariant(self);
        }
        let info = perceive_rings(self.atoms.len(), &self.bonds, Ghost(self@));
        info.rings
    }
}

} // verus!
