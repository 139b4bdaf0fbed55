use vstd::prelude::*;
use crate::atom::{element_max_valence, element_target_valence, Atom};
use crate::bond::{Bond, BondOrder};
use crate::chem::{
    atom_on_aromatic,
    bond_on_aromatic,
    gives_one,
    is_aromatic_ring,
    lone_pair,
    ring_electrons,
};
use crate::error::{SanitizeError, SanitizeErrorKind};
use crate::graph::Graph;
use crate::rings::{atom_in_ring, bond_in_ring, perceive_rings, ring_list, rings_view, ring_holds};

verus! {

/// Bond `j` joins an atom to itself, or two atoms that an earlier bond joins.
pub open spec fn bad_bond(g: Graph, j: int) -> bool {
    g.bonds[j].begin == g.bonds[j].end || exists|k: int|
        0 <= k < j && #[trigger] g.bonds[k].joins(g.bonds[j].begin as int, g.bonds[j].end as int)
}

pub open spec fn first_bad_bond(g: Graph, from: int) -> Option<int>
    decreases g.bonds.len() - from,
{
    if from < 0 || from >= g.bonds.len() {
        None
    } else if bad_bond(g, from) {
        Some(from)
    } else {
        first_bad_bond(g, from + 1)
    }
}

/// Atom `a` is written as part of an aromatic system and lies on no aromatic ring.
pub open spec fn misplaced(g: Graph, a: int) -> bool {
    g.is_pi(a) && !atom_on_aromatic(g, ring_list(g), a)
}

pub open spec fn first_misplaced(g: Graph, from: int) -> Option<int>
    decreases g.atoms.len() - from,
{
    if from < 0 || from >= g.atoms.len() {
        None
    } else if misplaced(g, from) {
        Some(from)
    } else {
        first_misplaced(g, from + 1)
    }
}

pub open spec fn first_over_valence(g: Graph, from: int) -> Option<int>
    decreases g.atoms.len() - from,
{
    if from < 0 || from >= g.atoms.len() {
        None
    } else if g.over_valence(from) {
        Some(from)
    } else {
        first_over_valence(g, from + 1)
    }
}

/// Atom `a` as it stands in the sanitized graph: with its hydrogens counted, and marked
/// by the rings it lies on.
pub open spec fn sanitized_atom(g: Graph, a: int) -> Atom {
    Atom {
        hydrogens: Some(g.hydrogens(a) as u8),
        aromatic: atom_on_aromatic(g, ring_list(g), a),
        in_ring: atom_in_ring(g, a),
        ..g.atoms[a]
    }
}

/// Bond `j` as it stands in the sanitized graph: aromatic exactly where it lies on an
/// aromatic ring.
pub open spec fn sanitized_bond(g: Graph, j: int) -> Bond {
    Bond {
        in_ring: bond_in_ring(g, j),
        order: if bond_on_aromatic(g, ring_list(g), j) {
            BondOrder::Aromatic
        } else if g.bonds[j].order == BondOrder::Aromatic {
            BondOrder::Single
        } else {
            g.bonds[j].order
        },
        ..g.bonds[j]
    }
}

pub open spec fn sanitized(g: Graph) -> Graph {
    Graph {
        atoms: Seq::new(g.atoms.len(), |a: int| sanitized_atom(g, a)),
        bonds: Seq::new(g.bonds.len(), |j: int| sanitized_bond(g, j)),
    }
}

/// The molecule that a graph stands for, or the first thing that keeps it from being
/// one. The stages run in this order: the bonds must form a simple graph; every atom
/// written as aromatic must lie on an aromatic ring; with `strict`, no atom may exceed
/// its valence.
pub open spec fn sanitize_spec(g: Graph, strict: bool) -> Result<Graph, SanitizeError> {
    if let Some(j) = first_bad_bond(g, 0) {
        Err(SanitizeError { kind: SanitizeErrorKind::RingPerception, index: j as usize })
    } else if let Some(a) = first_misplaced(g, 0) {
        Err(SanitizeError { kind: SanitizeErrorKind::Aromaticity, index: a as usize })
    } else if strict && first_over_valence(g, 0) is Some {
        Err(
            SanitizeError {
                kind: SanitizeErrorKind::Valence,
                index: first_over_valence(g, 0).unwrap() as usize,
            },
        )
    } else {
        Ok(sanitized(g))
    }
}

pub open spec fn capped(x: int) -> int {
    if x > 1000 {
        1000
    } else {
        x
    }
}

fn bump(c: u32, by: u32) -> (r: u32)
    requires
        c <= 1000,
        by <= 3,
    ensures
        r == capped(c + by),
{
    if c + by > 1000 {
        1000
    } else {
        c + by
    }
}

fn find_bad_bond(bonds: &Vec<Bond>, Ghost(g): Ghost<Graph>) -> (r: Option<usize>)
    requires
        g.bonds == bonds@,
    ensures
        match r {
            Some(j) => first_bad_bond(g, 0) == Some(j as int),
            None => first_bad_bond(g, 0) is None,
        },
{
    let mut j: usize = 0;
    while j < bonds.len()
        invariant
            j <= bonds.len(),
            g.bonds == bonds@,
            first_bad_bond(g, 0) == first_bad_bond(g, j as int),
        decreases bonds.len() - j,
    {
        let b = bonds[j];
        if b.begin == b.end {
            return Some(j);
        }
        let mut k: usize = 0;
        while k < j
            invariant
                k <= j < bonds.len(),
                g.bonds == bonds@,
                b == bonds[j as int],
                b.begin != b.end,
                first_bad_bond(g, 0) == first_bad_bond(g, j as int),
                forall|i: int| 0 <= i < k ==> !(#[trigger] g.bonds[i]).joins(b.begin as int, b.end as int),
            decreases j - k,
        {
            let c = bonds[k];
            if (c.begin == b.begin && c.end == b.end) || (c.begin == b.end && c.end == b.begin) {
                assert(g.bonds[k as int].joins(
                    g.bonds[j as int].begin as int,
                    g.bonds[j as int].end as int,
                ));
                assert(bad_bond(g, j as int));
                return Some(j);
            }
            k += 1;
        }
        j += 1;
    }
    None
}

/// What the bonds at one atom add up to, each count capped at 1000.
pub struct Tally {
    pub degree: u32,
    pub sum: u32,
    pub doubles: u32,
    pub triples: u32,
    pub aromatics: u32,
    pub first_double: Option<usize>,
}

impl Tally {
    pub open spec fn counts(&self, g: Graph, a: int, k: int) -> bool {
        &&& self.degree == capped(g.degree_upto(a, k))
        &&& self.sum == capped(g.bond_sum_upto(a, k))
        &&& self.doubles == capped(g.count_order(a, BondOrder::Double, k))
        &&& self.triples == capped(g.count_order(a, BondOrder::Triple, k))
        &&& self.aromatics == capped(g.count_order(a, BondOrder::Aromatic, k))
        &&& match self.first_double {
            Some(j) => g.first_of_order(a, BondOrder::Double, 0) == Some(j as int) && j < k,
            None => g.first_of_order(a, BondOrder::Double, 0) == g.first_of_order(
                a,
                BondOrder::Double,
                k,
            ),
        }
    }
}

pub proof fn lemma_counts_nonneg(g: Graph, a: int, o: BondOrder, k: int)
    ensures
        0 <= g.count_order(a, o, k),
        0 <= g.degree_upto(a, k),
        0 <= g.bond_sum_upto(a, k),
    decreases k,
{
    if k > 0 {
        lemma_counts_nonneg(g, a, o, k - 1);
    }
}

pub(crate) fn tally(a: usize, bonds: &Vec<Bond>, Ghost(g): Ghost<Graph>) -> (t: Tally)
    requires
        g.bonds == bonds@,
    ensures
        t.counts(g, a as int, bonds.len() as int),
{
    let mut t = Tally { degree: 0, sum: 0, doubles: 0, triples: 0, aromatics: 0, first_double: None };
    let mut j: usize = 0;
    while j < bonds.len()
        invariant
            j <= bonds.len(),
            g.bonds == bonds@,
            t.counts(g, a as int, j as int),
        decreases bonds.len() - j,
    {
        let b = bonds[j];
        proof {
            lemma_counts_nonneg(g, a as int, BondOrder::Double, j as int);
            lemma_counts_nonneg(g, a as int, BondOrder::Triple, j as int);
            lemma_counts_nonneg(g, a as int, BondOrder::Aromatic, j as int);
        }
        if b.begin == a || b.end == a {
            assert(g.bonds[j as int].touches(a as int));
            t.degree = bump(t.degree, 1);
            t.sum = bump(t.sum, crate::bond::weight(b.order));
            match b.order {
                BondOrder::Double => {
                    t.doubles = bump(t.doubles, 1);
                    if t.first_double.is_none() {
                        t.first_double = Some(j);
                    }
                },
                BondOrder::Triple => {
                    t.triples = bump(t.triples, 1);
                },
                BondOrder::Aromatic => {
                    t.aromatics = bump(t.aromatics, 1);
                },
                BondOrder::Single => {},
            }
        }
        j += 1;
    }
    t
}

/// The hydrogens that an atom gets where its record gives no count.
pub(crate) fn inferred_count(atom: &Atom, t: &Tally, Ghost(g): Ghost<Graph>, Ghost(a): Ghost<int>) -> (h: u8)
    requires
        0 <= a < g.atoms.len(),
        g.atoms[a] == *atom,
        t.counts(g, a, g.bonds.len() as int),
    ensures
        h == g.inferred_hydrogens(a),
        h <= 6,
{
    proof {
        lemma_counts_nonneg(g, a, BondOrder::Aromatic, g.bonds.len() as int);
    }
    let z = atom.element;
    if atom.charge != 0 {
        0
    } else if atom.aromatic || t.aromatics > 0 {
        match element_target_valence(z, 0) {
            Some(low) => if (low as u32) > t.sum + 1 {
                low - (t.sum as u8) - 1
            } else {
                0
            },
            None => 0,
        }
    } else {
        match element_target_valence(z, t.sum) {
            Some(v) => v - (t.sum as u8),
            None => 0,
        }
    }
}

/// What the chemistry of one atom comes to.
struct Facts {
    hydrogens: u8,
    is_pi: bool,
    pi: Option<u8>,
    over: bool,
}

fn one_electron(z: u8, q: i8, sigma: u32) -> (r: bool)
    ensures
        r == gives_one(z, q as int, sigma as int),
{
    if z == 6 {
        q == 0 && sigma == 3
    } else if z == 7 || z == 15 || z == 33 {
        (q == 0 && sigma == 2) || (q == 1 && sigma == 3)
    } else if z == 8 || z == 16 || z == 34 {
        q == 1 && sigma == 2
    } else {
        false
    }
}

fn pair(z: u8, q: i8, sigma: u32) -> (r: Option<u8>)
    ensures
        r is Some == lone_pair(z, q as int, sigma as int) is Some,
        r matches Some(e) ==> lone_pair(z, q as int, sigma as int) == Some(e as int),
{
    if z == 5 {
        if q == 0 && sigma == 3 {
            Some(0)
        } else {
            None
        }
    } else if z == 6 {
        if q == -1 && sigma == 3 {
            Some(2)
        } else if q == 1 && sigma == 3 {
            Some(0)
        } else {
            None
        }
    } else if z == 7 || z == 15 || z == 33 {
        if (q == 0 && sigma == 3) || (q == -1 && sigma == 2) {
            Some(2)
        } else {
            None
        }
    } else if z == 8 || z == 16 || z == 34 {
        if q == 0 && sigma == 2 {
            Some(2)
        } else {
            None
        }
    } else {
        None
    }
}

fn facts(a: usize, atoms: &Vec<Atom>, bonds: &Vec<Bond>, in_ring: &Vec<bool>, Ghost(g): Ghost<Graph>) -> (f:
    Facts)
    requires
        g.atoms == atoms@,
        g.bonds == bonds@,
        g.wf(),
        a < atoms.len(),
        in_ring.len() == bonds.len(),
        forall|j: int| 0 <= j < bonds.len() ==> #[trigger] in_ring[j] == bond_in_ring(g, j),
    ensures
        f.hydrogens == g.hydrogens(a as int),
        f.is_pi == g.is_pi(a as int),
        f.pi is Some == g.pi_electrons(a as int) is Some,
        f.pi matches Some(e) ==> g.pi_electrons(a as int) == Some(e as int) && e <= 2,
        f.over == g.over_valence(a as int),
{
    let t = tally(a, bonds, Ghost(g));
    let atom = atoms[a];
    let z = atom.element;
    proof {
        lemma_counts_nonneg(g, a as int, BondOrder::Double, bonds.len() as int);
        lemma_counts_nonneg(g, a as int, BondOrder::Triple, bonds.len() as int);
        lemma_counts_nonneg(g, a as int, BondOrder::Aromatic, bonds.len() as int);
        assert(crate::atom::atom_ok(g.atoms[a as int]));
    }
    let is_pi = atom.aromatic || t.aromatics > 0;
    let hydrogens: u8 = match atom.hydrogens {
        Some(h) => h,
        None => {
            if atom.charge != 0 {
                0
            } else if is_pi {
                match element_target_valence(z, 0) {
                    Some(low) => if (low as u32) > t.sum + 1 {
                        low - (t.sum as u8) - 1
                    } else {
                        0
                    },
                    None => 0,
                }
            } else {
                match element_target_valence(z, t.sum) {
                    Some(v) => v - (t.sum as u8),
                    None => 0,
                }
            }
        },
    };
    let sigma: u32 = t.degree + hydrogens as u32;
    let one = one_electron(z, atom.charge, sigma);
    let pi: Option<u8> = if t.triples > 0 || t.doubles > 1 {
        None
    } else if t.doubles == 1 {
        match t.first_double {
            Some(j) => {
                let b = bonds[j];
                proof {
                    lemma_first_of_order(g, a as int, BondOrder::Double, 0);
                }
                if in_ring[j] {
                    if one {
                        Some(1)
                    } else {
                        None
                    }
                } else {
                    let other = if b.begin == a {
                        b.end
                    } else {
                        b.begin
                    };
                    let y = atoms[other].element;
                    if z == 6 && (y == 7 || y == 8 || y == 16) {
                        Some(0)
                    } else {
                        None
                    }
                }
            },
            None => None,
        }
    } else if is_pi && one {
        Some(1)
    } else {
        pair(z, atom.charge, sigma)
    };
    let hidden = is_pi && t.doubles == 0 && t.triples == 0 && one;
    let used: u32 = t.sum + hydrogens as u32 + if hidden {
        1
    } else {
        0
    };
    let over = match element_max_valence(z) {
        Some(v) => used as i64 + atom.charge as i64 > v as i64,
        None => false,
    };
    Facts { hydrogens, is_pi, pi, over }
}

pub proof fn lemma_first_of_order(g: Graph, a: int, o: BondOrder, from: int)
    requires
        0 <= from,
    ensures
        g.first_of_order(a, o, from) matches Some(j) ==> from <= j < g.bonds.len() && g.bonds[j].touches(
            a,
        ) && g.bonds[j].order == o,
    decreases g.bonds.len() - from,
{
    if from < g.bonds.len() && !(g.bonds[from].touches(a) && g.bonds[from].order == o) {
        lemma_first_of_order(g, a, o, from + 1);
    }
}

fn ring_aromatic(ring: &Vec<usize>, pi: &Vec<Option<u8>>, Ghost(g): Ghost<Graph>) -> (r: bool)
    requires
        pi.len() == g.atoms.len(),
        forall|a: int|
            0 <= a < pi.len() ==> (#[trigger] pi[a] is Some == g.pi_electrons(a) is Some) && (pi[a] matches Some(
                e,
            ) ==> g.pi_electrons(a) == Some(e as int) && e <= 2),
        forall|i: int| 0 <= i < ring.len() ==> #[trigger] ring[i] < pi.len(),
    ensures
        r == is_aromatic_ring(g, ring@),
{
    let mut acc: u8 = 0;
    let mut i: usize = 0;
    while i < ring.len()
        invariant
            i <= ring.len(),
            pi.len() == g.atoms.len(),
            forall|a: int|
                0 <= a < pi.len() ==> (#[trigger] pi[a] is Some == g.pi_electrons(a) is Some) && (
                pi[a] matches Some(e) ==> g.pi_electrons(a) == Some(e as int) && e <= 2),
            forall|k: int| 0 <= k < ring.len() ==> #[trigger] ring[k] < pi.len(),
            acc < 4,
            ring_electrons(g, ring@, i as int) matches Some(s) && s >= 0 && s % 4 == acc as int,
        decreases ring.len() - i,
    {
        let x = ring[i];
        assert(ring[i as int] < pi.len());
        match pi[x] {
            Some(e) => {
                acc = (acc + e) % 4;
            },
            None => {
                proof {
                    lemma_ring_electrons_none(g, ring@, i as int + 1, ring.len() as int);
                }
                return false;
            },
        }
        i += 1;
    }
    acc == 2
}

proof fn lemma_ring_electrons_none(g: Graph, ring: Seq<usize>, k: int, n: int)
    requires
        0 <= k <= n,
        ring_electrons(g, ring, k) is None,
    ensures
        ring_electrons(g, ring, n) is None,
    decreases n - k,
{
    if k < n {
        lemma_ring_electrons_none(g, ring, k, n - 1);
    }
}

fn on_aromatic(a: usize, rings: &Vec<Vec<usize>>, arom: &Vec<bool>, Ghost(g): Ghost<Graph>) -> (b: bool)
    requires
        arom.len() == rings.len(),
        forall|r: int| 0 <= r < rings.len() ==> #[trigger] arom[r] == is_aromatic_ring(g, rings[r]@),
    ensures
        b == atom_on_aromatic(g, rings_view(rings@), a as int),
{
    let mut r: usize = 0;
    while r < rings.len()
        invariant
            r <= rings.len(),
            arom.len() == rings.len(),
            forall|k: int| 0 <= k < rings.len() ==> #[trigger] arom[k] == is_aromatic_ring(g, rings[k]@),
            forall|k: int|
                0 <= k < r ==> !(is_aromatic_ring(g, #[trigger] rings_view(rings@)[k]) && rings_view(
                    rings@,
                )[k].contains(a)),
        decreases rings.len() - r,
    {
        if arom[r] && ring_holds(&rings[r], a) {
            assert(is_aromatic_ring(g, rings_view(rings@)[r as int]));
            return true;
        }
        r += 1;
    }
    false
}

fn both_on_aromatic(
    j: usize,
    bonds: &Vec<Bond>,
    rings: &Vec<Vec<usize>>,
    arom: &Vec<bool>,
    in_ring: bool,
    Ghost(g): Ghost<Graph>,
) -> (b: bool)
    requires
        g.bonds == bonds@,
        j < bonds.len(),
        in_ring == bond_in_ring(g, j as int),
        arom.len() == rings.len(),
        forall|r: int| 0 <= r < rings.len() ==> #[trigger] arom[r] == is_aromatic_ring(g, rings[r]@),
    ensures
        b == bond_on_aromatic(g, rings_view(rings@), j as int),
{
    if !in_ring {
        return false;
    }
    let x = bonds[j].begin;
    let y = bonds[j].end;
    let mut r: usize = 0;
    while r < rings.len()
        invariant
            r <= rings.len(),
            arom.len() == rings.len(),
            g.bonds == bonds@,
            j < bonds.len(),
            bond_in_ring(g, j as int),
            x == bonds[j as int].begin,
            y == bonds[j as int].end,
            forall|k: int| 0 <= k < rings.len() ==> #[trigger] arom[k] == is_aromatic_ring(g, rings[k]@),
            forall|k: int|
                0 <= k < r ==> !(is_aromatic_ring(g, #[trigger] rings_view(rings@)[k]) && rings_view(
                    rings@,
                )[k].contains(x) && rings_view(rings@)[k].contains(y)),
        decreases rings.len() - r,
    {
        if arom[r] && ring_holds(&rings[r], x) && ring_holds(&rings[r], y) {
            assert(is_aromatic_ring(g, rings_view(rings@)[r as int]));
            return true;
        }
        r += 1;
    }
    false
}

fn on_ring(a: usize, bonds: &Vec<Bond>, in_ring: &Vec<bool>, Ghost(g): Ghost<Graph>) -> (b: bool)
    requires
        g.bonds == bonds@,
        in_ring.len() == bonds.len(),
        forall|j: int| 0 <= j < bonds.len() ==> #[trigger] in_ring[j] == bond_in_ring(g, j),
    ensures
        b == atom_in_ring(g, a as int),
{
    let mut j: usize = 0;
    while j < bonds.len()
        invariant
            j <= bonds.len(),
            g.bonds == bonds@,
            in_ring.len() == bonds.len(),
            forall|k: int| 0 <= k < bonds.len() ==> #[trigger] in_ring[k] == bond_in_ring(g, k),
            forall|k: int| 0 <= k < j ==> !(#[trigger] g.bonds[k].touches(a as int) && bond_in_ring(g, k)),
        decreases bonds.len() - j,
    {
        if (bonds[j].begin == a || bonds[j].end == a) && in_ring[j] {
            assert(g.bonds[j as int].touches(a as int) && bond_in_ring(g, j as int));
            return true;
        }
        j += 1;
    }
    false
}

/// Checks the chemistry of a graph and completes it: finds its rings, settles which of
/// them are aromatic, holds every atom to its valence where `strict` asks for it, and
/// counts the hydrogens.
pub(crate) fn sanitize_graph(atoms: &Vec<Atom>, bonds: &Vec<Bond>, strict: bool) -> (r: Result<
    (Vec<Atom>, Vec<Bond>),
    SanitizeError,
>)
    requires
        (Graph { atoms: atoms@, bonds: bonds@ }).wf(),
    ensures
        match r {
            Ok((a2, b2)) => sanitize_spec(Graph { atoms: atoms@, bonds: bonds@ }, strict) == Ok::<
                _,
                SanitizeError,
            >(Graph { atoms: a2@, bonds: b2@ }),
            Err(e) => sanitize_spec(Graph { atoms: atoms@, bonds: bonds@ }, strict) == Err::<Graph, _>(e),
        },
{
    let ghost g = Graph { atoms: atoms@, bonds: bonds@ };
    let n = atoms.len();
    if let Some(j) = find_bad_bond(bonds, Ghost(g)) {
        return Err(SanitizeError { kind: SanitizeErrorKind::RingPerception, index: j });
    }
    let info = perceive_rings(n, bonds, Ghost(g));
    let mut hyd: Vec<u8> = Vec::new();
    let mut is_pi: Vec<bool> = Vec::new();
    let mut pi: Vec<Option<u8>> = Vec::new();
    let mut over: Vec<bool> = Vec::new();
    let mut a: usize = 0;
    while a < n
        invariant
            a <= n,
            n == atoms.len(),
            g == (Graph { atoms: atoms@, bonds: bonds@ }),
            g.wf(),
            info.bond_in_ring.len() == bonds.len(),
            forall|j: int| 0 <= j < bonds.len() ==> #[trigger] info.bond_in_ring[j] == bond_in_ring(g, j),
            hyd.len() == a,
            is_pi.len() == a,
            pi.len() == a,
            over.len() == a,
            forall|x: int| 0 <= x < a ==> #[trigger] hyd[x] == g.hydrogens(x),
            forall|x: int| 0 <= x < a ==> #[trigger] is_pi[x] == g.is_pi(x),
            forall|x: int| 0 <= x < a ==> #[trigger] over[x] == g.over_valence(x),
            forall|x: int|
                0 <= x < a ==> (#[trigger] pi[x] is Some == g.pi_electrons(x) is Some) && (pi[x] matches Some(
                    e,
                ) ==> g.pi_electrons(x) == Some(e as int) && e <= 2),
        decreases n - a,
    {
        let f = facts(a, atoms, bonds, &info.bond_in_ring, Ghost(g));
        hyd.push(f.hydrogens);
        is_pi.push(f.is_pi);
        pi.push(f.pi);
        over.push(f.over);
        a += 1;
    }
    let mut arom: Vec<bool> = Vec::new();
    let mut r: usize = 0;
    while r < info.rings.len()
        invariant
            r <= info.rings.len(),
            arom.len() == r,
            pi.len() == g.atoms.len(),
            n == g.atoms.len(),
            forall|x: int|
                0 <= x < pi.len() ==> (#[trigger] pi[x] is Some == g.pi_electrons(x) is Some) && (
                pi[x] matches Some(e) ==> g.pi_electrons(x) == Some(e as int) && e <= 2),
            forall|k: int, i: int|
                0 <= k < info.rings.len() && 0 <= i < info.rings[k].len() ==> #[trigger] info.rings[k][i] < n,
            forall|k: int| 0 <= k < r ==> #[trigger] arom[k] == is_aromatic_ring(g, info.rings[k]@),
        decreases info.rings.len() - r,
    {
        let flag = ring_aromatic(&info.rings[r], &pi, Ghost(g));
        arom.push(flag);
        r += 1;
    }
    let mut on_arom: Vec<bool> = Vec::new();
    let mut a: usize = 0;
    while a < n
        invariant
            a <= n,
            on_arom.len() == a,
            arom.len() == info.rings.len(),
            rings_view(info.rings@) == ring_list(g),
            forall|k: int| 0 <= k < info.rings.len() ==> #[trigger] arom[k] == is_aromatic_ring(g, info.rings[k]@),
            forall|x: int| 0 <= x < a ==> #[trigger] on_arom[x] == atom_on_aromatic(g, ring_list(g), x),
        decreases n - a,
    {
        let flag = on_aromatic(a, &info.rings, &arom, Ghost(g));
        on_arom.push(flag);
        a += 1;
    }
    let mut a: usize = 0;
    while a < n
        invariant
            a <= n,
            n == g.atoms.len(),
            on_arom.len() == n,
            is_pi.len() == n,
            forall|x: int| 0 <= x < n ==> #[trigger] on_arom[x] == atom_on_aromatic(g, ring_list(g), x),
            forall|x: int| 0 <= x < n ==> #[trigger] is_pi[x] == g.is_pi(x),
            first_misplaced(g, 0) == first_misplaced(g, a as int),
            first_bad_bond(g, 0) is None,
            g == (Graph { atoms: atoms@, bonds: bonds@ }),
        decreases n - a,
    {
        if is_pi[a] && !on_arom[a] {
            return Err(SanitizeError { kind: SanitizeErrorKind::Aromaticity, index: a });
        }
        a += 1;
    }
    if strict {
        let mut a: usize = 0;
        while a < n
            invariant
                a <= n,
                n == g.atoms.len(),
                over.len() == n,
                forall|x: int| 0 <= x < n ==> #[trigger] over[x] == g.over_valence(x),
                first_over_valence(g, 0) == first_over_valence(g, a as int),
                first_bad_bond(g, 0) is None,
                first_misplaced(g, 0) is None,
                strict,
                g == (Graph { atoms: atoms@, bonds: bonds@ }),
            decreases n - a,
        {
            if over[a] {
                return Err(SanitizeError { kind: SanitizeErrorKind::Valence, index: a });
            }
            a += 1;
        }
    }
    let mut atoms2: Vec<Atom> = Vec::new();
    let mut a: usize = 0;
    while a < n
        invariant
            a <= n,
            n == atoms.len(),
            g == (Graph { atoms: atoms@, bonds: bonds@ }),
            atoms2.len() == a,
            hyd.len() == n,
            on_arom.len() == n,
            info.bond_in_ring.len() == bonds.len(),
            forall|j: int| 0 <= j < bonds.len() ==> #[trigger] info.bond_in_ring[j] == bond_in_ring(g, j),
            forall|x: int| 0 <= x < n ==> #[trigger] hyd[x] == g.hydrogens(x),
            forall|x: int| 0 <= x < n ==> #[trigger] on_arom[x] == atom_on_aromatic(g, ring_list(g), x),
            forall|x: int| 0 <= x < a ==> #[trigger] atoms2[x] == sanitized_atom(g, x),
        decreases n - a,
    {
        let old = atoms[a];
        let ring = on_ring(a, bonds, &info.bond_in_ring, Ghost(g));
        atoms2.push(
            Atom {
                element: old.element,
                charge: old.charge,
                isotope: old.isotope,
                hydrogens: Some(hyd[a]),
                aromatic: on_arom[a],
                in_ring: ring,
                chirality: old.chirality,
            },
        );
        a += 1;
    }
    let mut bonds2: Vec<Bond> = Vec::new();
    let mut j: usize = 0;
    while j < bonds.len()
        invariant
            j <= bonds.len(),
            g == (Graph { atoms: atoms@, bonds: bonds@ }),
            bonds2.len() == j,
            arom.len() == info.rings.len(),
            rings_view(info.rings@) == ring_list(g),
            info.bond_in_ring.len() == bonds.len(),
            forall|k: int| 0 <= k < bonds.len() ==> #[trigger] info.bond_in_ring[k] == bond_in_ring(g, k),
            forall|k: int| 0 <= k < info.rings.len() ==> #[trigger] arom[k] == is_aromatic_ring(g, info.rings[k]@),
            forall|k: int| 0 <= k < j ==> #[trigger] bonds2[k] == sanitized_bond(g, k),
        decreases bonds.len() - j,
    {
        let old = bonds[j];
        let aromatic = both_on_aromatic(j, bonds, &info.rings, &arom, info.bond_in_ring[j], Ghost(g));
        let order = if aromatic {
            BondOrder::Aromatic
        } else if old.order == BondOrder::Aromatic {
            BondOrder::Single
        } else {
            old.order
        };
        bonds2.push(
            Bond { begin: old.begin, end: old.end, order, in_ring: info.bond_in_ring[j], stereo: old.stereo },
        );
        j += 1;
    }
    proof {
        assert(atoms2@ =~= sanitized(g).atoms);
        assert(bonds2@ =~= sanitized(g).bonds);
    }
    Ok((atoms2, bonds2))
}

pub proof fn lemma_ring_member(g: Graph, ring: Seq<usize>, k: int, i: int)
    requires
        0 <= i < k,
        ring_electrons(g, ring, k) is Some,
    ensures
        g.pi_electrons(ring[i] as int) is Some,
    decreases k,
{
    if i < k - 1 {
        lemma_ring_member(g, ring, k - 1, i);
    }
}

/// What a sanitized graph is made of is again a graph.
pub proof fn lemma_sanitized_wf(g: Graph)
    requires
        g.wf(),
        g.atoms.len() <= usize::MAX,
    ensures
        sanitized(g).wf(),
{
    let h = sanitized(g);
    assert forall|a: int| 0 <= a < h.atoms.len() implies crate::atom::atom_ok(#[trigger] h.atoms[a]) by {
        assert(crate::atom::atom_ok(g.atoms[a]));
        lemma_counts_nonneg(g, a, BondOrder::Single, g.bonds.len() as int);
        assert(0 <= g.hydrogens(a) <= 9);
        if atom_on_aromatic(g, ring_list(g), a) {
            let x = a as usize;
            let r = choose|r: int|
                0 <= r < ring_list(g).len() && is_aromatic_ring(g, #[trigger] ring_list(g)[r]) && ring_list(
                    g,
                )[r].contains(x);
            let ring = ring_list(g)[r];
            let i = ring.index_of(x);
            assert(ring[i] == x);
            lemma_ring_member(g, ring, ring.len() as int, i);
            assert(g.pi_electrons(a) is Some);
            assert(crate::atom::is_aromatic_element(g.atoms[a].element));
        }
        assert(h.atoms[a] == sanitized_atom(g, a));
    }
    assert forall|j: int| 0 <= j < h.bonds.len() implies (#[trigger] h.bonds[j]).begin < h.atoms.len()
        && h.bonds[j].end < h.atoms.len() && h.bonds[j].begin != h.bonds[j].end by {
        assert(g.bonds[j].begin < g.atoms.len());
    }
}

} // verus!
