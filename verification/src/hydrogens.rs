use vstd::prelude::*;
use crate::atom::{Atom, Chirality};
use crate::bond::{Bond, BondOrder};
use crate::graph::Graph;
use crate::ranks::{degrees, shown_hydrogens};

verus! {

/// A hydrogen atom with nothing special about it.
pub open spec fn plain_hydrogen(a: Atom) -> bool {
    a.element == 1 && a.charge == 0 && a.isotope is None && shown_hydrogens(a) == 0 && a.chirality
        == Chirality::Unspecified
}

/// The first bond from `from` on that ends at atom `a`.
pub open spec fn first_bond_at(g: Graph, a: int, from: int) -> Option<int>
    decreases g.bonds.len() - from,
{
    if from < 0 || from >= g.bonds.len() {
        None
    } else if g.bonds[from].touches(a) {
        Some(from)
    } else {
        first_bond_at(g, a, from + 1)
    }
}

/// Atom `a` is a plain hydrogen with one bond, a single bond to an atom that is no
/// hydrogen.
pub open spec fn is_leaf_hydrogen(g: Graph, a: int) -> bool {
    plain_hydrogen(g.atoms[a]) && g.degree(a) == 1 && match first_bond_at(g, a, 0) {
        Some(j) => g.bonds[j].order == BondOrder::Single && g.atoms[g.bonds[j].other(a)].element != 1,
        None => false,
    }
}

/// The number of bonds among the first `k` that join atom `b` to a leaf hydrogen.
pub open spec fn leaf_count(g: Graph, b: int, k: int) -> int
    decreases k,
{
    if k <= 0 {
        0
    } else {
        leaf_count(g, b, k - 1) + if g.bonds[k - 1].touches(b) && is_leaf_hydrogen(
            g,
            g.bonds[k - 1].other(b),
        ) {
            1int
        } else {
            0int
        }
    }
}

/// Whether the leaf hydrogens at atom `b` can be counted in its record: the record
/// leaves the count to be inferred, or has room for them.
pub open spec fn takes_leaves(g: Graph, b: int) -> bool {
    match g.atoms[b].hydrogens {
        Some(h) => h + leaf_count(g, b, g.bonds.len() as int) <= 9,
        None => true,
    }
}

/// Whether atom `a` is taken out: a leaf hydrogen whose neighbour can count it.
pub open spec fn is_removed(g: Graph, a: int) -> bool {
    is_leaf_hydrogen(g, a) && match first_bond_at(g, a, 0) {
        Some(j) => takes_leaves(g, g.bonds[j].other(a)),
        None => false,
    }
}

/// Atom `b` with the leaf hydrogens at it counted in its record.
pub open spec fn with_leaves(g: Graph, b: int) -> Atom {
    match g.atoms[b].hydrogens {
        Some(h) => if takes_leaves(g, b) {
            Atom { hydrogens: Some((h + leaf_count(g, b, g.bonds.len() as int)) as u8), ..g.atoms[b] }
        } else {
            g.atoms[b]
        },
        None => g.atoms[b],
    }
}

/// The atoms among the first `k` that stay.
pub open spec fn kept_atoms(g: Graph, k: int) -> Seq<Atom>
    decreases k,
{
    if k <= 0 {
        Seq::empty()
    } else if is_removed(g, k - 1) {
        kept_atoms(g, k - 1)
    } else {
        kept_atoms(g, k - 1).push(with_leaves(g, k - 1))
    }
}

/// The bonds among the first `k` between atoms that stay, between the new indices of
/// their atoms.
pub open spec fn kept_bonds(g: Graph, k: int) -> Seq<Bond>
    decreases k,
{
    if k <= 0 {
        Seq::empty()
    } else if is_removed(g, g.bonds[k - 1].begin as int) || is_removed(g, g.bonds[k - 1].end as int) {
        kept_bonds(g, k - 1)
    } else {
        kept_bonds(g, k - 1).push(
            Bond {
                begin: kept_atoms(g, g.bonds[k - 1].begin as int).len() as usize,
                end: kept_atoms(g, g.bonds[k - 1].end as int).len() as usize,
                ..g.bonds[k - 1]
            },
        )
    }
}

/// The graph without its leaf hydrogens: each is taken out with its bond and counted
/// in the record of its neighbour.
pub open spec fn without_hydrogens(g: Graph) -> Graph {
    Graph {
        atoms: kept_atoms(g, g.atoms.len() as int),
        bonds: kept_bonds(g, g.bonds.len() as int),
    }
}

proof fn lemma_kept_grows(g: Graph, a: int, b: int)
    requires
        0 <= a <= b,
    ensures
        kept_atoms(g, a).len() <= kept_atoms(g, b).len(),
        kept_atoms(g, b).len() <= b,
        a < b && !is_removed(g, a) ==> kept_atoms(g, a).len() < kept_atoms(g, b).len(),
    decreases b,
{
    if a < b {
        lemma_kept_grows(g, a, b - 1);
    } else {
        lemma_kept_len(g, b);
    }
}

proof fn lemma_kept_len(g: Graph, k: int)
    requires
        0 <= k,
    ensures
        kept_atoms(g, k).len() <= k,
    decreases k,
{
    if k > 0 {
        lemma_kept_len(g, k - 1);
    }
}

fn find_first(a: usize, bonds: &Vec<Bond>, Ghost(g): Ghost<Graph>) -> (r: Option<usize>)
    requires
        g.bonds == bonds@,
    ensures
        match r {
            Some(j) => first_bond_at(g, a as int, 0) == Some(j as int) && j < bonds.len(),
            None => first_bond_at(g, a as int, 0) is None,
        },
{
    let mut j: usize = 0;
    while j < bonds.len()
        invariant
            j <= bonds.len(),
            g.bonds == bonds@,
            first_bond_at(g, a as int, 0) == first_bond_at(g, a as int, j as int),
        decreases bonds.len() - j,
    {
        if bonds[j].begin == a || bonds[j].end == a {
            return Some(j);
        }
        j += 1;
    }
    None
}

fn far_end(b: &Bond, a: usize) -> (u: usize)
    ensures
        u == b.other(a as int),
{
    if b.begin == a {
        b.end
    } else {
        b.begin
    }
}

fn leaves(atoms: &Vec<Atom>, bonds: &Vec<Bond>, Ghost(g): Ghost<Graph>) -> (leaf: Vec<bool>)
    requires
        g == (Graph { atoms: atoms@, bonds: bonds@ }),
        g.wf(),
    ensures
        leaf.len() == atoms.len(),
        forall|a: int| 0 <= a < atoms.len() ==> #[trigger] leaf[a] == is_leaf_hydrogen(g, a),
{
    let n = atoms.len();
    let d = degrees(n, bonds, Ghost(g));
    let mut leaf: Vec<bool> = Vec::new();
    let mut a: usize = 0;
    while a < n
        invariant
            a <= n,
            n == atoms.len(),
            g == (Graph { atoms: atoms@, bonds: bonds@ }),
            g.wf(),
            d.len() == n,
            forall|x: int| 0 <= x < n ==> #[trigger] d[x] == g.degree(x),
            leaf.len() == a,
            forall|x: int| 0 <= x < a ==> #[trigger] leaf[x] == is_leaf_hydrogen(g, x),
        decreases n - a,
    {
        let x = atoms[a];
        let shown = match x.hydrogens {
            Some(h) => h,
            None => 0,
        };
        let plain = x.element == 1 && x.charge == 0 && x.isotope.is_none() && shown == 0 && x.chirality
            == Chirality::Unspecified;
        let mut is_leaf = false;
        if plain && d[a] == 1 {
            if let Some(j) = find_first(a, bonds, Ghost(g)) {
                let b = bonds[j];
                let u = far_end(&b, a);
                assert(g.bonds[j as int].begin < n && g.bonds[j as int].end < n);
                is_leaf = b.order == BondOrder::Single && atoms[u].element != 1;
            }
        }
        leaf.push(is_leaf);
        a += 1;
    }
    leaf
}

fn count_leaves(b: usize, bonds: &Vec<Bond>, leaf: &Vec<bool>, Ghost(g): Ghost<Graph>) -> (c: usize)
    requires
        g.bonds == bonds@,
        g.wf(),
        leaf.len() == g.atoms.len(),
        forall|a: int| 0 <= a < leaf.len() ==> #[trigger] leaf[a] == is_leaf_hydrogen(g, a),
    ensures
        c == leaf_count(g, b as int, bonds.len() as int),
{
    let mut c: usize = 0;
    let mut j: usize = 0;
    while j < bonds.len()
        invariant
            j <= bonds.len(),
            g.bonds == bonds@,
            g.wf(),
            leaf.len() == g.atoms.len(),
            forall|a: int| 0 <= a < leaf.len() ==> #[trigger] leaf[a] == is_leaf_hydrogen(g, a),
            c == leaf_count(g, b as int, j as int),
            c <= j,
        decreases bonds.len() - j,
    {
        let x = bonds[j];
        assert(g.bonds[j as int].begin < leaf.len() && g.bonds[j as int].end < leaf.len());
        if x.begin == b || x.end == b {
            let u = far_end(&x, b);
            if leaf[u] {
                c += 1;
            }
        }
        j += 1;
    }
    c
}

/// Takes the leaf hydrogens out of a graph.
pub(crate) fn strip_hydrogens(atoms: &Vec<Atom>, bonds: &Vec<Bond>) -> (r: (Vec<Atom>, Vec<Bond>))
    requires
        (Graph { atoms: atoms@, bonds: bonds@ }).wf(),
    ensures
        (Graph { atoms: r.0@, bonds: r.1@ }) == without_hydrogens(Graph { atoms: atoms@, bonds: bonds@ }),
        (Graph { atoms: r.0@, bonds: r.1@ }).wf(),
{
    let ghost g = Graph { atoms: atoms@, bonds: bonds@ };
    let n = atoms.len();
    let m = bonds.len();
    let leaf = leaves(atoms, bonds, Ghost(g));
    let mut counts: Vec<usize> = Vec::new();
    let mut takes: Vec<bool> = Vec::new();
    let mut b: usize = 0;
    while b < n
        invariant
            b <= n,
            n == atoms.len(),
            m == bonds.len(),
            g == (Graph { atoms: atoms@, bonds: bonds@ }),
            g.wf(),
            leaf.len() == n,
            forall|a: int| 0 <= a < n ==> #[trigger] leaf[a] == is_leaf_hydrogen(g, a),
            counts.len() == b,
            takes.len() == b,
            forall|x: int| 0 <= x < b ==> #[trigger] counts[x] == leaf_count(g, x, m as int),
            forall|x: int| 0 <= x < b ==> #[trigger] takes[x] == takes_leaves(g, x),
        decreases n - b,
    {
        let c = count_leaves(b, bonds, &leaf, Ghost(g));
        counts.push(c);
        takes.push(
            match atoms[b].hydrogens {
                Some(h) => c <= 9 && h as usize + c <= 9,
                None => true,
            },
        );
        b += 1;
    }
    let mut gone: Vec<bool> = Vec::new();
    let mut a: usize = 0;
    while a < n
        invariant
            a <= n,
            n == atoms.len(),
            g == (Graph { atoms: atoms@, bonds: bonds@ }),
            g.wf(),
            leaf.len() == n,
            takes.len() == n,
            forall|x: int| 0 <= x < n ==> #[trigger] leaf[x] == is_leaf_hydrogen(g, x),
            forall|x: int| 0 <= x < n ==> #[trigger] takes[x] == takes_leaves(g, x),
            gone.len() == a,
            forall|x: int| 0 <= x < a ==> #[trigger] gone[x] == is_removed(g, x),
        decreases n - a,
    {
        let mut out = false;
        if leaf[a] {
            if let Some(j) = find_first(a, bonds, Ghost(g)) {
                assert(g.bonds[j as int].begin < n && g.bonds[j as int].end < n);
                out = takes[far_end(&bonds[j], a)];
            }
        }
        gone.push(out);
        a += 1;
    }
    let mut map: Vec<usize> = Vec::new();
    let mut atoms2: Vec<Atom> = Vec::new();
    let mut a: usize = 0;
    while a < n
        invariant
            a <= n,
            n == atoms.len(),
            m == bonds.len(),
            g == (Graph { atoms: atoms@, bonds: bonds@ }),
            g.wf(),
            gone.len() == n,
            counts.len() == n,
            takes.len() == n,
            forall|x: int| 0 <= x < n ==> #[trigger] gone[x] == is_removed(g, x),
            forall|x: int| 0 <= x < n ==> #[trigger] counts[x] == leaf_count(g, x, m as int),
            forall|x: int| 0 <= x < n ==> #[trigger] takes[x] == takes_leaves(g, x),
            map.len() == a,
            forall|x: int| 0 <= x < a ==> #[trigger] map[x] == kept_atoms(g, x).len(),
            atoms2@ == kept_atoms(g, a as int),
            forall|i: int| 0 <= i < atoms2.len() ==> crate::atom::atom_ok(#[trigger] atoms2[i]),
        decreases n - a,
    {
        map.push(atoms2.len());
        if !gone[a] {
            let old = atoms[a];
            assert(crate::atom::atom_ok(g.atoms[a as int]));
            let hydrogens = match old.hydrogens {
                Some(h) => if takes[a] {
                    Some(h + counts[a] as u8)
                } else {
                    Some(h)
                },
                None => None,
            };
            atoms2.push(
                Atom {
                    element: old.element,
                    charge: old.charge,
                    isotope: old.isotope,
                    hydrogens,
                    aromatic: old.aromatic,
                    in_ring: old.in_ring,
                    chirality: old.chirality,
                },
            );
        }
        a += 1;
    }
    let mut bonds2: Vec<Bond> = Vec::new();
    let mut j: usize = 0;
    while j < m
        invariant
            j <= m,
            n == atoms.len(),
            m == bonds.len(),
            g == (Graph { atoms: atoms@, bonds: bonds@ }),
            g.wf(),
            gone.len() == n,
            map.len() == n,
            forall|x: int| 0 <= x < n ==> #[trigger] gone[x] == is_removed(g, x),
            forall|x: int| 0 <= x < n ==> #[trigger] map[x] == kept_atoms(g, x).len(),
            atoms2@ == kept_atoms(g, n as int),
            bonds2@ == kept_bonds(g, j as int),
            forall|k: int|
                0 <= k < bonds2.len() ==> (#[trigger] bonds2[k]).begin < atoms2.len() && bonds2[k].end
                    < atoms2.len() && bonds2[k].begin != bonds2[k].end,
        decreases m - j,
    {
        let b = bonds[j];
        assert(g.bonds[j as int].begin < n && g.bonds[j as int].end < n && g.bonds[j as int].begin
            != g.bonds[j as int].end);
        if !gone[b.begin] && !gone[b.end] {
            proof {
                lemma_kept_grows(g, b.begin as int, n as int);
                lemma_kept_grows(g, b.end as int, n as int);
                if b.begin < b.end {
                    lemma_kept_grows(g, b.begin as int, b.end as int);
                } else {
                    lemma_kept_grows(g, b.end as int, b.begin as int);
                }
            }
            bonds2.push(
                Bond {
                    begin: map[b.begin],
                    end: map[b.end],
                    order: b.order,
                    in_ring: b.in_ring,
                    stereo: b.stereo,
                },
            );
        }
        j += 1;
    }
    (atoms2, bonds2)
}

} // verus!
