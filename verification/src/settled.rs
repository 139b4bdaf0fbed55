use vstd::prelude::*;
use crate::atom::atom_ok;
use crate::bond::BondOrder;
use crate::chem::{atom_on_aromatic, bond_on_aromatic, is_aromatic_ring, ring_electrons};
use crate::graph::Graph;
use crate::sanitize::{
    first_bad_bond,
    first_misplaced,
    first_over_valence,
    lemma_counts_nonneg,
    lemma_first_of_order,
    lemma_ring_member,
    misplaced,
    sanitized,
    bad_bond,
};
use crate::rings::{
    add_rings,
    atom_in_ring,
    bond_in_ring,
    dist,
    dist_from,
    link_to,
    paths_back,
    paths_via,
    ring_list,
    rings_of,
    rings_upto,
    with_head,
    within,
};

verus! {

/// The two graphs have as many atoms, and the same bonds between them.
pub open spec fn same_ends(g: Graph, s: Graph) -> bool {
    &&& s.atoms.len() == g.atoms.len()
    &&& s.bonds.len() == g.bonds.len()
    &&& forall|j: int|
        0 <= j < g.bonds.len() ==> (#[trigger] s.bonds[j]).begin == g.bonds[j].begin && s.bonds[j].end
            == g.bonds[j].end
}

proof fn lemma_within(g: Graph, s: Graph, skip: int, src: int, k: nat, v: int)
    requires
        same_ends(g, s),
    ensures
        within(s, skip, src, k, v) == within(g, skip, src, k, v),
    decreases k,
{
    if k > 0 {
        let k1 = (k - 1) as nat;
        lemma_within(g, s, skip, src, k1, v);
        if exists|j: int| #[trigger] link_to(g, skip, j, v) && within(g, skip, src, k1, g.bonds[j].other(v)) {
            let j = choose|j: int| #[trigger] link_to(g, skip, j, v) && within(g, skip, src, k1, g.bonds[j].other(v));
            lemma_within(g, s, skip, src, k1, g.bonds[j].other(v));
            assert(s.bonds[j].begin == g.bonds[j].begin);
            assert(link_to(s, skip, j, v) && within(s, skip, src, k1, s.bonds[j].other(v)));
        }
        if exists|j: int| #[trigger] link_to(s, skip, j, v) && within(s, skip, src, k1, s.bonds[j].other(v)) {
            let j = choose|j: int| #[trigger] link_to(s, skip, j, v) && within(s, skip, src, k1, s.bonds[j].other(v));
            lemma_within(g, s, skip, src, k1, s.bonds[j].other(v));
            assert(s.bonds[j].begin == g.bonds[j].begin);
            assert(link_to(g, skip, j, v) && within(g, skip, src, k1, g.bonds[j].other(v)));
        }
    }
}

proof fn lemma_dist(g: Graph, s: Graph, skip: int, src: int, v: int, k: nat)
    requires
        same_ends(g, s),
    ensures
        dist_from(s, skip, src, v, k) == dist_from(g, skip, src, v, k),
    decreases g.atoms.len() + 1 - k,
{
    lemma_within(g, s, skip, src, k, v);
    if k <= g.atoms.len() && !within(g, skip, src, k, v) {
        lemma_dist(g, s, skip, src, v, k + 1);
    }
}

proof fn lemma_paths_back(g: Graph, s: Graph, skip: int, src: int, v: int, d: nat)
    requires
        same_ends(g, s),
    ensures
        paths_back(s, skip, src, v, d) == paths_back(g, skip, src, v, d),
    decreases d, g.bonds.len() + 1,
{
    if d > 0 {
        lemma_paths_via(g, s, skip, src, v, d, g.bonds.len() as int);
    }
}

proof fn lemma_paths_via(g: Graph, s: Graph, skip: int, src: int, v: int, d: nat, k: int)
    requires
        same_ends(g, s),
    ensures
        paths_via(s, skip, src, v, d, k) == paths_via(g, skip, src, v, d, k),
    decreases d, k,
{
    if !(k <= 0 || d == 0 || k > g.bonds.len()) {
        lemma_paths_via(g, s, skip, src, v, d, k - 1);
        assert(s.bonds[k - 1].begin == g.bonds[k - 1].begin);
        lemma_within(g, s, skip, src, (d - 1) as nat, g.bonds[k - 1].other(v));
        lemma_paths_back(g, s, skip, src, g.bonds[k - 1].other(v), (d - 1) as nat);
    }
}

/// Whether a bond lies on a ring, and the smallest rings through it, depend on the
/// bonds alone, not on what is marked on them.
pub proof fn lemma_bond_in_ring(g: Graph, s: Graph, j: int)
    requires
        same_ends(g, s),
        0 <= j < g.bonds.len(),
    ensures
        bond_in_ring(s, j) == bond_in_ring(g, j),
        rings_of(s, j) == rings_of(g, j),
{
    assert(s.bonds[j].begin == g.bonds[j].begin);
    lemma_dist(g, s, j, g.bonds[j].begin as int, g.bonds[j].end as int, 0);
    match dist(g, j, g.bonds[j].begin as int, g.bonds[j].end as int) {
        Some(d) => {
            lemma_paths_back(g, s, j, g.bonds[j].begin as int, g.bonds[j].end as int, d);
        },
        None => {},
    }
}

pub proof fn lemma_atom_in_ring(g: Graph, s: Graph, a: int)
    requires
        same_ends(g, s),
    ensures
        atom_in_ring(s, a) == atom_in_ring(g, a),
{
    if atom_in_ring(g, a) {
        let j = choose|j: int| 0 <= j < g.bonds.len() && #[trigger] g.bonds[j].touches(a) && bond_in_ring(g, j);
        lemma_bond_in_ring(g, s, j);
        assert(s.bonds[j].touches(a));
    }
    if atom_in_ring(s, a) {
        let j = choose|j: int| 0 <= j < s.bonds.len() && #[trigger] s.bonds[j].touches(a) && bond_in_ring(s, j);
        lemma_bond_in_ring(g, s, j);
        assert(s.bonds[j].begin == g.bonds[j].begin);
        assert(g.bonds[j].touches(a));
    }
}

proof fn lemma_rings_upto(g: Graph, s: Graph, k: int)
    requires
        same_ends(g, s),
        0 <= k <= g.bonds.len(),
    ensures
        rings_upto(s, k) == rings_upto(g, k),
    decreases k,
{
    if k > 0 {
        lemma_rings_upto(g, s, k - 1);
        lemma_bond_in_ring(g, s, k - 1);
    }
}

/// The rings of a graph depend on its bonds alone, not on what is marked on them.
pub proof fn lemma_ring_list(g: Graph, s: Graph)
    requires
        same_ends(g, s),
    ensures
        ring_list(s) == ring_list(g),
{
    lemma_rings_upto(g, s, g.bonds.len() as int);
}

/// The graph has passed the first two stages of sanitization.
pub open spec fn passes(g: Graph) -> bool {
    &&& g.wf()
    &&& g.atoms.len() <= usize::MAX
    &&& g.bonds.len() <= usize::MAX
    &&& first_bad_bond(g, 0) is None
    &&& first_misplaced(g, 0) is None
}

pub proof fn lemma_no_misplaced(g: Graph, from: int, a: int)
    requires
        first_misplaced(g, from) is None,
        0 <= from <= a < g.atoms.len(),
    ensures
        !misplaced(g, a),
    decreases g.atoms.len() - from,
{
    if from < a {
        lemma_no_misplaced(g, from + 1, a);
    }
}

pub proof fn lemma_no_bad_bond(g: Graph, from: int, j: int)
    requires
        first_bad_bond(g, from) is None,
        0 <= from <= j < g.bonds.len(),
    ensures
        !bad_bond(g, j),
    decreases g.bonds.len() - from,
{
    if from < j {
        lemma_no_bad_bond(g, from + 1, j);
    }
}

pub proof fn lemma_no_over(g: Graph, from: int, a: int)
    requires
        first_over_valence(g, from) is None,
        0 <= from <= a < g.atoms.len(),
    ensures
        !g.over_valence(a),
    decreases g.atoms.len() - from,
{
    if from < a {
        lemma_no_over(g, from + 1, a);
    }
}

pub proof fn lemma_first_none_bad(g: Graph, from: int)
    requires
        0 <= from,
        forall|j: int| from <= j < g.bonds.len() ==> !bad_bond(g, j),
    ensures
        first_bad_bond(g, from) is None,
    decreases g.bonds.len() - from,
{
    if from < g.bonds.len() {
        lemma_first_none_bad(g, from + 1);
    }
}

pub proof fn lemma_first_none_misplaced(g: Graph, from: int)
    requires
        0 <= from,
        forall|a: int| from <= a < g.atoms.len() ==> !misplaced(g, a),
    ensures
        first_misplaced(g, from) is None,
    decreases g.atoms.len() - from,
{
    if from < g.atoms.len() {
        lemma_first_none_misplaced(g, from + 1);
    }
}

pub proof fn lemma_first_none_over(g: Graph, from: int)
    requires
        0 <= from,
        forall|a: int| from <= a < g.atoms.len() ==> !g.over_valence(a),
    ensures
        first_over_valence(g, from) is None,
    decreases g.atoms.len() - from,
{
    if from < g.atoms.len() {
        lemma_first_none_over(g, from + 1);
    }
}

/// Whether bond `j` keeps its order when the graph is sanitized.
pub open spec fn keeps_order(g: Graph, j: int) -> bool {
    !bond_on_aromatic(g, ring_list(g), j) && g.bonds[j].order != BondOrder::Aromatic
}

/// All bonds at atom `a` keep their order.
pub open spec fn is_calm(g: Graph, a: int) -> bool {
    forall|j: int| 0 <= j < g.bonds.len() && #[trigger] g.bonds[j].touches(a) ==> keeps_order(g, j)
}

pub proof fn lemma_count_none(g: Graph, a: int, o: BondOrder, k: int)
    requires
        0 <= k <= g.bonds.len(),
    ensures
        g.count_order(a, o, k) == 0 <==> forall|j: int|
            0 <= j < k && #[trigger] g.bonds[j].touches(a) ==> g.bonds[j].order != o,
        g.count_order(a, o, k) >= 0,
    decreases k,
{
    if k > 0 {
        lemma_count_none(g, a, o, k - 1);
        if g.bonds[k - 1].touches(a) && g.bonds[k - 1].order == o {
            assert(0 <= k - 1 < k && g.bonds[k - 1].touches(a));
        }
    }
}

/// An atom that lies on no aromatic ring of a graph that passes is calm.
proof fn lemma_calm(g: Graph, a: int)
    requires
        passes(g),
        0 <= a < g.atoms.len(),
        !atom_on_aromatic(g, ring_list(g), a),
    ensures
        is_calm(g, a),
        !g.is_pi(a),
{
    lemma_no_misplaced(g, 0, a);
    lemma_count_none(g, a, BondOrder::Aromatic, g.bonds.len() as int);
    assert forall|j: int| 0 <= j < g.bonds.len() && #[trigger] g.bonds[j].touches(a) implies keeps_order(
        g,
        j,
    ) by {
        if bond_on_aromatic(g, ring_list(g), j) {
            let r = choose|r: int|
                0 <= r < ring_list(g).len() && is_aromatic_ring(g, #[trigger] ring_list(g)[r]) && ring_list(
                    g,
                )[r].contains(g.bonds[j].begin) && ring_list(g)[r].contains(g.bonds[j].end);
            assert(ring_list(g)[r].contains(a as usize));
        }
    }
}

/// At a calm atom the bonds of the sanitized graph count as those of the graph.
proof fn lemma_calm_counts(g: Graph, a: int, o: BondOrder, k: int)
    requires
        is_calm(g, a),
        0 <= k <= g.bonds.len(),
    ensures
        sanitized(g).count_order(a, o, k) == g.count_order(a, o, k),
        sanitized(g).bond_sum_upto(a, k) == g.bond_sum_upto(a, k),
        sanitized(g).degree_upto(a, k) == g.degree_upto(a, k),
    decreases k,
{
    if k > 0 {
        lemma_calm_counts(g, a, o, k - 1);
        if g.bonds[k - 1].touches(a) {
            assert(keeps_order(g, k - 1));
        }
    }
}

proof fn lemma_calm_first(g: Graph, a: int, o: BondOrder, j: int)
    requires
        is_calm(g, a),
        0 <= j,
    ensures
        sanitized(g).first_of_order(a, o, j) == g.first_of_order(a, o, j),
    decreases g.bonds.len() - j,
{
    if j < g.bonds.len() {
        if g.bonds[j].touches(a) {
            assert(keeps_order(g, j));
        }
        lemma_calm_first(g, a, o, j + 1);
    }
}

proof fn lemma_degree_same(g: Graph, a: int, k: int)
    requires
        0 <= k <= g.bonds.len(),
    ensures
        sanitized(g).degree_upto(a, k) == g.degree_upto(a, k),
    decreases k,
{
    if k > 0 {
        lemma_degree_same(g, a, k - 1);
    }
}

/// The hydrogens of an atom are those that sanitization has counted.
proof fn lemma_hydrogens_same(g: Graph, a: int)
    requires
        g.wf(),
        0 <= a < g.atoms.len(),
    ensures
        sanitized(g).hydrogens(a) == g.hydrogens(a),
        sanitized(g).sigma(a) == g.sigma(a),
        0 <= g.hydrogens(a) <= 9,
{
    assert(atom_ok(g.atoms[a]));
    lemma_counts_nonneg(g, a, BondOrder::Single, g.bonds.len() as int);
    lemma_degree_same(g, a, g.bonds.len() as int);
}

/// Bond `j` ends at atom `a` and has order `o`.
pub open spec fn is_bond_of(g: Graph, a: int, o: BondOrder, j: int) -> bool {
    0 <= j < g.bonds.len() && g.bonds[j].touches(a) && g.bonds[j].order == o
}

pub proof fn lemma_count_at_most(g: Graph, a: int, o: BondOrder, k: int, j1: int, j2: int)
    requires
        0 <= j1 < j2 < k <= g.bonds.len(),
        is_bond_of(g, a, o, j1),
        is_bond_of(g, a, o, j2),
    ensures
        g.count_order(a, o, k) >= 2,
    decreases k,
{
    lemma_count_none(g, a, o, k - 1);
    if j2 < k - 1 {
        lemma_count_at_most(g, a, o, k - 1, j1, j2);
    } else {
        lemma_count_none(g, a, o, j2);
        assert(g.bonds[j1].touches(a));
        lemma_count_grows(g, a, o, j1 + 1, j2);
        lemma_count_none(g, a, o, j1);
    }
}

proof fn lemma_count_grows(g: Graph, a: int, o: BondOrder, k1: int, k2: int)
    requires
        0 <= k1 <= k2 <= g.bonds.len(),
    ensures
        g.count_order(a, o, k1) <= g.count_order(a, o, k2),
    decreases k2,
{
    if k1 < k2 {
        lemma_count_grows(g, a, o, k1, k2 - 1);
    }
}

proof fn lemma_count_exact(g: Graph, a: int, o: BondOrder, k: int, j0: int)
    requires
        0 <= k <= g.bonds.len(),
        forall|j: int| 0 <= j < g.bonds.len() && j != j0 ==> !is_bond_of(g, a, o, j),
    ensures
        g.count_order(a, o, k) == if is_bond_of(g, a, o, j0) && j0 < k {
            1int
        } else {
            0int
        },
    decreases k,
{
    if k > 0 {
        lemma_count_exact(g, a, o, k - 1, j0);
        if k - 1 != j0 {
            assert(!is_bond_of(g, a, o, k - 1));
        }
    }
}

proof fn lemma_first_is(g: Graph, a: int, o: BondOrder, from: int, j0: int)
    requires
        0 <= from <= j0,
        is_bond_of(g, a, o, j0),
        forall|j: int| from <= j < j0 ==> !is_bond_of(g, a, o, j),
    ensures
        g.first_of_order(a, o, from) == Some(j0),
    decreases j0 - from,
{
    if from < j0 {
        assert(!is_bond_of(g, a, o, from));
        lemma_first_is(g, a, o, from + 1, j0);
    }
}

pub proof fn lemma_first_least(g: Graph, a: int, o: BondOrder, from: int)
    requires
        0 <= from,
    ensures
        match g.first_of_order(a, o, from) {
            Some(j0) => is_bond_of(g, a, o, j0) && from <= j0 && forall|j: int|
                from <= j < j0 ==> !is_bond_of(g, a, o, j),
            None => forall|j: int| from <= j < g.bonds.len() ==> !is_bond_of(g, a, o, j),
        },
    decreases g.bonds.len() - from,
{
    if from < g.bonds.len() && !(g.bonds[from].touches(a) && g.bonds[from].order == o) {
        lemma_first_least(g, a, o, from + 1);
    }
}

/// What the sanitized graph holds of an atom and of a bond.
proof fn lemma_sanitized_parts(g: Graph)
    requires
        g.wf(),
    ensures
        same_ends(g, sanitized(g)),
        forall|a: int|
            0 <= a < g.atoms.len() ==> (#[trigger] sanitized(g).atoms[a]).element == g.atoms[a].element
                && sanitized(g).atoms[a].charge == g.atoms[a].charge && sanitized(g).atoms[a].aromatic
                == atom_on_aromatic(g, ring_list(g), a),
        forall|j: int|
            0 <= j < g.bonds.len() ==> (#[trigger] sanitized(g).bonds[j]).order == if bond_on_aromatic(
                g,
                ring_list(g),
                j,
            ) {
                BondOrder::Aromatic
            } else if g.bonds[j].order == BondOrder::Aromatic {
                BondOrder::Single
            } else {
                g.bonds[j].order
            },
{
}

/// The number of double bonds at atom `a`, among the first `k` bonds, that sanitization
/// turns into aromatic bonds.
pub open spec fn lost_doubles(g: Graph, a: int, k: int) -> int
    decreases k,
{
    if k <= 0 {
        0
    } else {
        lost_doubles(g, a, k - 1) + if is_bond_of(g, a, BondOrder::Double, k - 1) && bond_on_aromatic(
            g,
            ring_list(g),
            k - 1,
        ) {
            1int
        } else {
            0int
        }
    }
}

/// Where an atom has no triple bond, its bonds count after sanitization as before, but
/// for the double bonds that have become aromatic.
proof fn lemma_sum_lost(g: Graph, a: int, k: int)
    requires
        0 <= k <= g.bonds.len(),
        forall|j: int|
            0 <= j < g.bonds.len() && #[trigger] g.bonds[j].touches(a) ==> g.bonds[j].order
                != BondOrder::Triple,
    ensures
        sanitized(g).bond_sum_upto(a, k) + lost_doubles(g, a, k) == g.bond_sum_upto(a, k),
    decreases k,
{
    if k > 0 {
        lemma_sum_lost(g, a, k - 1);
        if g.bonds[k - 1].touches(a) {
            assert(g.bonds[k - 1].order != BondOrder::Triple);
        }
    }
}

proof fn lemma_lost_exact(g: Graph, a: int, k: int, j0: int)
    requires
        0 <= k <= g.bonds.len(),
        forall|j: int| 0 <= j < g.bonds.len() && j != j0 ==> !is_bond_of(g, a, BondOrder::Double, j),
    ensures
        lost_doubles(g, a, k) == if is_bond_of(g, a, BondOrder::Double, j0) && j0 < k && bond_on_aromatic(
            g,
            ring_list(g),
            j0,
        ) {
            1int
        } else {
            0int
        },
    decreases k,
{
    if k > 0 {
        lemma_lost_exact(g, a, k - 1, j0);
        if k - 1 != j0 {
            assert(!is_bond_of(g, a, BondOrder::Double, k - 1));
        }
    }
}

/// An atom gives an aromatic ring the same electrons before and after sanitization.
proof fn lemma_pi_same(g: Graph, a: int)
    requires
        passes(g),
        0 <= a < g.atoms.len(),
    ensures
        sanitized(g).pi_electrons(a) == g.pi_electrons(a),
        sanitized(g).valence_used(a) == g.valence_used(a),
{
    let s = sanitized(g);
    let m = g.bonds.len() as int;
    let rl = ring_list(g);
    lemma_sanitized_parts(g);
    lemma_hydrogens_same(g, a);
    if !atom_on_aromatic(g, rl, a) {
        lemma_calm(g, a);
        lemma_calm_counts(g, a, BondOrder::Double, m);
        lemma_calm_counts(g, a, BondOrder::Triple, m);
        lemma_calm_counts(g, a, BondOrder::Aromatic, m);
        lemma_calm_first(g, a, BondOrder::Double, 0);
        lemma_first_of_order(g, a, BondOrder::Double, 0);
        if let Some(j) = g.first_of_order(a, BondOrder::Double, 0) {
            lemma_bond_in_ring(g, s, j);
            assert(g.bonds[j].begin < g.atoms.len() && g.bonds[j].end < g.atoms.len());
        }
    } else {
        let x = a as usize;
        let r = choose|r: int| 0 <= r < rl.len() && is_aromatic_ring(g, #[trigger] rl[r]) && rl[r].contains(x);
        let i = rl[r].index_of(x);
        lemma_ring_member(g, rl[r], rl[r].len() as int, i);
        assert(g.pi_electrons(a) is Some);
        lemma_count_none(g, a, BondOrder::Triple, m);
        lemma_count_none(s, a, BondOrder::Triple, m);
        lemma_count_none(g, a, BondOrder::Double, m);
        lemma_count_none(s, a, BondOrder::Double, m);
        lemma_count_none(s, a, BondOrder::Aromatic, m);
        assert(g.count_order(a, BondOrder::Triple, m) == 0);
        assert forall|j: int| 0 <= j < m && #[trigger] s.bonds[j].touches(a) implies s.bonds[j].order
            != BondOrder::Triple by {
            assert(g.bonds[j].touches(a));
        }
        assert(s.count_order(a, BondOrder::Triple, m) == 0);
        assert forall|j: int| 0 <= j < m && #[trigger] g.bonds[j].touches(a) implies g.bonds[j].order
            != BondOrder::Triple by {}
        lemma_sum_lost(g, a, m);
        if g.count_order(a, BondOrder::Double, m) == 0 {
            assert forall|j: int| 0 <= j < m && #[trigger] s.bonds[j].touches(a) implies s.bonds[j].order
                != BondOrder::Double by {
                assert(g.bonds[j].touches(a));
            }
            assert(s.count_order(a, BondOrder::Double, m) == 0);
            assert forall|j: int| 0 <= j < m implies !is_bond_of(g, a, BondOrder::Double, j) by {
                if is_bond_of(g, a, BondOrder::Double, j) {
                    assert(g.bonds[j].touches(a));
                }
            }
            lemma_lost_exact(g, a, m, 0);
        } else {
            lemma_first_least(g, a, BondOrder::Double, 0);
            let j0 = g.first_of_order(a, BondOrder::Double, 0).unwrap();
            assert forall|j: int| 0 <= j < m && j != j0 implies !is_bond_of(g, a, BondOrder::Double, j) by {
                if is_bond_of(g, a, BondOrder::Double, j) {
                    if j < j0 {
                        lemma_count_at_most(g, a, BondOrder::Double, m, j, j0);
                    } else {
                        lemma_count_at_most(g, a, BondOrder::Double, m, j0, j);
                    }
                }
            }
            assert forall|j: int| 0 <= j < m && j != j0 implies !is_bond_of(s, a, BondOrder::Double, j) by {
                assert(!is_bond_of(g, a, BondOrder::Double, j));
            }
            lemma_count_exact(s, a, BondOrder::Double, m, j0);
            lemma_lost_exact(g, a, m, j0);
            lemma_bond_in_ring(g, s, j0);
            assert(g.bonds[j0].begin < g.atoms.len() && g.bonds[j0].end < g.atoms.len());
            if !bond_on_aromatic(g, rl, j0) {
                assert(is_bond_of(s, a, BondOrder::Double, j0));
                lemma_first_is(s, a, BondOrder::Double, 0, j0);
            }
        }
    }
}

pub proof fn lemma_paths_in_graph(g: Graph, skip: int, src: int, v: int, d: nat, r: int, i: int)
    requires
        g.wf(),
        g.atoms.len() <= usize::MAX,
        0 <= v < g.atoms.len(),
        0 <= r < paths_back(g, skip, src, v, d).len(),
        0 <= i < paths_back(g, skip, src, v, d)[r].len(),
    ensures
        paths_back(g, skip, src, v, d)[r][i] < g.atoms.len(),
    decreases d, g.bonds.len() + 1,
{
    if d > 0 {
        lemma_via_in_graph(g, skip, src, v, d, g.bonds.len() as int, r, i);
    }
}

proof fn lemma_via_in_graph(g: Graph, skip: int, src: int, v: int, d: nat, k: int, r: int, i: int)
    requires
        g.wf(),
        g.atoms.len() <= usize::MAX,
        0 <= v < g.atoms.len(),
        0 <= r < paths_via(g, skip, src, v, d, k).len(),
        0 <= i < paths_via(g, skip, src, v, d, k)[r].len(),
    ensures
        paths_via(g, skip, src, v, d, k)[r][i] < g.atoms.len(),
    decreases d, k,
{
    if !(k <= 0 || d == 0 || k > g.bonds.len()) {
        let before = paths_via(g, skip, src, v, d, k - 1);
        if r < before.len() {
            lemma_via_in_graph(g, skip, src, v, d, k - 1, r, i);
        } else {
            let u = g.bonds[k - 1].other(v);
            assert(g.bonds[k - 1].begin < g.atoms.len() && g.bonds[k - 1].end < g.atoms.len());
            let sub = paths_back(g, skip, src, u, (d - 1) as nat);
            let more = with_head(v as usize, sub);
            assert(paths_via(g, skip, src, v, d, k)[r] == more[r - before.len()]);
            if i > 0 {
                lemma_paths_in_graph(g, skip, src, u, (d - 1) as nat, r - before.len(), i - 1);
            }
        }
    }
}

proof fn lemma_added_in_graph(list: Seq<Seq<usize>>, rs: Seq<Seq<usize>>, k: int, n: int, r: int, i: int)
    requires
        0 <= k <= rs.len(),
        forall|x: int, y: int| 0 <= x < list.len() && 0 <= y < list[x].len() ==> #[trigger] list[x][y] < n,
        forall|x: int, y: int| 0 <= x < rs.len() && 0 <= y < rs[x].len() ==> #[trigger] rs[x][y] < n,
        0 <= r < add_rings(list, rs, k).len(),
        0 <= i < add_rings(list, rs, k)[r].len(),
    ensures
        add_rings(list, rs, k)[r][i] < n,
    decreases k,
{
    if k > 0 {
        let before = add_rings(list, rs, k - 1);
        if r < before.len() {
            lemma_added_in_graph(list, rs, k - 1, n, r, i);
        } else {
            assert(rs[k - 1][i] < n);
        }
    }
}

/// The rings of a graph pass through atoms of the graph.
pub proof fn lemma_rings_in_graph(g: Graph, k: int)
    requires
        g.wf(),
        g.atoms.len() <= usize::MAX,
        0 <= k <= g.bonds.len(),
    ensures
        forall|r: int, i: int|
            0 <= r < rings_upto(g, k).len() && 0 <= i < rings_upto(g, k)[r].len() ==> #[trigger] rings_upto(
                g,
                k,
            )[r][i] < g.atoms.len(),
    decreases k,
{
    if k > 0 {
        lemma_rings_in_graph(g, k - 1);
        let before = rings_upto(g, k - 1);
        let rs = rings_of(g, k - 1);
        let b = g.bonds[k - 1];
        assert(b.begin < g.atoms.len() && b.end < g.atoms.len());
        assert forall|x: int, y: int| 0 <= x < rs.len() && 0 <= y < rs[x].len() implies #[trigger] rs[x][y]
            < g.atoms.len() by {
            let d = dist(g, k - 1, b.begin as int, b.end as int).unwrap();
            lemma_paths_in_graph(g, k - 1, b.begin as int, b.end as int, d, x, y);
        }
        assert forall|r: int, i: int|
            0 <= r < rings_upto(g, k).len() && 0 <= i < rings_upto(g, k)[r].len() implies #[trigger] rings_upto(
            g,
            k,
        )[r][i] < g.atoms.len() by {
            lemma_added_in_graph(before, rs, rs.len() as int, g.atoms.len() as int, r, i);
        }
    }
}

proof fn lemma_ring_electrons_same(g: Graph, ring: Seq<usize>, k: int)
    requires
        passes(g),
        0 <= k <= ring.len(),
        forall|i: int| 0 <= i < ring.len() ==> #[trigger] ring[i] < g.atoms.len(),
    ensures
        ring_electrons(sanitized(g), ring, k) == ring_electrons(g, ring, k),
    decreases k,
{
    if k > 0 {
        lemma_ring_electrons_same(g, ring, k - 1);
        assert(ring[k - 1] < g.atoms.len());
        lemma_pi_same(g, ring[k - 1] as int);
    }
}

/// The rings that are aromatic are aromatic after sanitization, and no others.
proof fn lemma_aromatic_same(g: Graph)
    requires
        passes(g),
    ensures
        ring_list(sanitized(g)) == ring_list(g),
        forall|r: int|
            0 <= r < ring_list(g).len() ==> is_aromatic_ring(sanitized(g), #[trigger] ring_list(g)[r])
                == is_aromatic_ring(g, ring_list(g)[r]),
{
    let s = sanitized(g);
    lemma_sanitized_parts(g);
    lemma_ring_list(g, s);
    let rl = ring_list(g);
    assert forall|r: int| 0 <= r < rl.len() implies is_aromatic_ring(s, #[trigger] rl[r]) == is_aromatic_ring(
        g,
        rl[r],
    ) by {
        lemma_rings_in_graph(g, g.bonds.len() as int);
        assert forall|i: int| 0 <= i < rl[r].len() implies #[trigger] rl[r][i] < g.atoms.len() by {}
        lemma_ring_electrons_same(g, rl[r], rl[r].len() as int);
    }
}

/// Sanitization leaves a sanitized graph as it is: a graph that has come out of
/// sanitization passes it again, with the same check of the valences, and comes out
/// unchanged.
pub proof fn lemma_sanitized_is_settled(g: Graph, strict: bool)
    requires
        g.wf(),
        g.atoms.len() <= usize::MAX,
        g.bonds.len() <= usize::MAX,
        crate::sanitize::sanitize_spec(g, strict) is Ok,
    ensures
        crate::sanitize::sanitize_spec(sanitized(g), strict) == Ok::<_, crate::error::SanitizeError>(
            sanitized(g),
        ),
{
    let s = sanitized(g);
    let n = g.atoms.len() as int;
    let m = g.bonds.len() as int;
    let rl = ring_list(g);
    assert(passes(g));
    lemma_sanitized_parts(g);
    lemma_aromatic_same(g);
    assert forall|a: int| 0 <= a < n implies atom_on_aromatic(s, rl, a) == atom_on_aromatic(g, rl, a) by {
        if atom_on_aromatic(g, rl, a) {
            let r = choose|r: int|
                0 <= r < rl.len() && is_aromatic_ring(g, #[trigger] rl[r]) && rl[r].contains(a as usize);
            assert(is_aromatic_ring(s, rl[r]));
        }
        if atom_on_aromatic(s, rl, a) {
            let r = choose|r: int|
                0 <= r < rl.len() && is_aromatic_ring(s, #[trigger] rl[r]) && rl[r].contains(a as usize);
            assert(is_aromatic_ring(g, rl[r]));
        }
    }
    assert forall|j: int| 0 <= j < m implies bond_on_aromatic(s, rl, j) == bond_on_aromatic(g, rl, j) by {
        lemma_bond_in_ring(g, s, j);
        assert(s.bonds[j].begin == g.bonds[j].begin && s.bonds[j].end == g.bonds[j].end);
        if bond_on_aromatic(g, rl, j) {
            let r = choose|r: int|
                0 <= r < rl.len() && is_aromatic_ring(g, #[trigger] rl[r]) && rl[r].contains(g.bonds[j].begin)
                    && rl[r].contains(g.bonds[j].end);
            assert(is_aromatic_ring(s, rl[r]));
        }
        if bond_on_aromatic(s, rl, j) {
            let r = choose|r: int|
                0 <= r < rl.len() && is_aromatic_ring(s, #[trigger] rl[r]) && rl[r].contains(s.bonds[j].begin)
                    && rl[r].contains(s.bonds[j].end);
            assert(is_aromatic_ring(g, rl[r]));
        }
    }
    assert forall|j: int| 0 <= j < m implies !bad_bond(s, j) by {
        lemma_no_bad_bond(g, 0, j);
        assert(s.bonds[j].begin == g.bonds[j].begin && s.bonds[j].end == g.bonds[j].end);
        if exists|k: int| 0 <= k < j && #[trigger] s.bonds[k].joins(s.bonds[j].begin as int, s.bonds[j].end as int) {
            let k = choose|k: int|
                0 <= k < j && #[trigger] s.bonds[k].joins(s.bonds[j].begin as int, s.bonds[j].end as int);
            assert(s.bonds[k].begin == g.bonds[k].begin && s.bonds[k].end == g.bonds[k].end);
            assert(g.bonds[k].joins(g.bonds[j].begin as int, g.bonds[j].end as int));
        }
    }
    lemma_first_none_bad(s, 0);
    assert forall|a: int| 0 <= a < n implies !misplaced(s, a) by {
        lemma_count_none(s, a, BondOrder::Aromatic, m);
        if s.count_order(a, BondOrder::Aromatic, m) > 0 {
            let j = choose|j: int|
                0 <= j < m && #[trigger] s.bonds[j].touches(a) && s.bonds[j].order == BondOrder::Aromatic;
            assert(bond_on_aromatic(g, rl, j));
            let r = choose|r: int|
                0 <= r < rl.len() && is_aromatic_ring(g, #[trigger] rl[r]) && rl[r].contains(g.bonds[j].begin)
                    && rl[r].contains(g.bonds[j].end);
            assert(s.bonds[j].begin == g.bonds[j].begin && s.bonds[j].end == g.bonds[j].end);
            assert(rl[r].contains(a as usize));
            assert(atom_on_aromatic(g, rl, a));
        }
    }
    lemma_first_none_misplaced(s, 0);
    if strict {
        assert forall|a: int| 0 <= a < n implies !s.over_valence(a) by {
            lemma_no_over(g, 0, a);
            lemma_pi_same(g, a);
        }
        lemma_first_none_over(s, 0);
    }
    assert(sanitized(s).atoms =~= s.atoms) by {
        assert forall|a: int| 0 <= a < n implies sanitized(s).atoms[a] == s.atoms[a] by {
            lemma_hydrogens_same(g, a);
            lemma_atom_in_ring(g, s, a);
        }
    }
    assert(sanitized(s).bonds =~= s.bonds) by {
        assert forall|j: int| 0 <= j < m implies sanitized(s).bonds[j] == s.bonds[j] by {
            lemma_bond_in_ring(g, s, j);
        }
    }
}

} // verus!
