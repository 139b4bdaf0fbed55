use vstd::prelude::*;
use crate::atom::atom_ok;
use crate::bond::{BondOrder, BondStereo};
use crate::chem::{atom_on_aromatic, bond_on_aromatic, is_aromatic_ring, ring_electrons};
use crate::graph::Graph;
use crate::rebuild::as_written;
use crate::rings::ring_list;
use crate::sanitize::{
    bad_bond,
    first_bad_bond,
    first_misplaced,
    first_over_valence,
    lemma_first_of_order,
    misplaced,
    sanitize_spec,
    sanitized,
};
use crate::settled::{
    lemma_atom_in_ring,
    lemma_bond_in_ring,
    lemma_first_none_bad,
    lemma_first_none_misplaced,
    lemma_first_none_over,
    lemma_no_bad_bond,
    lemma_no_misplaced,
    lemma_no_over,
    lemma_ring_list,
    lemma_rings_in_graph,
    same_ends,
};

verus! {

/// Every atom of the graph has its hydrogens counted, and no bond is marked with an
/// arrangement: as in every molecule that was read from a text and sanitized.
pub open spec fn is_plain(g: Graph) -> bool {
    &&& forall|i: int| 0 <= i < g.atoms.len() ==> (#[trigger] g.atoms[i]).hydrogens is Some
    &&& forall|j: int| 0 <= j < g.bonds.len() ==> (#[trigger] g.bonds[j]).stereo == BondStereo::Unspecified
}

proof fn lemma_written_counts(c: Graph, a: int, o: BondOrder, k: int)
    requires
        0 <= k <= c.bonds.len(),
    ensures
        as_written(c).count_order(a, o, k) == c.count_order(a, o, k),
        as_written(c).bond_sum_upto(a, k) == c.bond_sum_upto(a, k),
        as_written(c).degree_upto(a, k) == c.degree_upto(a, k),
    decreases k,
{
    if k > 0 {
        lemma_written_counts(c, a, o, k - 1);
    }
}

proof fn lemma_written_first(c: Graph, a: int, o: BondOrder, j: int)
    requires
        0 <= j,
    ensures
        as_written(c).first_of_order(a, o, j) == c.first_of_order(a, o, j),
    decreases c.bonds.len() - j,
{
    if j < c.bonds.len() {
        lemma_written_first(c, a, o, j + 1);
    }
}

/// What the text shows of an atom is enough to know its chemistry.
proof fn lemma_written_atom(c: Graph, a: int)
    requires
        c.wf(),
        is_plain(c),
        0 <= a < c.atoms.len(),
    ensures
        as_written(c).hydrogens(a) == c.hydrogens(a),
        as_written(c).is_pi(a) == c.is_pi(a),
        as_written(c).pi_electrons(a) == c.pi_electrons(a),
        as_written(c).over_valence(a) == c.over_valence(a),
        0 <= c.hydrogens(a) <= 9,
{
    let w = as_written(c);
    let m = c.bonds.len() as int;
    assert(atom_ok(c.atoms[a]));
    assert(c.atoms[a].hydrogens is Some);
    lemma_written_counts(c, a, BondOrder::Aromatic, m);
    lemma_written_counts(c, a, BondOrder::Double, m);
    lemma_written_counts(c, a, BondOrder::Triple, m);
    lemma_written_first(c, a, BondOrder::Double, 0);
    lemma_first_of_order(c, a, BondOrder::Double, 0);
    assert(same_ends(c, w));
    if let Some(j) = c.first_of_order(a, BondOrder::Double, 0) {
        lemma_bond_in_ring(c, w, j);
        assert(c.bonds[j].begin < c.atoms.len() && c.bonds[j].end < c.atoms.len());
    }
}

proof fn lemma_written_electrons(c: Graph, ring: Seq<usize>, k: int)
    requires
        c.wf(),
        is_plain(c),
        0 <= k <= ring.len(),
        forall|i: int| 0 <= i < ring.len() ==> #[trigger] ring[i] < c.atoms.len(),
    ensures
        ring_electrons(as_written(c), ring, k) == ring_electrons(c, ring, k),
    decreases k,
{
    if k > 0 {
        lemma_written_electrons(c, ring, k - 1);
        assert(ring[k - 1] < c.atoms.len());
        lemma_written_atom(c, ring[k - 1] as int);
    }
}

/// Sanitizing what the text of a graph shows is sanitizing the graph: the two pass
/// together, and the same comes out.
pub proof fn lemma_written_is_enough(c: Graph, strict: bool)
    requires
        c.wf(),
        c.atoms.len() <= usize::MAX,
        is_plain(c),
    ensures
        sanitize_spec(as_written(c), strict) is Ok == sanitize_spec(c, strict) is Ok,
        sanitized(as_written(c)) == sanitized(c),
{
    let w = as_written(c);
    let n = c.atoms.len() as int;
    let m = c.bonds.len() as int;
    assert(same_ends(c, w));
    lemma_ring_list(c, w);
    let rl = ring_list(c);
    lemma_rings_in_graph(c, m);
    assert forall|r: int| 0 <= r < rl.len() implies is_aromatic_ring(w, #[trigger] rl[r]) == is_aromatic_ring(
        c,
        rl[r],
    ) by {
        assert forall|i: int| 0 <= i < rl[r].len() implies #[trigger] rl[r][i] < c.atoms.len() by {}
        lemma_written_electrons(c, rl[r], rl[r].len() as int);
    }
    assert forall|a: int| 0 <= a < n implies atom_on_aromatic(w, rl, a) == atom_on_aromatic(c, rl, a) by {
        if atom_on_aromatic(c, rl, a) {
            let r = choose|r: int|
                0 <= r < rl.len() && is_aromatic_ring(c, #[trigger] rl[r]) && rl[r].contains(a as usize);
            assert(is_aromatic_ring(w, rl[r]));
        }
        if atom_on_aromatic(w, rl, a) {
            let r = choose|r: int|
                0 <= r < rl.len() && is_aromatic_ring(w, #[trigger] rl[r]) && rl[r].contains(a as usize);
            assert(is_aromatic_ring(c, rl[r]));
        }
    }
    assert forall|j: int| 0 <= j < m implies bond_on_aromatic(w, rl, j) == bond_on_aromatic(c, rl, j) by {
        lemma_bond_in_ring(c, w, j);
        if bond_on_aromatic(c, rl, j) {
            let r = choose|r: int|
                0 <= r < rl.len() && is_aromatic_ring(c, #[trigger] rl[r]) && rl[r].contains(c.bonds[j].begin)
                    && rl[r].contains(c.bonds[j].end);
            assert(is_aromatic_ring(w, rl[r]));
        }
        if bond_on_aromatic(w, rl, j) {
            let r = choose|r: int|
                0 <= r < rl.len() && is_aromatic_ring(w, #[trigger] rl[r]) && rl[r].contains(w.bonds[j].begin)
                    && rl[r].contains(w.bonds[j].end);
            assert(is_aromatic_ring(c, rl[r]));
        }
    }
    assert forall|j: int| 0 <= j < m implies bad_bond(w, j) == bad_bond(c, j) by {
        if exists|k: int| 0 <= k < j && #[trigger] w.bonds[k].joins(w.bonds[j].begin as int, w.bonds[j].end as int) {
            let k = choose|k: int|
                0 <= k < j && #[trigger] w.bonds[k].joins(w.bonds[j].begin as int, w.bonds[j].end as int);
            assert(c.bonds[k].joins(c.bonds[j].begin as int, c.bonds[j].end as int));
        }
        if exists|k: int| 0 <= k < j && #[trigger] c.bonds[k].joins(c.bonds[j].begin as int, c.bonds[j].end as int) {
            let k = choose|k: int|
                0 <= k < j && #[trigger] c.bonds[k].joins(c.bonds[j].begin as int, c.bonds[j].end as int);
            assert(w.bonds[k].joins(w.bonds[j].begin as int, w.bonds[j].end as int));
        }
    }
    if first_bad_bond(c, 0) is None {
        assert forall|j: int| 0 <= j < m implies !bad_bond(w, j) by {
            lemma_no_bad_bond(c, 0, j);
        }
        lemma_first_none_bad(w, 0);
    }
    if first_bad_bond(w, 0) is None {
        assert forall|j: int| 0 <= j < m implies !bad_bond(c, j) by {
            lemma_no_bad_bond(w, 0, j);
        }
        lemma_first_none_bad(c, 0);
    }
    if first_misplaced(c, 0) is None {
        assert forall|a: int| 0 <= a < n implies !misplaced(w, a) by {
            lemma_no_misplaced(c, 0, a);
            lemma_written_atom(c, a);
        }
        lemma_first_none_misplaced(w, 0);
    }
    if first_misplaced(w, 0) is None {
        assert forall|a: int| 0 <= a < n implies !misplaced(c, a) by {
            lemma_no_misplaced(w, 0, a);
            lemma_written_atom(c, a);
        }
        lemma_first_none_misplaced(c, 0);
    }
    if first_over_valence(c, 0) is None {
        assert forall|a: int| 0 <= a < n implies !w.over_valence(a) by {
            lemma_no_over(c, 0, a);
            lemma_written_atom(c, a);
        }
        lemma_first_none_over(w, 0);
    }
    if first_over_valence(w, 0) is None {
        assert forall|a: int| 0 <= a < n implies !c.over_valence(a) by {
            lemma_no_over(w, 0, a);
            lemma_written_atom(c, a);
        }
        lemma_first_none_over(c, 0);
    }
    assert(sanitized(w).atoms =~= sanitized(c).atoms) by {
        assert forall|a: int| 0 <= a < n implies sanitized(w).atoms[a] == sanitized(c).atoms[a] by {
            lemma_written_atom(c, a);
            lemma_atom_in_ring(c, w, a);
        }
    }
    assert(sanitized(w).bonds =~= sanitized(c).bonds) by {
        assert forall|j: int| 0 <= j < m implies sanitized(w).bonds[j] == sanitized(c).bonds[j] by {
            lemma_bond_in_ring(c, w, j);
            assert(c.bonds[j].stereo == BondStereo::Unspecified);
        }
    }
}

} // verus!
