use vstd::prelude::*;
use vstd::multiset::Multiset;
use vstd::seq_lib::to_multiset_build;
use crate::blocks::is_simple;
use crate::bond::{Bond, BondOrder};
use crate::canon::moved;
use crate::graph::Graph;
use crate::iso::{alike, identity, lemma_identity, lemma_index, lemma_total_perm, total};
use crate::relabel::moved_bonds;
use crate::reach::{
    lemma_in_ring_is_ring_edge,
    lemma_ring_edge_turns,
    lemma_same_edge,
    ring_edge,
    takes,
};
use crate::rings::{atom_in_ring, bond_in_ring};
use crate::samechem::{lemma_same_hydrogens, lemma_same_pi, lemma_same_ring_edge};
use crate::samerings::{lemma_on_carries, on_aromatic};
use crate::sanitize::{
    bad_bond,
    first_bad_bond,
    first_misplaced,
    first_over_valence,
    lemma_sanitized_wf,
    misplaced,
    sanitize_spec,
    sanitized,
};
use crate::settled::{
    lemma_first_none_bad,
    lemma_first_none_misplaced,
    lemma_first_none_over,
    lemma_no_bad_bond,
    lemma_no_misplaced,
    lemma_no_over,
};
use crate::ways::{inverse, lemma_alike_turns, lemma_inverse};

verus! {

/// A graph whose bonds pass the first stage of sanitization has no two bonds between
/// the same atoms, and the other way round.
pub proof fn lemma_simple_is_no_bad_bond(g: Graph)
    requires
        g.wf(),
    ensures
        is_simple(g) == (first_bad_bond(g, 0) is None),
{
    if first_bad_bond(g, 0) is None {
        assert forall|j: int, k: int| 0 <= j < k < g.bonds.len() implies !(#[trigger] g.bonds[k]).joins(
            (#[trigger] g.bonds[j]).begin as int,
            g.bonds[j].end as int,
        ) by {
            lemma_no_bad_bond(g, 0, k);
            if g.bonds[k].joins(g.bonds[j].begin as int, g.bonds[j].end as int) {
                assert(g.bonds[j].joins(g.bonds[k].begin as int, g.bonds[k].end as int));
            }
        }
    }
    if is_simple(g) {
        assert forall|k: int| 0 <= k < g.bonds.len() implies !bad_bond(g, k) by {
            assert(g.bonds[k].begin != g.bonds[k].end);
            if exists|j: int| 0 <= j < k && #[trigger] g.bonds[j].joins(g.bonds[k].begin as int, g.bonds[k].end as int) {
                let j = choose|j: int|
                    0 <= j < k && #[trigger] g.bonds[j].joins(g.bonds[k].begin as int, g.bonds[k].end as int);
                assert(g.bonds[k].joins(g.bonds[j].begin as int, g.bonds[j].end as int));
            }
        }
        lemma_first_none_bad(g, 0);
    }
}

/// An aromatic ring passes through two atoms in one order of the atoms exactly where
/// one does in the other.
pub proof fn lemma_same_on(g: Graph, h: Graph, pi: Seq<usize>, x: int, y: int)
    requires
        alike(g, h, pi),
        takes(g),
        takes(h),
        0 <= x < h.atoms.len(),
        0 <= y < h.atoms.len(),
    ensures
        on_aromatic(h, x, y) == on_aromatic(g, pi[x] as int, pi[y] as int),
{
    let n = h.atoms.len() as int;
    if on_aromatic(h, x, y) {
        lemma_on_carries(g, h, pi, x, y);
    }
    if on_aromatic(g, pi[x] as int, pi[y] as int) {
        lemma_alike_turns(g, h, pi);
        lemma_inverse(pi, n);
        lemma_on_carries(h, g, inverse(pi), pi[x] as int, pi[y] as int);
    }
}

proof fn lemma_in_ring_carries(g: Graph, h: Graph, pi: Seq<usize>, i: int)
    requires
        alike(g, h, pi),
        takes(g),
        takes(h),
        0 <= i < h.atoms.len(),
        atom_in_ring(h, i),
    ensures
        atom_in_ring(g, pi[i] as int),
{
    let n = h.atoms.len() as int;
    let j = choose|j: int| 0 <= j < h.bonds.len() && #[trigger] h.bonds[j].touches(i) && bond_in_ring(h, j);
    assert(h.bonds[j].begin < n && h.bonds[j].end < n && h.bonds[j].begin != h.bonds[j].end);
    let u = h.bonds[j].other(i);
    assert(h.bonds[j].joins(i, u));
    lemma_in_ring_is_ring_edge(h, j);
    lemma_ring_edge_turns(h, i, u);
    lemma_same_ring_edge(g, h, pi, i, u);
    lemma_same_edge(g, h, pi, i, u);
    let jg = choose|jg: int| 0 <= jg < g.bonds.len() && (#[trigger] g.bonds[jg]).joins(pi[i] as int, pi[u] as int);
    lemma_in_ring_is_ring_edge(g, jg);
    lemma_ring_edge_turns(g, pi[i] as int, pi[u] as int);
    assert(g.bonds[jg].touches(pi[i] as int) && bond_in_ring(g, jg));
}

/// What sanitization finds of an atom does not depend on the order of the atoms.
proof fn lemma_same_atom(g: Graph, h: Graph, pi: Seq<usize>, i: int)
    requires
        alike(g, h, pi),
        takes(g),
        takes(h),
        0 <= i < h.atoms.len(),
    ensures
        misplaced(h, i) == misplaced(g, pi[i] as int),
        h.over_valence(i) == g.over_valence(pi[i] as int),
        sanitized(h).atoms[i] == sanitized(g).atoms[pi[i] as int],
{
    let n = h.atoms.len() as int;
    lemma_same_hydrogens(g, h, pi, i);
    lemma_same_pi(g, h, pi, i);
    lemma_same_on(g, h, pi, i, i);
    if atom_in_ring(h, i) {
        lemma_in_ring_carries(g, h, pi, i);
    }
    if atom_in_ring(g, pi[i] as int) {
        lemma_alike_turns(g, h, pi);
        lemma_inverse(pi, n);
        lemma_in_ring_carries(h, g, inverse(pi), pi[i] as int);
    }
}

/// What sanitization marks on a bond, said of the atoms that it joins.
pub open spec fn marked(h: Graph) -> spec_fn(Bond) -> Bond {
    |b: Bond|
        Bond {
            in_ring: ring_edge(h, b.begin as int, b.end as int),
            order: if ring_edge(h, b.begin as int, b.end as int) && on_aromatic(
                h,
                b.begin as int,
                b.end as int,
            ) {
                BondOrder::Aromatic
            } else if b.order == BondOrder::Aromatic {
                BondOrder::Single
            } else {
                b.order
            },
            ..b
        }
}

pub open spec fn one_of(f: spec_fn(Bond) -> Bond) -> spec_fn(Bond) -> Multiset<Bond> {
    |b: Bond| Multiset::singleton(f(b))
}

proof fn lemma_map_bag(s: Seq<Bond>, f: spec_fn(Bond) -> Bond)
    ensures
        Seq::new(s.len(), |j: int| f(s[j])).to_multiset() == total(s, one_of(f)),
    decreases s.len(),
{
    let m = Seq::new(s.len(), |j: int| f(s[j]));
    if s.len() == 0 {
        m.to_multiset_ensures();
        assert(m.to_multiset() =~= Multiset::<Bond>::empty());
    } else {
        let rest = s.drop_last();
        lemma_map_bag(rest, f);
        let mr = Seq::new(rest.len(), |j: int| f(rest[j]));
        assert(m =~= mr.push(f(s.last())));
        to_multiset_build(mr, f(s.last()));
        assert(mr.to_multiset().insert(f(s.last())) =~= mr.to_multiset().add(Multiset::singleton(f(s.last()))));
    }
}

/// Sanitization does not depend on the order in which the atoms and bonds of a graph
/// stand: two graphs that are the same graph pass it together, and what comes out of
/// it is the same graph again.
pub proof fn lemma_sanitize_does_not_depend_on_order(g: Graph, h: Graph, pi: Seq<usize>, strict: bool)
    requires
        alike(g, h, pi),
        takes(g),
    ensures
        sanitize_spec(g, strict) is Ok == sanitize_spec(h, strict) is Ok,
        alike(sanitized(g), sanitized(h), pi),
{
    let n = h.atoms.len() as int;
    let id = identity(n);
    lemma_identity(n);
    crate::walks::lemma_simple_carries(g, h, pi);
    lemma_simple_is_no_bad_bond(g);
    lemma_simple_is_no_bad_bond(h);
    lemma_sanitized_wf(g);
    lemma_sanitized_wf(h);
    lemma_alike_turns(g, h, pi);
    lemma_inverse(pi, n);
    let inv = inverse(pi);
    assert forall|i: int| 0 <= i < n implies #[trigger] sanitized(h).atoms[i] == sanitized(g).atoms[pi[i] as int] by {
        lemma_same_atom(g, h, pi, i);
    }
    if first_misplaced(g, 0) is None {
        assert forall|i: int| 0 <= i < n implies !misplaced(h, i) by {
            lemma_same_atom(g, h, pi, i);
            lemma_no_misplaced(g, 0, pi[i] as int);
        }
        lemma_first_none_misplaced(h, 0);
    }
    if first_misplaced(h, 0) is None {
        assert forall|a: int| 0 <= a < n implies !misplaced(g, a) by {
            assert(pi[inv[a] as int] == a);
            lemma_same_atom(g, h, pi, inv[a] as int);
            lemma_no_misplaced(h, 0, inv[a] as int);
        }
        lemma_first_none_misplaced(g, 0);
    }
    if first_over_valence(g, 0) is None {
        assert forall|i: int| 0 <= i < n implies !h.over_valence(i) by {
            lemma_same_atom(g, h, pi, i);
            lemma_no_over(g, 0, pi[i] as int);
        }
        lemma_first_none_over(h, 0);
    }
    if first_over_valence(h, 0) is None {
        assert forall|a: int| 0 <= a < n implies !g.over_valence(a) by {
            assert(pi[inv[a] as int] == a);
            lemma_same_atom(g, h, pi, inv[a] as int);
            lemma_no_over(h, 0, inv[a] as int);
        }
        lemma_first_none_over(g, 0);
    }
    let f = marked(h);
    let mh = moved_bonds(h, id);
    let mg = moved_bonds(g, pi);
    lemma_map_bag(mh, f);
    lemma_map_bag(mg, f);
    lemma_total_perm(mh, mg, one_of(f));
    assert(Seq::new(mh.len(), |j: int| f(mh[j])) =~= moved_bonds(sanitized(h), id)) by {
        assert forall|j: int| 0 <= j < h.bonds.len() implies f(mh[j]) == moved(sanitized(h).bonds[j], id) by {
            let b = h.bonds[j];
            assert(b.begin < n && b.end < n && b.begin != b.end);
            lemma_in_ring_is_ring_edge(h, j);
            lemma_ring_edge_turns(h, b.begin as int, b.end as int);
        }
    }
    assert(Seq::new(mg.len(), |j: int| f(mg[j])) =~= moved_bonds(sanitized(g), pi)) by {
        assert forall|j: int| 0 <= j < g.bonds.len() implies f(mg[j]) == moved(sanitized(g).bonds[j], pi) by {
            let b = g.bonds[j];
            assert(b.begin < n && b.end < n && b.begin != b.end);
            lemma_index(pi, n, b.begin);
            lemma_index(pi, n, b.end);
            let p = pi.index_of(b.begin);
            let q = pi.index_of(b.end);
            lemma_in_ring_is_ring_edge(g, j);
            lemma_same_ring_edge(g, h, pi, p, q);
            lemma_ring_edge_turns(h, p, q);
            lemma_same_on(g, h, pi, p, q);
        }
    }
}

} // verus!
