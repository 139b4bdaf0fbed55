use vstd::prelude::*;
use vstd::multiset::Multiset;
use crate::bond::{order_weight, Bond, BondOrder};
use crate::canon::moved;
use crate::graph::Graph;
use crate::iso::{
    alike,
    identity,
    lemma_identity,
    lemma_index,
    lemma_moved_touch,
    lemma_same_degree,
    lemma_transfer,
    total,
};
use crate::reach::{
    lemma_in_ring_is_ring_edge,
    lemma_ring_edge_turns,
    lemma_same_reach,
    ring_edge,
    takes,
};
use crate::rings::bond_in_ring;
use crate::settled::{is_bond_of, lemma_count_at_most, lemma_count_none, lemma_first_least};

verus! {

/// For each bond at atom `a` with order `o`, one.
pub open spec fn order_count(a: int, o: BondOrder) -> spec_fn(Bond) -> Multiset<int> {
    |b: Bond|
        if b.touches(a) && b.order == o {
            Multiset::singleton(0int)
        } else {
            Multiset::empty()
        }
}

/// For each bond at atom `a`, as many as it counts towards the valence.
pub open spec fn weight_count(a: int) -> spec_fn(Bond) -> Multiset<int> {
    |b: Bond|
        if b.touches(a) {
            if order_weight(b.order) == 1 {
                Multiset::singleton(0int)
            } else if order_weight(b.order) == 2 {
                Multiset::singleton(0int).add(Multiset::singleton(0int))
            } else {
                Multiset::singleton(0int).add(Multiset::singleton(0int)).add(Multiset::singleton(0int))
            }
        } else {
            Multiset::empty()
        }
}

/// For each bond of order `o` between atoms `t` and `v`, one.
pub open spec fn joined_count(t: int, v: int, o: BondOrder) -> spec_fn(Bond) -> Multiset<int> {
    |b: Bond|
        if b.joins(t, v) && b.order == o {
            Multiset::singleton(0int)
        } else {
            Multiset::empty()
        }
}

proof fn lemma_count_total(g: Graph, a: int, o: BondOrder, k: int)
    requires
        0 <= k <= g.bonds.len(),
    ensures
        g.count_order(a, o, k) == total(g.bonds.take(k), order_count(a, o)).len(),
        g.bond_sum_upto(a, k) == total(g.bonds.take(k), weight_count(a)).len(),
    decreases k,
{
    if k > 0 {
        lemma_count_total(g, a, o, k - 1);
        assert(g.bonds.take(k).drop_last() =~= g.bonds.take(k - 1));
        assert(g.bonds.take(k).last() == g.bonds[k - 1]);
    }
}

proof fn lemma_joined_total(s: Seq<Bond>, t: int, v: int, o: BondOrder)
    ensures
        total(s, joined_count(t, v, o)).len() > 0 <==> exists|j: int|
            0 <= j < s.len() && (#[trigger] s[j]).joins(t, v) && s[j].order == o,
    decreases s.len(),
{
    if s.len() > 0 {
        let rest = s.drop_last();
        lemma_joined_total(rest, t, v, o);
        if exists|j: int| 0 <= j < s.len() && (#[trigger] s[j]).joins(t, v) && s[j].order == o {
            let j = choose|j: int| 0 <= j < s.len() && (#[trigger] s[j]).joins(t, v) && s[j].order == o;
            if j < s.len() - 1 {
                assert(rest[j].joins(t, v) && rest[j].order == o);
            }
        }
        if exists|j: int| 0 <= j < rest.len() && (#[trigger] rest[j]).joins(t, v) && rest[j].order == o {
            let j = choose|j: int| 0 <= j < rest.len() && (#[trigger] rest[j]).joins(t, v) && rest[j].order == o;
            assert(s[j].joins(t, v) && s[j].order == o);
        }
        if s.last().joins(t, v) && s.last().order == o {
            assert(s[s.len() - 1].joins(t, v));
        }
    }
}

/// An atom has as many bonds of each order, and the same sum of them, in whatever order
/// the atoms stand.
pub proof fn lemma_same_counts(g: Graph, h: Graph, pi: Seq<usize>, i: int, o: BondOrder)
    requires
        alike(g, h, pi),
        0 <= i < h.atoms.len(),
    ensures
        h.count_order(i, o, h.bonds.len() as int) == g.count_order(pi[i] as int, o, g.bonds.len() as int),
        h.bond_sum(i) == g.bond_sum(pi[i] as int),
        h.degree(i) == g.degree(pi[i] as int),
{
    let n = h.atoms.len() as int;
    let a = pi[i] as int;
    lemma_identity(n);
    assert forall|j: int| 0 <= j < h.bonds.len() implies h.bonds[j].touches(i) == moved(
        #[trigger] h.bonds[j],
        identity(n),
    ).touches(i) && moved(h.bonds[j], identity(n)).order == h.bonds[j].order by {
        lemma_moved_touch(identity(n), n, h.bonds[j], i);
    }
    assert forall|j: int| 0 <= j < g.bonds.len() implies g.bonds[j].touches(a) == moved(
        #[trigger] g.bonds[j],
        pi,
    ).touches(i) && moved(g.bonds[j], pi).order == g.bonds[j].order by {
        lemma_moved_touch(pi, n, g.bonds[j], i);
    }
    lemma_transfer(g, h, pi, order_count(i, o), order_count(a, o));
    lemma_transfer(g, h, pi, weight_count(i), weight_count(a));
    lemma_same_degree(g, h, pi, i);
    lemma_count_total(g, a, o, g.bonds.len() as int);
    lemma_count_total(h, i, o, h.bonds.len() as int);
    assert(g.bonds.take(g.bonds.len() as int) =~= g.bonds);
    assert(h.bonds.take(h.bonds.len() as int) =~= h.bonds);
}

/// Two atoms are joined by a bond of an order in one order of the atoms where they are
/// in the other.
proof fn lemma_same_joined(g: Graph, h: Graph, pi: Seq<usize>, t: int, v: int, o: BondOrder)
    requires
        alike(g, h, pi),
        0 <= t < h.atoms.len(),
        0 <= v < h.atoms.len(),
    ensures
        (exists|j: int| 0 <= j < h.bonds.len() && (#[trigger] h.bonds[j]).joins(t, v) && h.bonds[j].order == o)
            <==> (exists|j: int|
            0 <= j < g.bonds.len() && (#[trigger] g.bonds[j]).joins(pi[t] as int, pi[v] as int)
                && g.bonds[j].order == o),
{
    let n = h.atoms.len() as int;
    let fh = joined_count(t, v, o);
    let fg = joined_count(pi[t] as int, pi[v] as int, o);
    lemma_identity(n);
    assert forall|j: int| 0 <= j < h.bonds.len() implies fh(#[trigger] h.bonds[j]) == fh(
        moved(h.bonds[j], identity(n)),
    ) by {
        lemma_moved_touch(identity(n), n, h.bonds[j], t);
        lemma_moved_touch(identity(n), n, h.bonds[j], v);
        assert(h.bonds[j].begin != h.bonds[j].end);
    }
    assert forall|j: int| 0 <= j < g.bonds.len() implies fh(moved(#[trigger] g.bonds[j], pi)) == fg(
        g.bonds[j],
    ) by {
        lemma_moved_touch(pi, n, g.bonds[j], t);
        lemma_moved_touch(pi, n, g.bonds[j], v);
        assert(g.bonds[j].begin != g.bonds[j].end);
        lemma_index(pi, n, g.bonds[j].begin);
        lemma_index(pi, n, g.bonds[j].end);
    }
    lemma_transfer(g, h, pi, fh, fg);
    lemma_joined_total(h.bonds, t, v, o);
    lemma_joined_total(g.bonds, pi[t] as int, pi[v] as int, o);
}

/// Whether the bond between two atoms lies on a ring does not depend on the order of
/// the atoms.
pub proof fn lemma_same_ring_edge(g: Graph, h: Graph, pi: Seq<usize>, u: int, v: int)
    requires
        alike(g, h, pi),
        0 <= u < h.atoms.len(),
        0 <= v < h.atoms.len(),
    ensures
        ring_edge(h, u, v) == ring_edge(g, pi[u] as int, pi[v] as int),
{
    lemma_same_reach(g, h, pi, u, v, u, h.atoms.len(), v);
}

/// An atom has as many hydrogens in whatever order the atoms stand.
pub proof fn lemma_same_hydrogens(g: Graph, h: Graph, pi: Seq<usize>, i: int)
    requires
        alike(g, h, pi),
        0 <= i < h.atoms.len(),
    ensures
        h.hydrogens(i) == g.hydrogens(pi[i] as int),
        h.sigma(i) == g.sigma(pi[i] as int),
        h.is_pi(i) == g.is_pi(pi[i] as int),
{
    lemma_same_counts(g, h, pi, i, BondOrder::Aromatic);
}

/// An atom gives the same electrons, and uses the same valence, in whatever order the
/// atoms stand.
pub proof fn lemma_same_pi(g: Graph, h: Graph, pi: Seq<usize>, i: int)
    requires
        alike(g, h, pi),
        takes(g),
        takes(h),
        0 <= i < h.atoms.len(),
    ensures
        h.pi_electrons(i) == g.pi_electrons(pi[i] as int),
        h.valence_used(i) == g.valence_used(pi[i] as int),
        h.over_valence(i) == g.over_valence(pi[i] as int),
{
    let n = h.atoms.len() as int;
    let a = pi[i] as int;
    let mh = h.bonds.len() as int;
    let mg = g.bonds.len() as int;
    lemma_same_hydrogens(g, h, pi, i);
    lemma_same_counts(g, h, pi, i, BondOrder::Double);
    lemma_same_counts(g, h, pi, i, BondOrder::Triple);
    lemma_same_counts(g, h, pi, i, BondOrder::Aromatic);
    if h.count_order(i, BondOrder::Double, mh) == 1 {
        lemma_first_least(h, i, BondOrder::Double, 0);
        lemma_first_least(g, a, BondOrder::Double, 0);
        lemma_count_none(h, i, BondOrder::Double, mh);
        lemma_count_none(g, a, BondOrder::Double, mg);
        let wh = choose|j: int|
            0 <= j < mh && #[trigger] h.bonds[j].touches(i) && h.bonds[j].order == BondOrder::Double;
        assert(is_bond_of(h, i, BondOrder::Double, wh));
        let wg = choose|j: int|
            0 <= j < mg && #[trigger] g.bonds[j].touches(a) && g.bonds[j].order == BondOrder::Double;
        assert(is_bond_of(g, a, BondOrder::Double, wg));
        assert(h.first_of_order(i, BondOrder::Double, 0) is Some);
        assert(g.first_of_order(a, BondOrder::Double, 0) is Some);
        let jh = h.first_of_order(i, BondOrder::Double, 0).unwrap();
        let jg = g.first_of_order(a, BondOrder::Double, 0).unwrap();
        let uh = h.bonds[jh].other(i);
        let ug = g.bonds[jg].other(a);
        assert(h.bonds[jh].begin < n && h.bonds[jh].end < n && h.bonds[jh].begin != h.bonds[jh].end);
        assert(g.bonds[jg].begin < n && g.bonds[jg].end < n && g.bonds[jg].begin != g.bonds[jg].end);
        assert(h.bonds[jh].joins(i, uh));
        lemma_same_joined(g, h, pi, i, uh, BondOrder::Double);
        let jj = choose|jj: int|
            0 <= jj < mg && (#[trigger] g.bonds[jj]).joins(a, pi[uh] as int) && g.bonds[jj].order
                == BondOrder::Double;
        assert(is_bond_of(g, a, BondOrder::Double, jj));
        if jj < jg {
            lemma_count_at_most(g, a, BondOrder::Double, mg, jj, jg);
        } else if jg < jj {
            lemma_count_at_most(g, a, BondOrder::Double, mg, jg, jj);
        }
        assert(ug == pi[uh] as int);
        lemma_in_ring_is_ring_edge(h, jh);
        lemma_in_ring_is_ring_edge(g, jg);
        lemma_ring_edge_turns(h, i, uh);
        lemma_ring_edge_turns(g, a, ug);
        lemma_same_ring_edge(g, h, pi, i, uh);
        assert(bond_in_ring(h, jh) == bond_in_ring(g, jg));
    }
}

} // verus!
