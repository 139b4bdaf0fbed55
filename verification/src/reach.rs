use vstd::prelude::*;
use crate::blocks::is_simple;
use crate::graph::Graph;
use crate::iso::{alike, lemma_index};
use crate::rings::{
    bond_in_ring,
    dist,
    lemma_dist_is,
    lemma_dist_some,
    lemma_within_grows,
    link_to,
    within,
};
use crate::walks::lemma_same_neighbours;

verus! {

/// A bond joins atoms `u` and `v`.
pub open spec fn edge(g: Graph, u: int, v: int) -> bool {
    exists|j: int| 0 <= j < g.bonds.len() && (#[trigger] g.bonds[j]).joins(u, v)
}

/// `u` and `v` are `a` and `b`, in one order or the other.
pub open spec fn is_pair(a: int, b: int, u: int, v: int) -> bool {
    (u == a && v == b) || (u == b && v == a)
}

/// A bond other than the one between `a` and `b` joins atoms `u` and `v`.
pub open spec fn step(g: Graph, a: int, b: int, u: int, v: int) -> bool {
    edge(g, u, v) && !is_pair(a, b, u, v)
}

/// Atom `v` can be reached from atom `src` over at most `k` bonds, none of them the
/// bond between `a` and `b`.
pub open spec fn reach(g: Graph, a: int, b: int, src: int, k: nat, v: int) -> bool
    decreases k,
{
    if k == 0 {
        v == src
    } else {
        reach(g, a, b, src, (k - 1) as nat, v) || exists|u: int| #[trigger]
            step(g, a, b, u, v) && reach(g, a, b, src, (k - 1) as nat, u)
    }
}

/// A graph that sanitization takes: its bonds join different atoms, no two of them the
/// same two.
pub open spec fn takes(g: Graph) -> bool {
    &&& g.wf()
    &&& g.atoms.len() <= usize::MAX
    &&& g.bonds.len() <= usize::MAX
    &&& is_simple(g)
}

pub proof fn lemma_simple(g: Graph, j: int, k: int)
    requires
        takes(g),
        0 <= j < g.bonds.len(),
        0 <= k < g.bonds.len(),
        g.bonds[k].joins(g.bonds[j].begin as int, g.bonds[j].end as int),
    ensures
        j == k,
{
    if j < k {
        assert(!g.bonds[k].joins(g.bonds[j].begin as int, g.bonds[j].end as int));
    } else if k < j {
        assert(!g.bonds[j].joins(g.bonds[k].begin as int, g.bonds[k].end as int));
    }
}

/// Reaching without bond `j` is reaching without the bond between its atoms.
pub proof fn lemma_within_is_reach(g: Graph, j: int, src: int, k: nat, v: int)
    requires
        takes(g),
        0 <= j < g.bonds.len(),
    ensures
        within(g, j, src, k, v) == reach(g, g.bonds[j].begin as int, g.bonds[j].end as int, src, k, v),
    decreases k,
{
    let a = g.bonds[j].begin as int;
    let b = g.bonds[j].end as int;
    if k > 0 {
        let k1 = (k - 1) as nat;
        lemma_within_is_reach(g, j, src, k1, v);
        if exists|jj: int| #[trigger] link_to(g, j, jj, v) && within(g, j, src, k1, g.bonds[jj].other(v)) {
            let jj = choose|jj: int| #[trigger] link_to(g, j, jj, v) && within(g, j, src, k1, g.bonds[jj].other(v));
            let u = g.bonds[jj].other(v);
            lemma_within_is_reach(g, j, src, k1, u);
            assert(g.bonds[jj].begin != g.bonds[jj].end);
            assert(g.bonds[jj].joins(u, v));
            if is_pair(a, b, u, v) {
                lemma_simple(g, j, jj);
            }
            assert(step(g, a, b, u, v));
        }
        if exists|u: int| #[trigger] step(g, a, b, u, v) && reach(g, a, b, src, k1, u) {
            let u = choose|u: int| #[trigger] step(g, a, b, u, v) && reach(g, a, b, src, k1, u);
            lemma_within_is_reach(g, j, src, k1, u);
            let jj = choose|jj: int| 0 <= jj < g.bonds.len() && (#[trigger] g.bonds[jj]).joins(u, v);
            assert(g.bonds[j].joins(a, b));
            assert(jj != j);
            assert(g.bonds[jj].begin != g.bonds[jj].end);
            assert(link_to(g, j, jj, v) && g.bonds[jj].other(v) == u);
        }
    }
}

pub proof fn lemma_reach_grows(g: Graph, a: int, b: int, src: int, k: nat, k2: nat, v: int)
    requires
        k <= k2,
        reach(g, a, b, src, k, v),
    ensures
        reach(g, a, b, src, k2, v),
    decreases k2,
{
    if k < k2 {
        lemma_reach_grows(g, a, b, src, k, (k2 - 1) as nat, v);
    }
}

pub proof fn lemma_reach_join(g: Graph, a: int, b: int, src: int, k1: nat, u: int, k2: nat, v: int)
    requires
        reach(g, a, b, src, k1, u),
        reach(g, a, b, u, k2, v),
    ensures
        reach(g, a, b, src, k1 + k2, v),
    decreases k2,
{
    if k2 == 0 {
    } else {
        if reach(g, a, b, u, (k2 - 1) as nat, v) {
            lemma_reach_join(g, a, b, src, k1, u, (k2 - 1) as nat, v);
        } else {
            let w = choose|w: int| #[trigger] step(g, a, b, w, v) && reach(g, a, b, u, (k2 - 1) as nat, w);
            lemma_reach_join(g, a, b, src, k1, u, (k2 - 1) as nat, w);
            assert(step(g, a, b, w, v));
        }
    }
}

pub proof fn lemma_step_turns(g: Graph, a: int, b: int, u: int, v: int)
    requires
        step(g, a, b, u, v),
    ensures
        step(g, a, b, v, u),
        step(g, b, a, u, v),
{
    let j = choose|j: int| 0 <= j < g.bonds.len() && (#[trigger] g.bonds[j]).joins(u, v);
    assert(g.bonds[j].joins(v, u));
}

/// What can be reached from an atom, that atom can be reached from.
pub proof fn lemma_reach_turns(g: Graph, a: int, b: int, src: int, k: nat, v: int)
    requires
        reach(g, a, b, src, k, v),
    ensures
        reach(g, a, b, v, k, src),
    decreases k,
{
    if k > 0 {
        let k1 = (k - 1) as nat;
        if reach(g, a, b, src, k1, v) {
            lemma_reach_turns(g, a, b, src, k1, v);
        } else {
            let u = choose|u: int| #[trigger] step(g, a, b, u, v) && reach(g, a, b, src, k1, u);
            lemma_reach_turns(g, a, b, src, k1, u);
            lemma_step_turns(g, a, b, u, v);
            assert(reach(g, a, b, v, 0, v));
            assert(reach(g, a, b, v, 1, u)) by {
                assert(step(g, a, b, v, u) && reach(g, a, b, v, 0, v));
            }
            lemma_reach_join(g, a, b, v, 1, u, k1, src);
        }
    }
}

pub proof fn lemma_reach_swap(g: Graph, a: int, b: int, src: int, k: nat, v: int)
    ensures
        reach(g, a, b, src, k, v) == reach(g, b, a, src, k, v),
    decreases k,
{
    if k > 0 {
        let k1 = (k - 1) as nat;
        lemma_reach_swap(g, a, b, src, k1, v);
        if exists|u: int| #[trigger] step(g, a, b, u, v) && reach(g, a, b, src, k1, u) {
            let u = choose|u: int| #[trigger] step(g, a, b, u, v) && reach(g, a, b, src, k1, u);
            lemma_reach_swap(g, a, b, src, k1, u);
            assert(step(g, b, a, u, v));
        }
        if exists|u: int| #[trigger] step(g, b, a, u, v) && reach(g, b, a, src, k1, u) {
            let u = choose|u: int| #[trigger] step(g, b, a, u, v) && reach(g, b, a, src, k1, u);
            lemma_reach_swap(g, a, b, src, k1, u);
            assert(step(g, a, b, u, v));
        }
    }
}

/// The bond between atoms `u` and `v` lies on a ring: each can be reached from the other
/// without it.
pub open spec fn ring_edge(g: Graph, u: int, v: int) -> bool {
    reach(g, u, v, u, g.atoms.len(), v)
}

pub proof fn lemma_ring_edge_turns(g: Graph, u: int, v: int)
    ensures
        ring_edge(g, u, v) == ring_edge(g, v, u),
{
    let n = g.atoms.len();
    lemma_reach_swap(g, u, v, u, n, v);
    lemma_reach_swap(g, v, u, v, n, u);
    if reach(g, u, v, u, n, v) {
        lemma_reach_turns(g, u, v, u, n, v);
    }
    if reach(g, v, u, v, n, u) {
        lemma_reach_turns(g, v, u, v, n, u);
    }
}

/// A bond lies on a ring exactly where its atoms can be reached from each other
/// without it.
pub proof fn lemma_in_ring_is_ring_edge(g: Graph, j: int)
    requires
        takes(g),
        0 <= j < g.bonds.len(),
    ensures
        bond_in_ring(g, j) == ring_edge(g, g.bonds[j].begin as int, g.bonds[j].end as int),
{
    let a = g.bonds[j].begin as int;
    let b = g.bonds[j].end as int;
    let n = g.atoms.len();
    lemma_within_is_reach(g, j, a, n, b);
    if within(g, j, a, n, b) {
        lemma_dist_some(g, j, a, b, n, 0);
    }
    if dist(g, j, a, b) is Some {
        lemma_dist_is(g, j, a, b, 0);
        lemma_within_grows(g, j, a, dist(g, j, a, b).unwrap(), n, b);
    }
}

/// Two atoms are joined in one order of the atoms exactly where they are in the other.
pub proof fn lemma_same_edge(g: Graph, h: Graph, pi: Seq<usize>, u: int, v: int)
    requires
        alike(g, h, pi),
        0 <= u < h.atoms.len(),
        0 <= v < h.atoms.len(),
    ensures
        edge(h, u, v) == edge(g, pi[u] as int, pi[v] as int),
{
    lemma_same_neighbours(g, h, pi, u, v);
}

/// What can be reached does not depend on the order of the atoms.
pub proof fn lemma_same_reach(g: Graph, h: Graph, pi: Seq<usize>, a: int, b: int, src: int, k: nat, v: int)
    requires
        alike(g, h, pi),
        0 <= a < h.atoms.len(),
        0 <= b < h.atoms.len(),
        0 <= src < h.atoms.len(),
        0 <= v < h.atoms.len(),
    ensures
        reach(h, a, b, src, k, v) == reach(g, pi[a] as int, pi[b] as int, pi[src] as int, k, pi[v] as int),
    decreases k,
{
    let n = h.atoms.len() as int;
    let (ga, gb, gs, gv) = (pi[a] as int, pi[b] as int, pi[src] as int, pi[v] as int);
    if k == 0 {
        if gv == gs {
            assert(v == src);
        }
    } else {
        let k1 = (k - 1) as nat;
        lemma_same_reach(g, h, pi, a, b, src, k1, v);
        if exists|u: int| #[trigger] step(h, a, b, u, v) && reach(h, a, b, src, k1, u) {
            let u = choose|u: int| #[trigger] step(h, a, b, u, v) && reach(h, a, b, src, k1, u);
            let j = choose|j: int| 0 <= j < h.bonds.len() && (#[trigger] h.bonds[j]).joins(u, v);
            assert(h.bonds[j].begin < n && h.bonds[j].end < n);
            lemma_same_edge(g, h, pi, u, v);
            lemma_same_reach(g, h, pi, a, b, src, k1, u);
            assert(step(g, ga, gb, pi[u] as int, gv));
        }
        if exists|u: int| #[trigger] step(g, ga, gb, u, gv) && reach(g, ga, gb, gs, k1, u) {
            let u = choose|u: int| #[trigger] step(g, ga, gb, u, gv) && reach(g, ga, gb, gs, k1, u);
            let j = choose|j: int| 0 <= j < g.bonds.len() && (#[trigger] g.bonds[j]).joins(u, gv);
            assert(g.bonds[j].begin < n && g.bonds[j].end < n);
            lemma_index(pi, n, u as usize);
            let uh = pi.index_of(u as usize);
            lemma_same_edge(g, h, pi, uh, v);
            lemma_same_reach(g, h, pi, a, b, src, k1, uh);
            lemma_index(pi, n, ga as usize);
            lemma_index(pi, n, gb as usize);
            assert(step(h, a, b, uh, v));
        }
    }
}

} // verus!
