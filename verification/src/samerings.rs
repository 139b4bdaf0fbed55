use vstd::prelude::*;
use crate::chem::{is_aromatic_ring, ring_electrons};
use crate::graph::Graph;
use crate::iso::alike;
use crate::reach::{
    lemma_reach_swap,
    lemma_reach_turns,
    lemma_same_edge,
    lemma_same_reach,
    lemma_step_turns,
    lemma_within_is_reach,
    reach,
    takes,
};
use crate::rings::{
    add_rings,
    dist,
    dist_from,
    lemma_dist_is,
    lemma_dist_least,
    listed,
    ring_list,
    rings_of,
    rings_upto,
    same_ring,
    within,
};
use crate::samechem::lemma_same_pi;
use crate::settled::lemma_paths_in_graph;
use crate::ways::{
    hop,
    is_way,
    lemma_paths_are_ways,
    lemma_same_way,
    lemma_way_apart,
    lemma_way_turns,
    lemma_ways_are_paths,
    through,
    turned,
};

verus! {

/// The sum of `f` over the atoms of `s`.
pub open spec fn sum_over(s: Seq<usize>, f: spec_fn(usize) -> int) -> int
    decreases s.len(),
{
    if s.len() == 0 {
        0
    } else {
        sum_over(s.drop_last(), f) + f(s.last())
    }
}

proof fn lemma_sum_remove(s: Seq<usize>, k: int, f: spec_fn(usize) -> int)
    requires
        0 <= k < s.len(),
    ensures
        sum_over(s, f) == sum_over(s.remove(k), f) + f(s[k]),
    decreases s.len(),
{
    if k == s.len() - 1 {
        assert(s.remove(k) =~= s.drop_last());
    } else {
        lemma_sum_remove(s.drop_last(), k, f);
        assert(s.remove(k).drop_last() =~= s.drop_last().remove(k));
        assert(s.remove(k).last() == s.last());
    }
}

/// A sum over atoms that are all different does not depend on their order.
proof fn lemma_sum_same(x: Seq<usize>, y: Seq<usize>, f: spec_fn(usize) -> int)
    requires
        x.no_duplicates(),
        y.no_duplicates(),
        same_ring(x, y),
    ensures
        sum_over(x, f) == sum_over(y, f),
    decreases x.len(),
{
    if x.len() == 0 {
    } else {
        let a = x.last();
        assert(y.contains(x[x.len() - 1]));
        let k = y.index_of(a);
        let xr = x.drop_last();
        let yr = y.remove(k);
        lemma_sum_remove(y, k, f);
        assert forall|i: int, j: int| 0 <= i < xr.len() && 0 <= j < xr.len() && i != j implies xr[i]
            != xr[j] by {
            assert(x[i] != x[j]);
        }
        assert forall|i: int, j: int| 0 <= i < yr.len() && 0 <= j < yr.len() && i != j implies yr[i]
            != yr[j] by {
            let oi = if i < k {
                i
            } else {
                i + 1
            };
            let oj = if j < k {
                j
            } else {
                j + 1
            };
            assert(yr[i] == y[oi] && yr[j] == y[oj]);
        }
        assert forall|i: int| 0 <= i < xr.len() implies yr.contains(#[trigger] xr[i]) by {
            assert(y.contains(x[i]));
            let z = y.index_of(x[i]);
            assert(x[i] != x[x.len() - 1]);
            if z < k {
                assert(yr[z] == x[i]);
            } else {
                assert(yr[z - 1] == x[i]);
            }
        }
        assert forall|i: int| 0 <= i < yr.len() implies xr.contains(#[trigger] yr[i]) by {
            let oi = if i < k {
                i
            } else {
                i + 1
            };
            assert(yr[i] == y[oi]);
            assert(x.contains(y[oi]));
            let z = x.index_of(y[oi]);
            assert(y[oi] != y[k]);
            assert(xr[z] == yr[i]);
        }
        lemma_sum_same(xr, yr, f);
    }
}

/// 1 for an atom that cannot be part of an aromatic ring.
pub open spec fn gives_none(g: Graph) -> spec_fn(usize) -> int {
    |x: usize|
        if g.pi_electrons(x as int) is None {
            1int
        } else {
            0int
        }
}

/// The electrons that an atom gives, 0 where it gives none.
pub open spec fn gives(g: Graph) -> spec_fn(usize) -> int {
    |x: usize|
        match g.pi_electrons(x as int) {
            Some(e) => e,
            None => 0int,
        }
}

proof fn lemma_electrons_sum(g: Graph, ring: Seq<usize>, k: int)
    requires
        0 <= k <= ring.len(),
    ensures
        sum_over(ring.take(k), gives_none(g)) >= 0,
        ring_electrons(g, ring, k) is Some <==> sum_over(ring.take(k), gives_none(g)) == 0,
        ring_electrons(g, ring, k) matches Some(s) ==> s == sum_over(ring.take(k), gives(g)),
    decreases k,
{
    if k > 0 {
        lemma_electrons_sum(g, ring, k - 1);
        assert(ring.take(k).drop_last() =~= ring.take(k - 1));
        assert(ring.take(k).last() == ring[k - 1]);
    }
}

/// Rings through the same atoms are aromatic together.
pub proof fn lemma_same_atoms_aromatic(g: Graph, x: Seq<usize>, y: Seq<usize>)
    requires
        x.no_duplicates(),
        y.no_duplicates(),
        same_ring(x, y),
    ensures
        is_aromatic_ring(g, x) == is_aromatic_ring(g, y),
{
    lemma_electrons_sum(g, x, x.len() as int);
    lemma_electrons_sum(g, y, y.len() as int);
    assert(x.take(x.len() as int) =~= x);
    assert(y.take(y.len() as int) =~= y);
    lemma_sum_same(x, y, gives_none(g));
    lemma_sum_same(x, y, gives(g));
}

/// A ring is aromatic in whatever order the atoms stand.
proof fn lemma_through_electrons(g: Graph, h: Graph, pi: Seq<usize>, p: Seq<usize>, k: int)
    requires
        alike(g, h, pi),
        takes(g),
        takes(h),
        0 <= k <= p.len(),
        forall|i: int| 0 <= i < p.len() ==> #[trigger] p[i] < h.atoms.len(),
    ensures
        ring_electrons(g, through(p, pi), k) == ring_electrons(h, p, k),
    decreases k,
{
    if k > 0 {
        lemma_through_electrons(g, h, pi, p, k - 1);
        assert(p[k - 1] < h.atoms.len());
        lemma_same_pi(g, h, pi, p[k - 1] as int);
    }
}

proof fn lemma_added_from(list: Seq<Seq<usize>>, rs: Seq<Seq<usize>>, i: int, r: int)
    requires
        0 <= i <= rs.len(),
        0 <= r < add_rings(list, rs, i).len(),
    ensures
        list.len() <= add_rings(list, rs, i).len(),
        r < list.len() ==> add_rings(list, rs, i)[r] == list[r],
        r >= list.len() ==> rs.contains(add_rings(list, rs, i)[r]),
    decreases i,
{
    if i > 0 {
        let before = add_rings(list, rs, i - 1);
        lemma_added_len(list, rs, i - 1);
        if r < before.len() {
            lemma_added_from(list, rs, i - 1, r);
        } else {
            assert(rs[i - 1] == add_rings(list, rs, i)[r]);
        }
    }
}

proof fn lemma_added_len(list: Seq<Seq<usize>>, rs: Seq<Seq<usize>>, i: int)
    requires
        0 <= i <= rs.len(),
    ensures
        list.len() <= add_rings(list, rs, i).len(),
    decreases i,
{
    if i > 0 {
        lemma_added_len(list, rs, i - 1);
    }
}

proof fn lemma_add_keeps(list: Seq<Seq<usize>>, rs: Seq<Seq<usize>>, i: int, p: Seq<usize>)
    requires
        0 <= i <= rs.len(),
        listed(list, p),
    ensures
        listed(add_rings(list, rs, i), p),
    decreases i,
{
    if i > 0 {
        lemma_add_keeps(list, rs, i - 1, p);
        let before = add_rings(list, rs, i - 1);
        let k = choose|k: int| 0 <= k < before.len() && same_ring(p, #[trigger] before[k]);
        assert(add_rings(list, rs, i)[k] == before[k]);
    }
}

proof fn lemma_add_lists(list: Seq<Seq<usize>>, rs: Seq<Seq<usize>>, i: int, x: int)
    requires
        0 <= x < i <= rs.len(),
    ensures
        listed(add_rings(list, rs, i), rs[x]),
    decreases i,
{
    let before = add_rings(list, rs, i - 1);
    if x < i - 1 {
        lemma_add_lists(list, rs, i - 1, x);
        let k = choose|k: int| 0 <= k < before.len() && same_ring(rs[x], #[trigger] before[k]);
        assert(add_rings(list, rs, i)[k] == before[k]);
    } else {
        if !listed(before, rs[x]) {
            let now = add_rings(list, rs, i);
            assert(now[before.len() as int] == rs[x]);
            assert(same_ring(rs[x], now[before.len() as int])) by {
                assert forall|z: int| 0 <= z < rs[x].len() implies rs[x].contains(#[trigger] rs[x][z]) by {}
            }
        }
    }
}

/// A ring on the list is a smallest ring through one of the bonds.
pub proof fn lemma_listed_is_found(g: Graph, k: int, r: int)
    requires
        0 <= k <= g.bonds.len(),
        0 <= r < rings_upto(g, k).len(),
    ensures
        exists|j: int| 0 <= j < k && #[trigger] rings_of(g, j).contains(rings_upto(g, k)[r]),
    decreases k,
{
    if k > 0 {
        let before = rings_upto(g, k - 1);
        let rs = rings_of(g, k - 1);
        lemma_added_from(before, rs, rs.len() as int, r);
        if r < before.len() {
            lemma_listed_is_found(g, k - 1, r);
            let j = choose|j: int| 0 <= j < k - 1 && #[trigger] rings_of(g, j).contains(before[r]);
            assert(rings_of(g, j).contains(rings_upto(g, k)[r]));
        } else {
            assert(rings_of(g, k - 1).contains(rings_upto(g, k)[r]));
        }
    }
}

/// A smallest ring through one of the bonds is on the list, or a ring through the same
/// atoms is.
pub proof fn lemma_found_is_listed(g: Graph, k: int, j: int, p: Seq<usize>)
    requires
        0 <= j < k <= g.bonds.len(),
        rings_of(g, j).contains(p),
    ensures
        listed(rings_upto(g, k), p),
    decreases k,
{
    let before = rings_upto(g, k - 1);
    let rs = rings_of(g, k - 1);
    if j < k - 1 {
        lemma_found_is_listed(g, k - 1, j, p);
        lemma_add_keeps(before, rs, rs.len() as int, p);
    } else {
        let x = rs.index_of(p);
        lemma_add_lists(before, rs, rs.len() as int, x);
    }
}

/// One aromatic ring of the graph passes through atoms `x` and `y`.
pub open spec fn on_aromatic(g: Graph, x: int, y: int) -> bool {
    exists|r: int|
        0 <= r < ring_list(g).len() && is_aromatic_ring(g, #[trigger] ring_list(g)[r]) && ring_list(
            g,
        )[r].contains(x as usize) && ring_list(g)[r].contains(y as usize)
}

/// What a smallest ring through bond `j` is: a shortest way from one atom of the bond
/// back to the other, through atoms of the graph, none of them twice.
pub proof fn lemma_found_ring(g: Graph, j: int, p: Seq<usize>)
    requires
        takes(g),
        0 <= j < g.bonds.len(),
        rings_of(g, j).contains(p),
    ensures
        dist(g, j, g.bonds[j].begin as int, g.bonds[j].end as int) matches Some(d) && is_way(
            g,
            g.bonds[j].begin as int,
            g.bonds[j].end as int,
            g.bonds[j].begin as int,
            p,
            d,
        ) && p[0] == g.bonds[j].end,
        p.no_duplicates(),
        forall|i: int| 0 <= i < p.len() ==> #[trigger] p[i] < g.atoms.len(),
{
    let a = g.bonds[j].begin as int;
    let b = g.bonds[j].end as int;
    assert(g.bonds[j].begin < g.atoms.len() && g.bonds[j].end < g.atoms.len());
    let d = dist(g, j, a, b).unwrap();
    lemma_paths_are_ways(g, j, a, b, d, p);
    if d > 0 {
        lemma_dist_least(g, j, a, b, 0, (d - 1) as nat);
        lemma_within_is_reach(g, j, a, (d - 1) as nat, b);
    }
    lemma_way_apart(g, a, b, a, p, d);
    let x = rings_of(g, j).index_of(p);
    assert forall|i: int| 0 <= i < p.len() implies #[trigger] p[i] < g.atoms.len() by {
        lemma_paths_in_graph(g, j, a, b, d, x, i);
    }
}

proof fn lemma_dist_same(g: Graph, jg: int, sg: int, vg: int, h: Graph, jh: int, sh: int, vh: int, k: nat)
    requires
        g.atoms.len() == h.atoms.len(),
        forall|x: nat| within(h, jh, sh, x, vh) == within(g, jg, sg, x, vg),
    ensures
        dist_from(h, jh, sh, vh, k) == dist_from(g, jg, sg, vg, k),
    decreases g.atoms.len() + 1 - k,
{
    assert(within(h, jh, sh, k, vh) == within(g, jg, sg, k, vg));
    if k <= g.atoms.len() && !within(g, jg, sg, k, vg) {
        lemma_dist_same(g, jg, sg, vg, h, jh, sh, vh, k + 1);
    }
}

proof fn lemma_way_swap(g: Graph, a: int, b: int, src: int, p: Seq<usize>, d: nat)
    requires
        is_way(g, a, b, src, p, d),
    ensures
        is_way(g, b, a, src, p, d),
{
    assert forall|i: int| 0 <= i < d implies #[trigger] hop(g, b, a, src, p, d, i) by {
        assert(hop(g, a, b, src, p, d, i));
        lemma_step_turns(g, a, b, p[i + 1] as int, p[i] as int);
        lemma_reach_swap(g, a, b, src, (d - 1 - i) as nat, p[i + 1] as int);
    }
}

proof fn lemma_through(p: Seq<usize>, pi: Seq<usize>, n: int)
    requires
        crate::canon::is_order(pi, n),
        forall|i: int| 0 <= i < p.len() ==> #[trigger] p[i] < n,
        p.no_duplicates(),
    ensures
        through(p, pi).no_duplicates(),
        forall|x: usize| x < n ==> (p.contains(x) <==> #[trigger] through(p, pi).contains(pi[x as int])),
{
    let q = through(p, pi);
    assert forall|i: int, k: int| 0 <= i < q.len() && 0 <= k < q.len() && i != k implies q[i] != q[k] by {
        assert(p[i] != p[k]);
        assert(p[i] < n && p[k] < n);
    }
    assert forall|x: usize| x < n implies (p.contains(x) <==> #[trigger] q.contains(pi[x as int])) by {
        if p.contains(x) {
            let i = p.index_of(x);
            assert(q[i] == pi[x as int]);
        }
        if q.contains(pi[x as int]) {
            let i = q.index_of(pi[x as int]);
            assert(p[i] < n);
            assert(pi[p[i] as int] == pi[x as int]);
            assert(p[i] == x);
        }
    }
}

proof fn lemma_turned(p: Seq<usize>)
    requires
        p.no_duplicates(),
    ensures
        turned(p).no_duplicates(),
        same_ring(turned(p), p),
{
    let t = turned(p);
    assert forall|i: int| 0 <= i < t.len() implies p.contains(#[trigger] t[i]) by {
        assert(p[p.len() - 1 - i] == t[i]);
    }
    assert forall|i: int| 0 <= i < p.len() implies t.contains(#[trigger] p[i]) by {
        assert(t[p.len() - 1 - i] == p[i]);
    }
}

/// An aromatic ring through two atoms is one in whatever order the atoms stand.
pub proof fn lemma_on_carries(g: Graph, h: Graph, pi: Seq<usize>, x: int, y: int)
    requires
        alike(g, h, pi),
        takes(g),
        takes(h),
        0 <= x < h.atoms.len(),
        0 <= y < h.atoms.len(),
        on_aromatic(h, x, y),
    ensures
        on_aromatic(g, pi[x] as int, pi[y] as int),
{
    let n = h.atoms.len() as int;
    let rh = ring_list(h);
    let rg = ring_list(g);
    let r0 = choose|r: int|
        0 <= r < rh.len() && is_aromatic_ring(h, #[trigger] rh[r]) && rh[r].contains(x as usize)
            && rh[r].contains(y as usize);
    let p = rh[r0];
    lemma_listed_is_found(h, h.bonds.len() as int, r0);
    let jh = choose|j: int| 0 <= j < h.bonds.len() && #[trigger] rings_of(h, j).contains(p);
    lemma_found_ring(h, jh, p);
    let a = h.bonds[jh].begin as int;
    let b = h.bonds[jh].end as int;
    let d = dist(h, jh, a, b).unwrap();
    lemma_same_way(g, h, pi, a, b, a, p, d);
    let q = through(p, pi);
    lemma_through(p, pi, n);
    lemma_through_electrons(g, h, pi, p, p.len() as int);
    let (ga, gb) = (pi[a] as int, pi[b] as int);
    assert(h.bonds[jh].joins(a, b));
    lemma_same_edge(g, h, pi, a, b);
    let jg = choose|j: int| 0 <= j < g.bonds.len() && (#[trigger] g.bonds[j]).joins(ga, gb);
    let same_way = g.bonds[jg].begin == ga && g.bonds[jg].end == gb;
    let found = if same_way {
        q
    } else {
        turned(q)
    };
    lemma_turned(q);
    assert(q[0] == gb);
    if same_way {
        assert forall|k: nat| within(h, jh, a, k, b) == within(g, jg, ga, k, gb) by {
            lemma_within_is_reach(h, jh, a, k, b);
            lemma_within_is_reach(g, jg, ga, k, gb);
            lemma_same_reach(g, h, pi, a, b, a, k, b);
        }
        lemma_dist_same(g, jg, ga, gb, h, jh, a, b, 0);
        lemma_ways_are_paths(g, jg, ga, d, q);
    } else {
        assert(g.bonds[jg].begin == gb && g.bonds[jg].end == ga);
        assert forall|k: nat| within(h, jh, a, k, b) == within(g, jg, gb, k, ga) by {
            lemma_within_is_reach(h, jh, a, k, b);
            lemma_within_is_reach(g, jg, gb, k, ga);
            lemma_same_reach(g, h, pi, a, b, a, k, b);
            lemma_reach_swap(g, ga, gb, ga, k, gb);
            lemma_reach_swap(g, ga, gb, gb, k, ga);
            if reach(g, gb, ga, ga, k, gb) {
                lemma_reach_turns(g, gb, ga, ga, k, gb);
            }
            if reach(g, gb, ga, gb, k, ga) {
                lemma_reach_turns(g, gb, ga, gb, k, ga);
            }
        }
        lemma_dist_same(g, jg, gb, ga, h, jh, a, b, 0);
        lemma_way_turns(g, ga, gb, ga, q, d);
        lemma_way_swap(g, ga, gb, gb, turned(q), d);
        assert(turned(q)[0] == q[d as int]);
        if d == 0 {
            lemma_dist_is(h, jh, a, b, 0);
            assert(a == b);
        }
        lemma_ways_are_paths(g, jg, gb, d, turned(q));
    }
    assert(rings_of(g, jg).contains(found));
    lemma_found_is_listed(g, g.bonds.len() as int, jg, found);
    let r1 = choose|k: int| 0 <= k < rg.len() && same_ring(found, #[trigger] rg[k]);
    let r = rg[r1];
    lemma_listed_is_found(g, g.bonds.len() as int, r1);
    let j2 = choose|j: int| 0 <= j < g.bonds.len() && #[trigger] rings_of(g, j).contains(r);
    lemma_found_ring(g, j2, r);
    lemma_same_atoms_aromatic(g, found, r);
    lemma_same_atoms_aromatic(g, turned(q), q);
    assert(is_aromatic_ring(g, r));
    assert(q.contains(pi[x] as usize) && q.contains(pi[y] as usize));
    assert(found.contains(pi[x] as usize) && found.contains(pi[y] as usize)) by {
        if !same_way {
            let ix = q.index_of(pi[x] as usize);
            let iy = q.index_of(pi[y] as usize);
            assert(turned(q).contains(q[ix]));
            assert(turned(q).contains(q[iy]));
        }
    }
    let fx = found.index_of(pi[x] as usize);
    let fy = found.index_of(pi[y] as usize);
    assert(r.contains(found[fx]) && r.contains(found[fy]));
}

} // verus!
