use vstd::prelude::*;
use vstd::multiset::Multiset;
use vstd::seq_lib::to_multiset_build;
use crate::bond::Bond;
use crate::canon::{is_order, moved};
use crate::graph::Graph;
use crate::iso::{alike, identity, lemma_identity, lemma_index, lemma_total_perm, total};
use crate::relabel::moved_bonds;
use crate::reach::{lemma_same_edge, lemma_same_reach, lemma_step_turns};
use crate::reach::{
    is_pair,
    lemma_reach_grows,
    lemma_simple,
    lemma_within_is_reach,
    reach,
    step,
    takes,
};
use crate::rings::{link_to, paths_back, paths_via, with_head, within};

verus! {

/// From atom `p[i]` a bond other than the one between `a` and `b` leads to atom
/// `p[i + 1]`, which is within `d - 1 - i` bonds of `src`.
pub open spec fn hop(g: Graph, a: int, b: int, src: int, p: Seq<usize>, d: nat, i: int) -> bool {
    step(g, a, b, p[i + 1] as int, p[i] as int) && reach(g, a, b, src, (d - 1 - i) as nat, p[i + 1] as int)
}

/// `p` is a way of `d` bonds from its first atom back to `src`, as short as any, not
/// over the bond between `a` and `b`.
pub open spec fn is_way(g: Graph, a: int, b: int, src: int, p: Seq<usize>, d: nat) -> bool {
    &&& p.len() == d + 1
    &&& forall|i: int| 0 <= i < d ==> #[trigger] hop(g, a, b, src, p, d, i)
}

proof fn lemma_via_grows(g: Graph, skip: int, src: int, v: int, d: nat, k: int, k2: int, p: Seq<usize>)
    requires
        0 <= k <= k2 <= g.bonds.len(),
        paths_via(g, skip, src, v, d, k).contains(p),
    ensures
        paths_via(g, skip, src, v, d, k2).contains(p),
    decreases k2 - k,
{
    if k < k2 {
        lemma_via_grows(g, skip, src, v, d, k, k2 - 1, p);
        let before = paths_via(g, skip, src, v, d, k2 - 1);
        let x = before.index_of(p);
        assert(paths_via(g, skip, src, v, d, k2)[x] == p);
    }
}

proof fn lemma_head_way(g: Graph, a: int, b: int, src: int, v: usize, q: Seq<usize>, d: nat)
    requires
        d > 0,
        is_way(g, a, b, src, q, (d - 1) as nat),
        step(g, a, b, q[0] as int, v as int),
        reach(g, a, b, src, (d - 1) as nat, q[0] as int),
    ensures
        is_way(g, a, b, src, seq![v] + q, d),
{
    let p = seq![v] + q;
    assert forall|i: int| 0 <= i < d implies #[trigger] hop(g, a, b, src, p, d, i) by {
        if i == 0 {
            assert(p[0] == v && p[1] == q[0]);
        } else {
            assert(hop(g, a, b, src, q, (d - 1) as nat, i - 1));
            assert(p[i] == q[i - 1] && p[i + 1] == q[i]);
        }
    }
}

/// Every path that is found is a way.
pub proof fn lemma_paths_are_ways(g: Graph, j: int, src: int, v: int, d: nat, p: Seq<usize>)
    requires
        takes(g),
        0 <= j < g.bonds.len(),
        0 <= v < g.atoms.len(),
        paths_back(g, j, src, v, d).contains(p),
    ensures
        is_way(g, g.bonds[j].begin as int, g.bonds[j].end as int, src, p, d),
        p[0] == v,
    decreases d, g.bonds.len() + 1,
{
    if d == 0 {
        let x = paths_back(g, j, src, v, d).index_of(p);
        assert(p == seq![v as usize]);
    } else {
        lemma_via_are_ways(g, j, src, v, d, g.bonds.len() as int, p);
    }
}

proof fn lemma_via_are_ways(g: Graph, j: int, src: int, v: int, d: nat, k: int, p: Seq<usize>)
    requires
        takes(g),
        0 <= j < g.bonds.len(),
        0 <= v < g.atoms.len(),
        0 <= k <= g.bonds.len(),
        d > 0,
        paths_via(g, j, src, v, d, k).contains(p),
    ensures
        is_way(g, g.bonds[j].begin as int, g.bonds[j].end as int, src, p, d),
        p[0] == v,
    decreases d, k,
{
    let a = g.bonds[j].begin as int;
    let b = g.bonds[j].end as int;
    let all = paths_via(g, j, src, v, d, k);
    let x = all.index_of(p);
    if k > 0 {
        let before = paths_via(g, j, src, v, d, k - 1);
        if x < before.len() {
            assert(before[x] == p);
            lemma_via_are_ways(g, j, src, v, d, k - 1, p);
        } else {
            let jj = k - 1;
            let u = g.bonds[jj].other(v);
            assert(g.bonds[jj].begin < g.atoms.len() && g.bonds[jj].end < g.atoms.len());
            let sub = paths_back(g, j, src, u, (d - 1) as nat);
            let more = with_head(v as usize, sub);
            assert(all[x] == more[x - before.len()]);
            let q = sub[x - before.len()];
            assert(p == seq![v as usize] + q);
            assert(sub.contains(q));
            lemma_paths_are_ways(g, j, src, u, (d - 1) as nat, q);
            lemma_within_is_reach(g, j, src, (d - 1) as nat, u);
            assert(g.bonds[jj].begin != g.bonds[jj].end);
            assert(g.bonds[jj].joins(u, v));
            if is_pair(a, b, u, v) {
                lemma_simple(g, j, jj);
            }
            assert(step(g, a, b, u, v));
            lemma_head_way(g, a, b, src, v as usize, q, d);
        }
    }
}

/// Every way is found.
pub proof fn lemma_ways_are_paths(g: Graph, j: int, src: int, d: nat, p: Seq<usize>)
    requires
        takes(g),
        0 <= j < g.bonds.len(),
        is_way(g, g.bonds[j].begin as int, g.bonds[j].end as int, src, p, d),
    ensures
        paths_back(g, j, src, p[0] as int, d).contains(p),
    decreases d,
{
    let a = g.bonds[j].begin as int;
    let b = g.bonds[j].end as int;
    let v = p[0] as int;
    if d == 0 {
        assert(p =~= seq![p[0]]);
        assert(paths_back(g, j, src, v, d)[0] == p);
    } else {
        assert(hop(g, a, b, src, p, d, 0));
        let u = p[1] as int;
        let q = p.skip(1);
        assert(is_way(g, a, b, src, q, (d - 1) as nat)) by {
            assert forall|i: int| 0 <= i < d - 1 implies #[trigger] hop(g, a, b, src, q, (d - 1) as nat, i) by {
                assert(hop(g, a, b, src, p, d, i + 1));
                assert(q[i] == p[i + 1] && q[i + 1] == p[i + 2]);
            }
        }
        assert(q[0] == p[1]);
        lemma_ways_are_paths(g, j, src, (d - 1) as nat, q);
        let jj = choose|jj: int| 0 <= jj < g.bonds.len() && (#[trigger] g.bonds[jj]).joins(u, v);
        assert(g.bonds[j].joins(a, b));
        assert(jj != j);
        assert(g.bonds[jj].begin != g.bonds[jj].end);
        assert(link_to(g, j, jj, v) && g.bonds[jj].other(v) == u);
        lemma_within_is_reach(g, j, src, (d - 1) as nat, u);
        let sub = paths_back(g, j, src, u, (d - 1) as nat);
        let x = sub.index_of(q);
        let more = with_head(v as usize, sub);
        assert(more[x] =~= p);
        let before = paths_via(g, j, src, v, d, jj);
        let now = paths_via(g, j, src, v, d, jj + 1);
        assert(now == before + more);
        assert(now[before.len() + x] == p);
        lemma_via_grows(g, j, src, v, d, jj + 1, g.bonds.len() as int, p);
    }
}

/// The atoms of `p` under the indices that `pi` gives them.
pub open spec fn through(p: Seq<usize>, pi: Seq<usize>) -> Seq<usize> {
    Seq::new(p.len(), |i: int| pi[p[i] as int])
}

/// A way is a way in whatever order the atoms stand.
pub proof fn lemma_same_way(g: Graph, h: Graph, pi: Seq<usize>, a: int, b: int, src: int, p: Seq<usize>, d: nat)
    requires
        alike(g, h, pi),
        0 <= a < h.atoms.len(),
        0 <= b < h.atoms.len(),
        0 <= src < h.atoms.len(),
        forall|i: int| 0 <= i < p.len() ==> #[trigger] p[i] < h.atoms.len(),
        is_way(h, a, b, src, p, d),
    ensures
        is_way(g, pi[a] as int, pi[b] as int, pi[src] as int, through(p, pi), d),
{
    let q = through(p, pi);
    assert forall|i: int| 0 <= i < d implies #[trigger] hop(
        g,
        pi[a] as int,
        pi[b] as int,
        pi[src] as int,
        q,
        d,
        i,
    ) by {
        assert(hop(h, a, b, src, p, d, i));
        assert(p[i] < h.atoms.len() && p[i + 1] < h.atoms.len());
        lemma_same_edge(g, h, pi, p[i + 1] as int, p[i] as int);
        lemma_same_reach(g, h, pi, a, b, src, (d - 1 - i) as nat, p[i + 1] as int);
    }
}

/// The atoms of `p` from the last to the first.
pub open spec fn turned(p: Seq<usize>) -> Seq<usize> {
    Seq::new(p.len(), |i: int| p[p.len() - 1 - i])
}

proof fn lemma_way_forward(g: Graph, a: int, b: int, src: int, p: Seq<usize>, d: nat, m: int)
    requires
        is_way(g, a, b, src, p, d),
        0 <= m <= d,
    ensures
        reach(g, a, b, p[0] as int, m as nat, p[m] as int),
    decreases m,
{
    if m > 0 {
        lemma_way_forward(g, a, b, src, p, d, m - 1);
        assert(hop(g, a, b, src, p, d, m - 1));
        lemma_step_turns(g, a, b, p[m] as int, p[m - 1] as int);
        assert(step(g, a, b, p[m - 1] as int, p[m] as int));
    }
}

/// A way walked back is a way.
pub proof fn lemma_way_turns(g: Graph, a: int, b: int, src: int, p: Seq<usize>, d: nat)
    requires
        is_way(g, a, b, src, p, d),
    ensures
        is_way(g, a, b, p[0] as int, turned(p), d),
        d > 0 ==> p[d as int] == src,
{
    let r = turned(p);
    assert forall|i: int| 0 <= i < d implies #[trigger] hop(g, a, b, p[0] as int, r, d, i) by {
        assert(hop(g, a, b, src, p, d, d - 1 - i));
        lemma_step_turns(g, a, b, p[d - i] as int, p[d - 1 - i] as int);
        lemma_way_forward(g, a, b, src, p, d, d - 1 - i);
    }
    if d > 0 {
        assert(hop(g, a, b, src, p, d, d - 1));
    }
}

proof fn lemma_way_exact(g: Graph, a: int, b: int, src: int, p: Seq<usize>, d: nat, i: int)
    requires
        is_way(g, a, b, src, p, d),
        d > 0,
        !reach(g, a, b, src, (d - 1) as nat, p[0] as int),
        0 <= i < d,
    ensures
        !reach(g, a, b, src, (d - 1 - i) as nat, p[i] as int),
    decreases i,
{
    if i > 0 {
        lemma_way_exact(g, a, b, src, p, d, i - 1);
        assert(hop(g, a, b, src, p, d, i - 1));
        if reach(g, a, b, src, (d - 1 - i) as nat, p[i] as int) {
            assert(step(g, a, b, p[i] as int, p[i - 1] as int));
            assert(reach(g, a, b, src, (d - i) as nat, p[i - 1] as int));
        }
    }
}

/// A shortest way passes through no atom twice.
pub proof fn lemma_way_apart(g: Graph, a: int, b: int, src: int, p: Seq<usize>, d: nat)
    requires
        is_way(g, a, b, src, p, d),
        d > 0 ==> !reach(g, a, b, src, (d - 1) as nat, p[0] as int),
    ensures
        p.no_duplicates(),
{
    assert forall|i: int, k: int| 0 <= i < p.len() && 0 <= k < p.len() && i != k implies p[i] != p[k] by {
        let (lo, hi) = if i < k {
            (i, k)
        } else {
            (k, i)
        };
        lemma_way_exact(g, a, b, src, p, d, lo);
        assert(hop(g, a, b, src, p, d, hi - 1));
        lemma_reach_grows(g, a, b, src, (d - hi) as nat, (d - 1 - lo) as nat, p[hi] as int);
    }
}

/// Where each atom stands under `pi`, as an order of its own.
pub open spec fn inverse(pi: Seq<usize>) -> Seq<usize> {
    Seq::new(pi.len(), |x: int| pi.index_of(x as usize) as usize)
}

pub proof fn lemma_inverse(pi: Seq<usize>, n: int)
    requires
        is_order(pi, n),
        n <= usize::MAX,
    ensures
        is_order(inverse(pi), n),
        forall|i: int| 0 <= i < n ==> #[trigger] inverse(pi)[pi[i] as int] == i,
        forall|x: int| 0 <= x < n ==> #[trigger] pi[inverse(pi)[x] as int] == x,
        forall|k: usize| k < n ==> #[trigger] inverse(pi).index_of(k) == pi[k as int],
{
    let inv = inverse(pi);
    assert forall|x: int| 0 <= x < n implies #[trigger] pi[inv[x] as int] == x && inv[x] < n by {
        lemma_index(pi, n, x as usize);
    }
    assert forall|i: int| 0 <= i < n implies #[trigger] inv[pi[i] as int] == i by {
        lemma_index(pi, n, pi[i]);
    }
    assert forall|x: int| 0 <= x < n implies #[trigger] inv[x] < n by {
        lemma_index(pi, n, x as usize);
    }
    assert forall|x: int, y: int| 0 <= x < inv.len() && 0 <= y < inv.len() && x != y implies inv[x]
        != inv[y] by {
        lemma_index(pi, n, x as usize);
        lemma_index(pi, n, y as usize);
        assert(pi[inv[x] as int] == x && pi[inv[y] as int] == y);
    }
    assert(inv.no_duplicates());
    assert forall|k: usize| k < n implies #[trigger] inv.contains(k) by {
        assert(inv[pi[k as int] as int] == k);
    }
    assert forall|k: usize| k < n implies #[trigger] inv.index_of(k) == pi[k as int] by {
        assert(inv[pi[k as int] as int] == k);
        let z = inv.index_of(k);
        assert(inv[z] == k);
    }
}

/// Each bond between the new indices that `order` gives its atoms.
pub open spec fn move_to(order: Seq<usize>) -> spec_fn(Bond) -> Multiset<Bond> {
    |b: Bond| Multiset::singleton(moved(b, order))
}

proof fn lemma_moved_bag(s: Seq<Bond>, order: Seq<usize>)
    ensures
        Seq::new(s.len(), |j: int| moved(s[j], order)).to_multiset() == total(s, move_to(order)),
    decreases s.len(),
{
    let m = Seq::new(s.len(), |j: int| moved(s[j], order));
    if s.len() == 0 {
        m.to_multiset_ensures();
        assert(m.to_multiset() =~= Multiset::<Bond>::empty());
    } else {
        let rest = s.drop_last();
        lemma_moved_bag(rest, order);
        let mr = Seq::new(rest.len(), |j: int| moved(rest[j], order));
        assert(m =~= mr.push(moved(s.last(), order)));
        to_multiset_build(mr, moved(s.last(), order));
        assert(mr.to_multiset().insert(moved(s.last(), order)) =~= mr.to_multiset().add(
            Multiset::singleton(moved(s.last(), order)),
        ));
    }
}

/// Where `h` is `g` in another order, `g` is `h` in the order that leads back.
pub proof fn lemma_alike_turns(g: Graph, h: Graph, pi: Seq<usize>)
    requires
        alike(g, h, pi),
    ensures
        alike(h, g, inverse(pi)),
{
    let n = g.atoms.len() as int;
    let inv = inverse(pi);
    let id = identity(n);
    lemma_inverse(pi, n);
    lemma_identity(n);
    let mh = moved_bonds(h, id);
    let mg = moved_bonds(g, pi);
    lemma_total_perm(mh, mg, move_to(inv));
    lemma_moved_bag(mh, inv);
    lemma_moved_bag(mg, inv);
    assert(Seq::new(mh.len(), |j: int| moved(mh[j], inv)) =~= moved_bonds(h, inv)) by {
        assert forall|j: int| 0 <= j < h.bonds.len() implies moved(mh[j], inv) == moved(h.bonds[j], inv) by {
            let b = h.bonds[j];
            assert(b.begin < n && b.end < n);
        }
    }
    assert(Seq::new(mg.len(), |j: int| moved(mg[j], inv)) =~= moved_bonds(g, id)) by {
        assert forall|j: int| 0 <= j < g.bonds.len() implies moved(mg[j], inv) == moved(g.bonds[j], id) by {
            let b = g.bonds[j];
            assert(b.begin < n && b.end < n);
            lemma_index(pi, n, b.begin);
            lemma_index(pi, n, b.end);
        }
    }
    assert forall|x: int| 0 <= x < n implies #[trigger] g.atoms[x] == h.atoms[inv[x] as int] by {
        assert(h.atoms[inv[x] as int] == g.atoms[pi[inv[x] as int] as int]);
    }
}

} // verus!
