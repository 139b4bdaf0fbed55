use vstd::prelude::*;
use vstd::multiset::Multiset;
use crate::bond::Bond;
use crate::canon::{best_free, best_neighbour, is_order, moved, walk_from, writing_order, Walk};
use crate::graph::Graph;
use crate::invariance::{agree, lemma_ranks_do_not_depend_on_order};
use crate::iso::{
    alike,
    identity,
    lemma_identity,
    lemma_index,
    lemma_moved_touch,
    lemma_transfer,
    total,
};
use crate::ranks::{best_of, better, first_tied, is_tied, ranks_of};

verus! {

/// No two atoms share a rank.
pub open spec fn all_differ(r: Seq<usize>) -> bool {
    forall|x: int, y: int| 0 <= x < r.len() && 0 <= y < r.len() && x != y ==> r[x] != r[y]
}

/// Atom `v` is a neighbour of atom `t` over one of the first `k` bonds, and not yet
/// seen.
pub open spec fn is_next(g: Graph, seen: Seq<usize>, t: usize, k: int, v: usize) -> bool {
    !seen.contains(v) && exists|j: int|
        0 <= j < k && #[trigger] g.bonds[j].touches(t as int) && g.bonds[j].other(t as int) == v
}

/// What the walk takes next is the best of what it can take.
proof fn lemma_best_neighbour_is_best(g: Graph, r: Seq<usize>, seen: Seq<usize>, t: usize, k: int)
    requires
        0 <= k <= g.bonds.len(),
        g.wf(),
        g.atoms.len() <= usize::MAX,
    ensures
        match best_neighbour(g, r, seen, t, k) {
            Some(v) => is_next(g, seen, t, k, v) && forall|u: usize|
                is_next(g, seen, t, k, u) ==> u == v || better(r, v, u),
            None => forall|u: usize| !is_next(g, seen, t, k, u),
        },
    decreases k,
{
    if k > 0 {
        lemma_best_neighbour_is_best(g, r, seen, t, k - 1);
        let before = best_neighbour(g, r, seen, t, k - 1);
        let b = g.bonds[k - 1];
        assert(b.begin < g.atoms.len() && b.end < g.atoms.len());
        let now = best_neighbour(g, r, seen, t, k);
        let w = b.other(t as int) as usize;
        assert forall|u: usize| is_next(g, seen, t, k - 1, u) implies is_next(g, seen, t, k, u) by {
            let j = choose|j: int|
                0 <= j < k - 1 && #[trigger] g.bonds[j].touches(t as int) && g.bonds[j].other(t as int)
                    == u;
            assert(0 <= j < k && g.bonds[j].touches(t as int));
        }
        assert forall|u: usize| is_next(g, seen, t, k, u) implies is_next(g, seen, t, k - 1, u) || (
        u == w && b.touches(t as int) && !seen.contains(w)) by {
            let j = choose|j: int|
                0 <= j < k && #[trigger] g.bonds[j].touches(t as int) && g.bonds[j].other(t as int) == u;
            if j < k - 1 {
                assert(is_next(g, seen, t, k - 1, u));
            }
        }
        if b.touches(t as int) && !seen.contains(w) {
            assert(is_next(g, seen, t, k, w)) by {
                assert(g.bonds[k - 1].touches(t as int) && g.bonds[k - 1].other(t as int) == w);
            }
            assert(now == best_of(r, before, w));
            let v = now.unwrap();
            assert(is_next(g, seen, t, k, v));
            assert forall|u: usize| is_next(g, seen, t, k, u) implies u == v || better(r, v, u) by {
                if is_next(g, seen, t, k - 1, u) {
                    let p = before.unwrap();
                    assert(u == p || better(r, p, u));
                }
            }
        } else {
            assert(now == before);
            match now {
                Some(v) => {
                    assert(is_next(g, seen, t, k, v));
                    assert forall|u: usize| is_next(g, seen, t, k, u) implies u == v || better(r, v, u) by {
                        assert(is_next(g, seen, t, k - 1, u));
                    }
                },
                None => {
                    assert forall|u: usize| !is_next(g, seen, t, k, u) by {
                        if is_next(g, seen, t, k, u) {
                            assert(is_next(g, seen, t, k - 1, u));
                        }
                    }
                },
            }
        }
    }
}

/// Where the walk starts again is the best atom not yet seen.
proof fn lemma_best_free_is_best(r: Seq<usize>, seen: Seq<usize>, k: int)
    requires
        0 <= k <= usize::MAX,
    ensures
        match best_free(r, seen, k) {
            Some(v) => v < k && !seen.contains(v) && forall|u: usize|
                u < k && !seen.contains(u) ==> u == v || better(r, v, u),
            None => forall|u: usize| u < k ==> seen.contains(u),
        },
    decreases k,
{
    if k > 0 {
        lemma_best_free_is_best(r, seen, k - 1);
    }
}

/// One for each bond that joins atoms `t` and `v`.
pub open spec fn join_count(t: int, v: int) -> spec_fn(Bond) -> Multiset<int> {
    |b: Bond|
        if b.joins(t, v) {
            Multiset::singleton(0int)
        } else {
            Multiset::empty()
        }
}

proof fn lemma_join_total(s: Seq<Bond>, t: int, v: int)
    ensures
        total(s, join_count(t, v)).len() > 0 <==> exists|j: int| 0 <= j < s.len() && (#[trigger] s[j]).joins(t, v),
    decreases s.len(),
{
    if s.len() > 0 {
        lemma_join_total(s.drop_last(), t, v);
        if exists|j: int| 0 <= j < s.len() && (#[trigger] s[j]).joins(t, v) {
            let j = choose|j: int| 0 <= j < s.len() && (#[trigger] s[j]).joins(t, v);
            if j < s.len() - 1 {
                assert(s.drop_last()[j].joins(t, v));
            }
        }
        if exists|j: int| 0 <= j < s.len() - 1 && (#[trigger] s.drop_last()[j]).joins(t, v) {
            let j = choose|j: int| 0 <= j < s.len() - 1 && (#[trigger] s.drop_last()[j]).joins(t, v);
            assert(s[j].joins(t, v));
        }
        if s.last().joins(t, v) {
            assert(s[s.len() - 1].joins(t, v));
        }
    }
}

/// Two atoms are joined in one order exactly where they are joined in the other.
pub proof fn lemma_same_neighbours(g: Graph, h: Graph, pi: Seq<usize>, t: int, v: int)
    requires
        alike(g, h, pi),
        0 <= t < h.atoms.len(),
        0 <= v < h.atoms.len(),
    ensures
        (exists|j: int| 0 <= j < h.bonds.len() && (#[trigger] h.bonds[j]).joins(t, v)) <==> (exists|j: int|
            0 <= j < g.bonds.len() && (#[trigger] g.bonds[j]).joins(pi[t] as int, pi[v] as int)),
{
    lemma_same_counted(g, h, pi, t, v);
    lemma_join_total(h.bonds, t, v);
    lemma_join_total(g.bonds, pi[t] as int, pi[v] as int);
}

/// As many bonds join two atoms in one order of the atoms as in the other.
proof fn lemma_same_counted(g: Graph, h: Graph, pi: Seq<usize>, t: int, v: int)
    requires
        alike(g, h, pi),
        0 <= t < h.atoms.len(),
        0 <= v < h.atoms.len(),
    ensures
        total(h.bonds, join_count(t, v)) == total(g.bonds, join_count(pi[t] as int, pi[v] as int)),
{
    let n = h.atoms.len() as int;
    let fh = join_count(t, v);
    let fg = join_count(pi[t] as int, pi[v] as int);
    lemma_identity(n);
    assert forall|j: int| 0 <= j < h.bonds.len() implies fh(#[trigger] h.bonds[j]) == fh(
        moved(h.bonds[j], identity(n)),
    ) by {
        lemma_moved_touch(identity(n), n, h.bonds[j], t);
        lemma_moved_touch(identity(n), n, h.bonds[j], v);
        assert(h.bonds[j].begin != h.bonds[j].end);
    }
    assert forall|j: int| 0 <= j < g.bonds.len() implies fh(moved(#[trigger] g.bonds[j], pi)) == fg(
        g.bonds[j],
    ) by {
        lemma_moved_touch(pi, n, g.bonds[j], t);
        lemma_moved_touch(pi, n, g.bonds[j], v);
        assert(g.bonds[j].begin != g.bonds[j].end);
        lemma_index(pi, n, g.bonds[j].begin);
        lemma_index(pi, n, g.bonds[j].end);
    }
    lemma_transfer(g, h, pi, fh, fg);
}

proof fn lemma_join_two(s: Seq<Bond>, t: int, v: int, j: int, k: int)
    requires
        0 <= j < k < s.len(),
        s[j].joins(t, v),
        s[k].joins(t, v),
    ensures
        total(s, join_count(t, v)).len() >= 2,
    decreases s.len(),
{
    let rest = s.drop_last();
    if k == s.len() - 1 {
        lemma_join_total(rest, t, v);
        assert(rest[j].joins(t, v));
    } else {
        assert(rest[j] == s[j] && rest[k] == s[k]);
        lemma_join_two(rest, t, v, j, k);
    }
}

proof fn lemma_two_join(s: Seq<Bond>, t: int, v: int)
    requires
        total(s, join_count(t, v)).len() >= 2,
    ensures
        exists|j: int, k: int| 0 <= j < k < s.len() && (#[trigger] s[j]).joins(t, v) && (#[trigger] s[k]).joins(t, v),
    decreases s.len(),
{
    if s.len() > 0 {
        let rest = s.drop_last();
        if s.last().joins(t, v) {
            lemma_join_total(rest, t, v);
            let j = choose|j: int| 0 <= j < rest.len() && (#[trigger] rest[j]).joins(t, v);
            assert(s[j].joins(t, v) && s[s.len() - 1].joins(t, v));
        } else {
            lemma_two_join(rest, t, v);
            let (j, k) = choose|j: int, k: int|
                0 <= j < k < rest.len() && (#[trigger] rest[j]).joins(t, v) && (#[trigger] rest[k]).joins(t, v);
            assert(s[j].joins(t, v) && s[k].joins(t, v));
        }
    }
}

/// A graph in another order has no two bonds between the same atoms where the graph
/// has none, and as many bonds.
pub proof fn lemma_simple_carries(g: Graph, h: Graph, pi: Seq<usize>)
    requires
        alike(g, h, pi),
        crate::blocks::is_simple(g),
    ensures
        crate::blocks::is_simple(h),
        h.bonds.len() == g.bonds.len(),
{
    let n = h.atoms.len() as int;
    crate::relabel::moved_bonds(h, identity(n)).to_multiset_ensures();
    crate::relabel::moved_bonds(g, pi).to_multiset_ensures();
    assert forall|j: int, k: int| 0 <= j < k < h.bonds.len() implies !(#[trigger] h.bonds[k]).joins(
        (#[trigger] h.bonds[j]).begin as int,
        h.bonds[j].end as int,
    ) by {
        let t = h.bonds[j].begin as int;
        let v = h.bonds[j].end as int;
        if h.bonds[k].joins(t, v) {
            assert(h.bonds[j].joins(t, v));
            lemma_join_two(h.bonds, t, v, j, k);
            lemma_same_counted(g, h, pi, t, v);
            lemma_two_join(g.bonds, pi[t] as int, pi[v] as int);
            let (a, b) = choose|a: int, b: int|
                0 <= a < b < g.bonds.len() && (#[trigger] g.bonds[a]).joins(pi[t] as int, pi[v] as int) && (
                #[trigger] g.bonds[b]).joins(pi[t] as int, pi[v] as int);
            assert(g.bonds[b].joins(g.bonds[a].begin as int, g.bonds[a].end as int));
        }
    }
}

/// The atoms of `sh` are, one by one, those of `sg` under their new indices.
pub open spec fn mapped(sh: Seq<usize>, sg: Seq<usize>, pi: Seq<usize>) -> bool {
    &&& sh.len() == sg.len()
    &&& forall|k: int| 0 <= k < sh.len() ==> #[trigger] sh[k] < pi.len() && pi[sh[k] as int] == sg[k]
}

proof fn lemma_mapped_seen(sh: Seq<usize>, sg: Seq<usize>, pi: Seq<usize>, n: int, v: usize)
    requires
        is_order(pi, n),
        mapped(sh, sg, pi),
        v < n,
    ensures
        sh.contains(v) == sg.contains(pi[v as int]),
{
    if sh.contains(v) {
        let k = sh.index_of(v);
        assert(sg[k] == pi[v as int]);
    }
    if sg.contains(pi[v as int]) {
        let k = sg.index_of(pi[v as int]);
        assert(pi[sh[k] as int] == pi[v as int]);
        assert(sh[k] == v);
    }
}

proof fn lemma_mapped_push(sh: Seq<usize>, sg: Seq<usize>, pi: Seq<usize>, vh: usize, vg: usize)
    requires
        mapped(sh, sg, pi),
        vh < pi.len(),
        pi[vh as int] == vg,
    ensures
        mapped(sh.push(vh), sg.push(vg), pi),
{
    assert forall|k: int| 0 <= k < sh.push(vh).len() implies #[trigger] sh.push(vh)[k] < pi.len() && pi[sh.push(
        vh,
    )[k] as int] == sg.push(vg)[k] by {
        if k < sh.len() {
            assert(sh[k] == sh.push(vh)[k]);
        }
    }
}

proof fn lemma_same_next(g: Graph, h: Graph, pi: Seq<usize>, sh: Seq<usize>, sg: Seq<usize>, t: usize, v: usize)
    requires
        alike(g, h, pi),
        mapped(sh, sg, pi),
        t < h.atoms.len(),
        v < h.atoms.len(),
    ensures
        is_next(h, sh, t, h.bonds.len() as int, v) == is_next(
            g,
            sg,
            pi[t as int],
            g.bonds.len() as int,
            pi[v as int],
        ),
{
    let n = h.atoms.len() as int;
    lemma_mapped_seen(sh, sg, pi, n, v);
    lemma_same_neighbours(g, h, pi, t as int, v as int);
    let tg = pi[t as int];
    let vg = pi[v as int];
    if exists|j: int| 0 <= j < h.bonds.len() && #[trigger] h.bonds[j].touches(t as int) && h.bonds[j].other(
        t as int,
    ) == v {
        let j = choose|j: int|
            0 <= j < h.bonds.len() && #[trigger] h.bonds[j].touches(t as int) && h.bonds[j].other(t as int)
                == v;
        assert(h.bonds[j].joins(t as int, v as int));
        let j2 = choose|j2: int| 0 <= j2 < g.bonds.len() && (#[trigger] g.bonds[j2]).joins(tg as int, vg as int);
        assert(g.bonds[j2].begin != g.bonds[j2].end);
        assert(g.bonds[j2].touches(tg as int) && g.bonds[j2].other(tg as int) == vg);
    }
    if exists|j: int| 0 <= j < g.bonds.len() && #[trigger] g.bonds[j].touches(tg as int) && g.bonds[j].other(
        tg as int,
    ) == vg {
        let j = choose|j: int|
            0 <= j < g.bonds.len() && #[trigger] g.bonds[j].touches(tg as int) && g.bonds[j].other(tg as int)
                == vg;
        assert(g.bonds[j].joins(tg as int, vg as int));
        let j2 = choose|j2: int| 0 <= j2 < h.bonds.len() && (#[trigger] h.bonds[j2]).joins(t as int, v as int);
        assert(h.bonds[j2].begin != h.bonds[j2].end);
        assert(h.bonds[j2].touches(t as int) && h.bonds[j2].other(t as int) == v);
    }
}

/// With ranks that all differ, the walk goes on to the same atom in either order.
proof fn lemma_same_step(
    g: Graph,
    h: Graph,
    pi: Seq<usize>,
    rh: Seq<usize>,
    rg: Seq<usize>,
    sh: Seq<usize>,
    sg: Seq<usize>,
    t: usize,
)
    requires
        alike(g, h, pi),
        agree(rh, rg, pi),
        all_differ(rg),
        mapped(sh, sg, pi),
        t < h.atoms.len(),
    ensures
        match (
            best_neighbour(h, rh, sh, t, h.bonds.len() as int),
            best_neighbour(g, rg, sg, pi[t as int], g.bonds.len() as int),
        ) {
            (Some(vh), Some(vg)) => vh < h.atoms.len() && pi[vh as int] == vg,
            (None, None) => true,
            _ => false,
        },
{
    let n = h.atoms.len() as int;
    let tg = pi[t as int];
    let mh = h.bonds.len() as int;
    let mg = g.bonds.len() as int;
    lemma_best_neighbour_is_best(h, rh, sh, t, mh);
    lemma_best_neighbour_is_best(g, rg, sg, tg, mg);
    let bh = best_neighbour(h, rh, sh, t, mh);
    let bg = best_neighbour(g, rg, sg, tg, mg);
    if let Some(vh) = bh {
        let j = choose|j: int|
            0 <= j < mh && #[trigger] h.bonds[j].touches(t as int) && h.bonds[j].other(t as int) == vh;
        assert(h.bonds[j].begin < n && h.bonds[j].end < n);
        lemma_same_next(g, h, pi, sh, sg, t, vh);
        assert(is_next(g, sg, tg, mg, pi[vh as int]));
    }
    if let Some(vg) = bg {
        let j = choose|j: int|
            0 <= j < mg && #[trigger] g.bonds[j].touches(tg as int) && g.bonds[j].other(tg as int) == vg;
        assert(g.bonds[j].begin < n && g.bonds[j].end < n);
        lemma_index(pi, n, vg);
        let uh = pi.index_of(vg) as usize;
        lemma_same_next(g, h, pi, sh, sg, t, uh);
        assert(is_next(h, sh, t, mh, uh));
        let vh = bh.unwrap();
        if pi[vh as int] != vg {
            assert(better(rg, vg, pi[vh as int]));
            assert(uh != vh);
            assert(better(rh, vh, uh));
            assert(rh[vh as int] == rg[pi[vh as int] as int]);
            assert(rh[uh as int] == rg[vg as int]);
            assert(false);
        }
    }
}

/// With ranks that all differ, the walk starts again at the same atom in either order.
proof fn lemma_same_start(
    g: Graph,
    h: Graph,
    pi: Seq<usize>,
    rh: Seq<usize>,
    rg: Seq<usize>,
    sh: Seq<usize>,
    sg: Seq<usize>,
)
    requires
        alike(g, h, pi),
        agree(rh, rg, pi),
        all_differ(rg),
        mapped(sh, sg, pi),
    ensures
        match (best_free(rh, sh, h.atoms.len() as int), best_free(rg, sg, g.atoms.len() as int)) {
            (Some(vh), Some(vg)) => vh < h.atoms.len() && pi[vh as int] == vg,
            (None, None) => true,
            _ => false,
        },
{
    let n = h.atoms.len() as int;
    lemma_best_free_is_best(rh, sh, n);
    lemma_best_free_is_best(rg, sg, n);
    let bh = best_free(rh, sh, n);
    let bg = best_free(rg, sg, n);
    if let Some(vh) = bh {
        lemma_mapped_seen(sh, sg, pi, n, vh);
        assert(pi[vh as int] < n);
        assert(!sg.contains(pi[vh as int]));
    }
    if let Some(vg) = bg {
        lemma_index(pi, n, vg);
        let uh = pi.index_of(vg) as usize;
        lemma_mapped_seen(sh, sg, pi, n, uh);
        assert(!sh.contains(uh));
        let vh = bh.unwrap();
        if pi[vh as int] != vg {
            assert(better(rg, vg, pi[vh as int]));
            assert(uh != vh);
            assert(better(rh, vh, uh));
            assert(rh[vh as int] == rg[pi[vh as int] as int]);
            assert(rh[uh as int] == rg[vg as int]);
            assert(false);
        }
    }
}

proof fn lemma_same_walk(
    g: Graph,
    h: Graph,
    pi: Seq<usize>,
    rh: Seq<usize>,
    rg: Seq<usize>,
    wh: Walk,
    wg: Walk,
)
    requires
        alike(g, h, pi),
        agree(rh, rg, pi),
        all_differ(rg),
        mapped(wh.order, wg.order, pi),
        mapped(wh.path, wg.path, pi),
    ensures
        mapped(walk_from(h, rh, wh), walk_from(g, rg, wg), pi),
    decreases 2 * (g.atoms.len() - wg.order.len()) + wg.path.len(),
{
    let n = g.atoms.len() as int;
    if wg.order.len() >= n {
    } else if wg.path.len() > 0 {
        let th = wh.path.last();
        let tg = wg.path.last();
        assert(wh.path[wh.path.len() - 1] < pi.len() && pi[th as int] == tg);
        lemma_same_step(g, h, pi, rh, rg, wh.order, wg.order, th);
        match best_neighbour(g, rg, wg.order, tg, g.bonds.len() as int) {
            Some(vg) => {
                let vh = best_neighbour(h, rh, wh.order, th, h.bonds.len() as int).unwrap();
                lemma_mapped_push(wh.order, wg.order, pi, vh, vg);
                lemma_mapped_push(wh.path, wg.path, pi, vh, vg);
                lemma_same_walk(
                    g,
                    h,
                    pi,
                    rh,
                    rg,
                    Walk { order: wh.order.push(vh), path: wh.path.push(vh) },
                    Walk { order: wg.order.push(vg), path: wg.path.push(vg) },
                );
            },
            None => {
                assert(mapped(wh.path.drop_last(), wg.path.drop_last(), pi)) by {
                    assert forall|k: int| 0 <= k < wh.path.len() - 1 implies #[trigger] wh.path.drop_last()[k]
                        < pi.len() && pi[wh.path.drop_last()[k] as int] == wg.path.drop_last()[k] by {
                        assert(wh.path[k] == wh.path.drop_last()[k]);
                    }
                }
                lemma_same_walk(
                    g,
                    h,
                    pi,
                    rh,
                    rg,
                    Walk { order: wh.order, path: wh.path.drop_last() },
                    Walk { order: wg.order, path: wg.path.drop_last() },
                );
            },
        }
    } else {
        lemma_same_start(g, h, pi, rh, rg, wh.order, wg.order);
        match best_free(rg, wg.order, n) {
            Some(vg) => {
                let vh = best_free(rh, wh.order, n).unwrap();
                lemma_mapped_push(wh.order, wg.order, pi, vh, vg);
                assert(mapped(seq![vh], seq![vg], pi));
                lemma_same_walk(
                    g,
                    h,
                    pi,
                    rh,
                    rg,
                    Walk { order: wh.order.push(vh), path: seq![vh] },
                    Walk { order: wg.order.push(vg), path: seq![vg] },
                );
            },
            None => {},
        }
    }
}

/// Where no two atoms share a rank, the atoms are written in the same order, in
/// whatever order they stand in the graph.
pub proof fn lemma_same_writing_order(g: Graph, h: Graph, pi: Seq<usize>)
    requires
        alike(g, h, pi),
        all_differ(ranks_of(g)),
    ensures
        mapped(writing_order(h), writing_order(g), pi),
{
    lemma_ranks_do_not_depend_on_order(g, h, pi);
    let n = g.atoms.len() as int;
    assert(all_differ(ranks_of(h))) by {
        assert forall|x: int, y: int| 0 <= x < n && 0 <= y < n && x != y implies ranks_of(h)[x] != ranks_of(
            h,
        )[y] by {
            assert(pi[x] != pi[y]);
            assert(ranks_of(h)[x] == ranks_of(g)[pi[x] as int]);
            assert(ranks_of(h)[y] == ranks_of(g)[pi[y] as int]);
        }
    }
    lemma_no_ties(ranks_of(g), n);
    lemma_no_ties(ranks_of(h), n);
    let empty = Walk { order: Seq::empty(), path: Seq::empty() };
    lemma_same_walk(g, h, pi, ranks_of(h), ranks_of(g), empty, empty);
}

/// Where no two atoms share a rank, no tie is broken.
proof fn lemma_no_ties(r: Seq<usize>, k: int)
    requires
        all_differ(r),
        0 <= k <= r.len(),
    ensures
        first_tied(r, k) is None,
    decreases k,
{
    if k > 0 {
        lemma_no_ties(r, k - 1);
        if is_tied(r, k - 1) {
            let b = choose|b: int| 0 <= b < r.len() && b != k - 1 && #[trigger] r[b] == r[k - 1];
            assert(false);
        }
    }
}

} // verus!
