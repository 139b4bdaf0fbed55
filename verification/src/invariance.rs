use vstd::prelude::*;
use vstd::multiset::Multiset;
use vstd::relations::{sorted_by, total_ordering};
use vstd::seq_lib::{lemma_sorted_unique, to_multiset_build};
use crate::bond::Bond;
use crate::canon::moved;
use crate::graph::Graph;
use crate::iso::{
    alike,
    count,
    identity,
    lemma_count_perm,
    lemma_count_same,
    lemma_identity,
    lemma_moved_touch,
    lemma_same_degree,
    lemma_transfer,
    total,
};
use crate::ranks::{
    first_ranks,
    key_less,
    key_rank_upto,
    kind_less,
    kind_rank_upto,
    neighbour_ranks,
    put_in,
    ranks_after,
    ranks_of,
    refine,
};

verus! {

/// The ranks `rh` of the atoms in their new order are the ranks `rg` that they had.
pub open spec fn agree(rh: Seq<usize>, rg: Seq<usize>, pi: Seq<usize>) -> bool {
    &&& rh.len() == pi.len()
    &&& rg.len() == pi.len()
    &&& forall|i: int| 0 <= i < pi.len() ==> #[trigger] rh[i] == rg[pi[i] as int]
}

proof fn lemma_kind_less(g: Graph, h: Graph, pi: Seq<usize>, b: int, a: int)
    requires
        alike(g, h, pi),
        0 <= a < h.atoms.len(),
        0 <= b < h.atoms.len(),
    ensures
        kind_less(h, b, a) == kind_less(g, pi[b] as int, pi[a] as int),
{
    lemma_same_degree(g, h, pi, a);
    lemma_same_degree(g, h, pi, b);
}

proof fn lemma_kind_rank_count(g: Graph, a: int, k: int)
    ensures
        kind_rank_upto(g, a, k) == count(k, |b: int| kind_less(g, b, a)),
    decreases k,
{
    if k > 0 {
        lemma_kind_rank_count(g, a, k - 1);
    }
}

/// The ranks that the refinement starts from do not depend on the order of the atoms.
proof fn lemma_first_ranks(g: Graph, h: Graph, pi: Seq<usize>)
    requires
        alike(g, h, pi),
    ensures
        agree(first_ranks(h), first_ranks(g), pi),
{
    let n = h.atoms.len() as int;
    assert forall|i: int| 0 <= i < n implies #[trigger] first_ranks(h)[i] == first_ranks(g)[pi[i] as int] by {
        let a = pi[i] as int;
        let p = |c: int| kind_less(g, c, a);
        lemma_kind_rank_count(h, i, n);
        lemma_kind_rank_count(g, a, n);
        assert forall|b: int| 0 <= b < n implies #[trigger] kind_less(h, b, i) == p(pi[b] as int) by {
            lemma_kind_less(g, h, pi, b, i);
        }
        lemma_count_same(n, |b: int| kind_less(h, b, i), |b: int| p(pi[b] as int));
        lemma_count_perm(pi, n, p);
    }
}

pub open spec fn at_most() -> spec_fn(usize, usize) -> bool {
    |x: usize, y: usize| x <= y
}

proof fn lemma_at_most_orders()
    ensures
        total_ordering(at_most()),
{
    assert(vstd::relations::reflexive(at_most()));
    assert(vstd::relations::antisymmetric(at_most()));
    assert(vstd::relations::transitive(at_most()));
    assert(vstd::relations::strongly_connected(at_most()));
}

proof fn lemma_put_in(s: Seq<usize>, x: usize)
    requires
        sorted_by(s, at_most()),
    ensures
        sorted_by(put_in(s, x), at_most()),
        put_in(s, x).to_multiset() == s.to_multiset().insert(x),
        put_in(s, x).len() == s.len() + 1,
        forall|k: int| 0 <= k < put_in(s, x).len() ==> put_in(s, x)[k] == x || s.contains(put_in(s, x)[k]),
    decreases s.len(),
{
    let le = at_most();
    if s.len() == 0 {
        assert(put_in(s, x) =~= s.push(x));
        to_multiset_build(s, x);
    } else if s.last() <= x {
        to_multiset_build(s, x);
        let r = s.push(x);
        assert forall|i: int, j: int| 0 <= i < j < r.len() implies #[trigger] le(r[i], r[j]) by {
            if j < s.len() {
                assert(le(s[i], s[j]));
            } else {
                assert(i == s.len() - 1 || le(s[i], s[s.len() - 1]));
            }
        }
        assert forall|k: int| 0 <= k < r.len() implies r[k] == x || s.contains(r[k]) by {
            if k < s.len() {
                assert(s[k] == r[k]);
            }
        }
    } else {
        let rest = s.drop_last();
        assert forall|i: int, j: int| 0 <= i < j < rest.len() implies #[trigger] le(rest[i], rest[j]) by {
            assert(le(s[i], s[j]));
        }
        lemma_put_in(rest, x);
        let p = put_in(rest, x);
        let r = p.push(s.last());
        to_multiset_build(p, s.last());
        to_multiset_build(rest, s.last());
        assert(rest.push(s.last()) =~= s);
        assert(rest.to_multiset().insert(x).insert(s.last()) =~= rest.to_multiset().insert(s.last()).insert(
            x,
        ));
        assert forall|i: int, j: int| 0 <= i < j < r.len() implies #[trigger] le(r[i], r[j]) by {
            if j < p.len() {
                assert(le(p[i], p[j]));
            } else {
                if p[i] != x {
                    let k = rest.index_of(p[i]);
                    assert(le(s[k], s[s.len() - 1]));
                }
            }
        }
        assert forall|k: int| 0 <= k < r.len() implies r[k] == x || s.contains(r[k]) by {
            if k < p.len() {
                if p[k] != x {
                    let z = rest.index_of(p[k]);
                    assert(s[z] == p[k]);
                }
            } else {
                assert(s[s.len() - 1] == r[k]);
            }
        }
    }
}

/// The rank of the neighbour over each bond at atom `a`.
pub open spec fn neighbour_rank(r: Seq<usize>, a: int) -> spec_fn(Bond) -> Multiset<usize> {
    |b: Bond|
        if b.touches(a) {
            Multiset::singleton(r[b.other(a)])
        } else {
            Multiset::empty()
        }
}

proof fn lemma_neighbour_ranks_bag(g: Graph, r: Seq<usize>, a: int, k: int)
    requires
        0 <= k <= g.bonds.len(),
    ensures
        sorted_by(neighbour_ranks(g, r, a, k), at_most()),
        neighbour_ranks(g, r, a, k).to_multiset() == total(g.bonds.take(k), neighbour_rank(r, a)),
    decreases k,
{
    if k <= 0 {
        neighbour_ranks(g, r, a, k).to_multiset_ensures();
        assert(neighbour_ranks(g, r, a, k).to_multiset() =~= Multiset::<usize>::empty());
    } else {
        lemma_neighbour_ranks_bag(g, r, a, k - 1);
        assert(g.bonds.take(k).drop_last() =~= g.bonds.take(k - 1));
        assert(g.bonds.take(k).last() == g.bonds[k - 1]);
        let before = neighbour_ranks(g, r, a, k - 1);
        if g.bonds[k - 1].touches(a) {
            lemma_put_in(before, r[g.bonds[k - 1].other(a)]);
            assert(before.to_multiset().insert(r[g.bonds[k - 1].other(a)]) =~= before.to_multiset().add(
                Multiset::singleton(r[g.bonds[k - 1].other(a)]),
            ));
        } else {
            assert(before.to_multiset().add(Multiset::<usize>::empty()) =~= before.to_multiset());
        }
    }
}

/// The sorted ranks of the neighbours of an atom do not depend on the order of the
/// atoms.
proof fn lemma_neighbour_ranks(g: Graph, h: Graph, pi: Seq<usize>, rh: Seq<usize>, rg: Seq<usize>, i: int)
    requires
        alike(g, h, pi),
        agree(rh, rg, pi),
        0 <= i < h.atoms.len(),
    ensures
        neighbour_ranks(h, rh, i, h.bonds.len() as int) == neighbour_ranks(
            g,
            rg,
            pi[i] as int,
            g.bonds.len() as int,
        ),
{
    let n = h.atoms.len() as int;
    let a = pi[i] as int;
    let fh = neighbour_rank(rh, i);
    let fg = neighbour_rank(rg, a);
    lemma_identity(n);
    assert forall|j: int| 0 <= j < h.bonds.len() implies fh(#[trigger] h.bonds[j]) == fh(
        moved(h.bonds[j], identity(n)),
    ) by {
        lemma_moved_touch(identity(n), n, h.bonds[j], i);
        assert(h.bonds[j].begin != h.bonds[j].end);
    }
    assert forall|j: int| 0 <= j < g.bonds.len() implies fh(moved(#[trigger] g.bonds[j], pi)) == fg(
        g.bonds[j],
    ) by {
        lemma_moved_touch(pi, n, g.bonds[j], i);
        assert(g.bonds[j].begin != g.bonds[j].end);
    }
    lemma_transfer(g, h, pi, fh, fg);
    lemma_neighbour_ranks_bag(h, rh, i, h.bonds.len() as int);
    lemma_neighbour_ranks_bag(g, rg, a, g.bonds.len() as int);
    assert(g.bonds.take(g.bonds.len() as int) =~= g.bonds);
    assert(h.bonds.take(h.bonds.len() as int) =~= h.bonds);
    lemma_at_most_orders();
    lemma_sorted_unique(
        neighbour_ranks(h, rh, i, h.bonds.len() as int),
        neighbour_ranks(g, rg, a, g.bonds.len() as int),
        at_most(),
    );
}

proof fn lemma_key_rank_count(g: Graph, r: Seq<usize>, a: int, k: int)
    ensures
        key_rank_upto(g, r, a, k) == count(k, |b: int| key_less(g, r, b, a)),
    decreases k,
{
    if k > 0 {
        lemma_key_rank_count(g, r, a, k - 1);
    }
}

/// A round of the refinement does not depend on the order of the atoms.
proof fn lemma_refine(g: Graph, h: Graph, pi: Seq<usize>, rh: Seq<usize>, rg: Seq<usize>)
    requires
        alike(g, h, pi),
        agree(rh, rg, pi),
    ensures
        agree(refine(h, rh), refine(g, rg), pi),
{
    let n = h.atoms.len() as int;
    assert forall|i: int| 0 <= i < n implies #[trigger] refine(h, rh)[i] == refine(g, rg)[pi[i] as int] by {
        let a = pi[i] as int;
        let p = |c: int| key_less(g, rg, c, a);
        lemma_key_rank_count(h, rh, i, n);
        lemma_key_rank_count(g, rg, a, n);
        lemma_neighbour_ranks(g, h, pi, rh, rg, i);
        assert forall|b: int| 0 <= b < n implies #[trigger] key_less(h, rh, b, i) == p(pi[b] as int) by {
            lemma_neighbour_ranks(g, h, pi, rh, rg, b);
        }
        lemma_count_same(n, |b: int| key_less(h, rh, b, i), |b: int| p(pi[b] as int));
        lemma_count_perm(pi, n, p);
    }
}

proof fn lemma_ranks_after(g: Graph, h: Graph, pi: Seq<usize>, t: nat)
    requires
        alike(g, h, pi),
    ensures
        agree(ranks_after(h, t), ranks_after(g, t), pi),
    decreases t,
{
    if t == 0 {
        lemma_first_ranks(g, h, pi);
    } else {
        lemma_ranks_after(g, h, pi, (t - 1) as nat);
        lemma_refine(g, h, pi, ranks_after(h, (t - 1) as nat), ranks_after(g, (t - 1) as nat));
    }
}

/// The rank of an atom does not depend on the order in which the atoms of its graph
/// stand.
pub proof fn lemma_ranks_do_not_depend_on_order(g: Graph, h: Graph, pi: Seq<usize>)
    requires
        alike(g, h, pi),
    ensures
        agree(ranks_of(h), ranks_of(g), pi),
{
    lemma_ranks_after(g, h, pi, g.atoms.len());
}

} // verus!
