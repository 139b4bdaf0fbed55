use vstd::prelude::*;
use vstd::multiset::Multiset;
use vstd::seq_lib::to_multiset_remove;
use crate::bond::Bond;
use crate::canon::{is_order, moved};
use crate::graph::Graph;
use crate::relabel::moved_bonds;

verus! {

/// The order that leaves every atom where it is.
pub open spec fn identity(n: int) -> Seq<usize> {
    Seq::new(n as nat, |i: int| i as usize)
}

/// `h` is the graph `g` with its atoms in another order, and its bonds in any order and
/// direction: atom `i` of `h` is atom `pi[i]` of `g`, and the bonds of `h` are the
/// bonds of `g`, each once, between the new indices of their atoms.
pub open spec fn same_graph(g: Graph, h: Graph, pi: Seq<usize>) -> bool {
    &&& is_order(pi, g.atoms.len() as int)
    &&& h.atoms.len() == g.atoms.len()
    &&& forall|i: int| 0 <= i < h.atoms.len() ==> #[trigger] h.atoms[i] == g.atoms[pi[i] as int]
    &&& moved_bonds(h, identity(h.atoms.len() as int)).to_multiset() == moved_bonds(g, pi).to_multiset()
}

/// What the elements of `s` add up to, where each element gives `f` of it.
pub open spec fn total<A, X>(s: Seq<A>, f: spec_fn(A) -> Multiset<X>) -> Multiset<X>
    decreases s.len(),
{
    if s.len() == 0 {
        Multiset::empty()
    } else {
        total(s.drop_last(), f).add(f(s.last()))
    }
}

proof fn lemma_total_remove<A, X>(s: Seq<A>, k: int, f: spec_fn(A) -> Multiset<X>)
    requires
        0 <= k < s.len(),
    ensures
        total(s, f) == total(s.remove(k), f).add(f(s[k])),
    decreases s.len(),
{
    if k == s.len() - 1 {
        assert(s.remove(k) =~= s.drop_last());
    } else {
        lemma_total_remove(s.drop_last(), k, f);
        assert(s.remove(k).drop_last() =~= s.drop_last().remove(k));
        assert(s.remove(k).last() == s.last());
        assert(total(s.drop_last().remove(k), f).add(f(s[k])).add(f(s.last())) =~= total(
            s.drop_last().remove(k),
            f,
        ).add(f(s.last())).add(f(s[k])));
    }
}

/// What elements add up to does not depend on their order.
pub proof fn lemma_total_perm<A, X>(s1: Seq<A>, s2: Seq<A>, f: spec_fn(A) -> Multiset<X>)
    requires
        s1.to_multiset() == s2.to_multiset(),
    ensures
        total(s1, f) == total(s2, f),
    decreases s1.len(),
{
    s1.to_multiset_ensures();
    s2.to_multiset_ensures();
    if s1.len() == 0 {
        assert(s2.len() == 0);
    } else {
        let x = s1.last();
        assert(s1.to_multiset().count(x) > 0) by {
            assert(s1.contains(x)) by {
                assert(s1[s1.len() - 1] == x);
            }
        }
        assert(s2.contains(x));
        let k = s2.index_of(x);
        to_multiset_remove(s2, k);
        to_multiset_remove(s1, s1.len() - 1);
        assert(s1.remove(s1.len() - 1) =~= s1.drop_last());
        lemma_total_perm(s1.drop_last(), s2.remove(k), f);
        lemma_total_remove(s2, k, f);
    }
}

/// Adding up over changed elements is adding up the change.
pub proof fn lemma_total_map<A, B, X>(
    s: Seq<A>,
    t: Seq<B>,
    f: spec_fn(A) -> Multiset<X>,
    g: spec_fn(B) -> Multiset<X>,
)
    requires
        s.len() == t.len(),
        forall|j: int| 0 <= j < s.len() ==> f(#[trigger] s[j]) == g(t[j]),
    ensures
        total(s, f) == total(t, g),
    decreases s.len(),
{
    if s.len() > 0 {
        lemma_total_map(s.drop_last(), t.drop_last(), f, g);
        assert(f(s[s.len() - 1]) == g(t[s.len() - 1]));
    }
}

/// Where an order puts an atom.
pub proof fn lemma_index(order: Seq<usize>, n: int, x: usize)
    requires
        is_order(order, n),
        x < n,
    ensures
        0 <= order.index_of(x) < n,
        order[order.index_of(x)] == x,
        forall|k: int| 0 <= k < n && order[k] == x ==> k == order.index_of(x),
{
    assert(order.contains(x));
}

pub proof fn lemma_identity(n: int)
    requires
        0 <= n <= usize::MAX,
    ensures
        is_order(identity(n), n),
        forall|x: usize| x < n ==> #[trigger] identity(n).index_of(x) == x,
{
    let id = identity(n);
    assert forall|x: usize| x < n implies #[trigger] id.contains(x) by {
        assert(id[x as int] == x);
    }
    assert forall|x: usize| x < n implies #[trigger] id.index_of(x) == x by {
        assert(id[x as int] == x);
        let k = id.index_of(x);
        assert(id[k] == x);
    }
}

/// A bond between new indices touches a new index exactly where the bond touched the
/// atom that stands there now, and leads to where the atom at its other end stands.
pub proof fn lemma_moved_touch(order: Seq<usize>, n: int, b: Bond, i: int)
    requires
        is_order(order, n),
        n <= usize::MAX,
        b.begin < n,
        b.end < n,
        0 <= i < n,
    ensures
        moved(b, order).touches(i) == b.touches(order[i] as int),
        b.touches(order[i] as int) && b.begin != b.end ==> 0 <= moved(b, order).other(i) < n && order[moved(
            b,
            order,
        ).other(i)] == b.other(order[i] as int),
        moved(b, order).order == b.order,
{
    lemma_index(order, n, b.begin);
    lemma_index(order, n, b.end);
}

/// What the bonds of two graphs add up to is the same where the graphs are the same
/// graph and the bonds, taken between new indices, give the same.
pub proof fn lemma_transfer<X>(
    g: Graph,
    h: Graph,
    pi: Seq<usize>,
    fh: spec_fn(Bond) -> Multiset<X>,
    fg: spec_fn(Bond) -> Multiset<X>,
)
    requires
        same_graph(g, h, pi),
        forall|j: int|
            0 <= j < h.bonds.len() ==> fh(#[trigger] h.bonds[j]) == fh(
                moved(h.bonds[j], identity(h.atoms.len() as int)),
            ),
        forall|j: int| 0 <= j < g.bonds.len() ==> fh(moved(#[trigger] g.bonds[j], pi)) == fg(g.bonds[j]),
    ensures
        total(h.bonds, fh) == total(g.bonds, fg),
{
    let id = identity(h.atoms.len() as int);
    let mh = moved_bonds(h, id);
    let mg = moved_bonds(g, pi);
    assert forall|j: int| 0 <= j < h.bonds.len() implies fh(#[trigger] h.bonds[j]) == fh(mh[j]) by {}
    lemma_total_map(h.bonds, mh, fh, fh);
    lemma_total_perm(mh, mg, fh);
    assert forall|j: int| 0 <= j < mg.len() implies fh(#[trigger] mg[j]) == fg(g.bonds[j]) by {
        assert(fh(moved(g.bonds[j], pi)) == fg(g.bonds[j]));
    }
    lemma_total_map(mg, g.bonds, fh, fg);
}

/// One for each bond at atom `a`.
pub open spec fn touch_count(a: int) -> spec_fn(Bond) -> Multiset<int> {
    |b: Bond|
        if b.touches(a) {
            Multiset::singleton(0int)
        } else {
            Multiset::empty()
        }
}

proof fn lemma_degree_total(g: Graph, a: int, k: int)
    requires
        0 <= k <= g.bonds.len(),
    ensures
        g.degree_upto(a, k) == total(g.bonds.take(k), touch_count(a)).len(),
    decreases k,
{
    if k > 0 {
        lemma_degree_total(g, a, k - 1);
        assert(g.bonds.take(k).drop_last() =~= g.bonds.take(k - 1));
        assert(g.bonds.take(k).last() == g.bonds[k - 1]);
    }
}

/// Graphs that fit a machine and are well formed, one the other in another order.
pub open spec fn alike(g: Graph, h: Graph, pi: Seq<usize>) -> bool {
    &&& g.wf()
    &&& h.wf()
    &&& g.atoms.len() <= usize::MAX
    &&& same_graph(g, h, pi)
}

/// An atom has as many bonds in one order as in another.
pub proof fn lemma_same_degree(g: Graph, h: Graph, pi: Seq<usize>, i: int)
    requires
        alike(g, h, pi),
        0 <= i < h.atoms.len(),
    ensures
        h.degree(i) == g.degree(pi[i] as int),
{
    let n = h.atoms.len() as int;
    let fh = touch_count(i);
    let fg = touch_count(pi[i] as int);
    lemma_identity(n);
    assert forall|j: int| 0 <= j < h.bonds.len() implies fh(#[trigger] h.bonds[j]) == fh(
        moved(h.bonds[j], identity(n)),
    ) by {
        lemma_moved_touch(identity(n), n, h.bonds[j], i);
    }
    assert forall|j: int| 0 <= j < g.bonds.len() implies fh(moved(#[trigger] g.bonds[j], pi)) == fg(
        g.bonds[j],
    ) by {
        lemma_moved_touch(pi, n, g.bonds[j], i);
    }
    lemma_transfer(g, h, pi, fh, fg);
    lemma_degree_total(g, pi[i] as int, g.bonds.len() as int);
    lemma_degree_total(h, i, h.bonds.len() as int);
    assert(g.bonds.take(g.bonds.len() as int) =~= g.bonds);
    assert(h.bonds.take(h.bonds.len() as int) =~= h.bonds);
}

/// The number of indices below `n` of which `p` holds.
pub open spec fn count(n: int, p: spec_fn(int) -> bool) -> int
    decreases n,
{
    if n <= 0 {
        0
    } else {
        count(n - 1, p) + if p(n - 1) {
            1int
        } else {
            0int
        }
    }
}

/// One for each index of which `p` holds.
pub open spec fn one_if(p: spec_fn(int) -> bool) -> spec_fn(usize) -> Multiset<int> {
    |x: usize|
        if p(x as int) {
            Multiset::singleton(0int)
        } else {
            Multiset::empty()
        }
}

proof fn lemma_count_total(s: Seq<usize>, p: spec_fn(int) -> bool, k: int)
    requires
        0 <= k <= s.len(),
    ensures
        count(k, |b: int| p(s[b] as int)) == total(s.take(k), one_if(p)).len(),
    decreases k,
{
    let q = |b: int| p(s[b] as int);
    if k > 0 {
        lemma_count_total(s, p, k - 1);
        assert(s.take(k).drop_last() =~= s.take(k - 1));
        assert(s.take(k).last() == s[k - 1]);
        assert(q(k - 1) == p(s[k - 1] as int));
    }
}

pub proof fn lemma_count_same(n: int, p: spec_fn(int) -> bool, q: spec_fn(int) -> bool)
    requires
        forall|b: int| 0 <= b < n ==> #[trigger] p(b) == q(b),
    ensures
        count(n, p) == count(n, q),
    decreases n,
{
    if n > 0 {
        lemma_count_same(n - 1, p, q);
    }
}

proof fn lemma_orders_same_bag(a: Seq<usize>, b: Seq<usize>, n: int)
    requires
        is_order(a, n),
        is_order(b, n),
    ensures
        a.to_multiset() == b.to_multiset(),
{
    a.lemma_multiset_has_no_duplicates();
    b.lemma_multiset_has_no_duplicates();
    a.to_multiset_ensures();
    b.to_multiset_ensures();
    assert forall|x: usize| a.to_multiset().count(x) == b.to_multiset().count(x) by {
        if a.contains(x) {
            let k = a.index_of(x);
            assert(a[k] < n);
            assert(b.contains(x));
        } else if b.contains(x) {
            let k = b.index_of(x);
            assert(b[k] < n);
            assert(a.contains(x));
        }
    }
    assert(a.to_multiset() =~= b.to_multiset());
}

/// Counting over the atoms in another order counts the same.
pub proof fn lemma_count_perm(pi: Seq<usize>, n: int, p: spec_fn(int) -> bool)
    requires
        is_order(pi, n),
        0 <= n <= usize::MAX,
    ensures
        count(n, |b: int| p(pi[b] as int)) == count(n, p),
{
    let id = identity(n);
    lemma_identity(n);
    lemma_orders_same_bag(pi, id, n);
    lemma_count_total(pi, p, n);
    lemma_count_total(id, p, n);
    assert(pi.take(n) =~= pi);
    assert(id.take(n) =~= id);
    lemma_total_perm(pi, id, one_if(p));
    lemma_count_same(n, |b: int| p(id[b] as int), p);
}

} // verus!
