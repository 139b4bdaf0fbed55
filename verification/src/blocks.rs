use vstd::prelude::*;
use vstd::multiset::Multiset;
use vstd::seq_lib::{to_multiset_build, to_multiset_remove};
use crate::bond::Bond;
use crate::canon::{
    bonds_at,
    bonds_upto,
    is_order,
    lemma_bonds_upto,
    moved,
    put_bond,
    relabeled,
    sorted_below,
};
use crate::graph::Graph;
use crate::iso::{alike, identity, lemma_identity, lemma_index, lemma_transfer, total};
use crate::walks::mapped;

verus! {

/// No two bonds join the same two atoms.
pub open spec fn is_simple(g: Graph) -> bool {
    forall|j: int, k: int|
        0 <= j < k < g.bonds.len() ==> !(#[trigger] g.bonds[k]).joins(
            (#[trigger] g.bonds[j]).begin as int,
            g.bonds[j].end as int,
        )
}

/// The bonds stand in falling order of the atom at which they start, no two of them
/// starting at the same atom.
pub open spec fn falling(s: Seq<Bond>) -> bool {
    forall|x: int, y: int| 0 <= x < y < s.len() ==> (#[trigger] s[x]).begin > (#[trigger] s[y]).begin
}

/// The bond itself, between new indices, where it ends at the new index `i`.
pub open spec fn block_bag(order: Seq<usize>, i: int) -> spec_fn(Bond) -> Multiset<Bond> {
    |b: Bond|
        if moved(b, order).end == i {
            Multiset::singleton(moved(b, order))
        } else {
            Multiset::empty()
        }
}

proof fn lemma_put_bond(s: Seq<Bond>, b: Bond)
    requires
        falling(s),
        forall|x: int| 0 <= x < s.len() ==> (#[trigger] s[x]).begin != b.begin,
    ensures
        falling(put_bond(s, b)),
        put_bond(s, b).to_multiset() == s.to_multiset().insert(b),
        forall|x: int| 0 <= x < put_bond(s, b).len() ==> put_bond(s, b)[x] == b || s.contains(put_bond(s, b)[x]),
    decreases s.len(),
{
    if s.len() == 0 {
        assert(put_bond(s, b) =~= s.push(b));
        to_multiset_build(s, b);
    } else if s.last().begin >= b.begin {
        to_multiset_build(s, b);
        let r = s.push(b);
        assert forall|x: int, y: int| 0 <= x < y < r.len() implies (#[trigger] r[x]).begin > (
        #[trigger] r[y]).begin by {
            if y < s.len() {
                assert(s[x].begin > s[y].begin);
            } else {
                assert(s[s.len() - 1].begin != b.begin);
                if x < s.len() - 1 {
                    assert(s[x].begin > s[s.len() - 1].begin);
                }
            }
        }
        assert forall|x: int| 0 <= x < r.len() implies r[x] == b || s.contains(r[x]) by {
            if x < s.len() {
                assert(s[x] == r[x]);
            }
        }
    } else {
        let rest = s.drop_last();
        assert(falling(rest)) by {
            assert forall|x: int, y: int| 0 <= x < y < rest.len() implies (#[trigger] rest[x]).begin > (
            #[trigger] rest[y]).begin by {
                assert(s[x].begin > s[y].begin);
            }
        }
        assert forall|x: int| 0 <= x < rest.len() implies (#[trigger] rest[x]).begin != b.begin by {
            assert(s[x].begin != b.begin);
        }
        lemma_put_bond(rest, b);
        let p = put_bond(rest, b);
        let r = p.push(s.last());
        to_multiset_build(p, s.last());
        to_multiset_build(rest, s.last());
        assert(rest.push(s.last()) =~= s);
        assert(rest.to_multiset().insert(b).insert(s.last()) =~= rest.to_multiset().insert(s.last()).insert(
            b,
        ));
        assert forall|x: int, y: int| 0 <= x < y < r.len() implies (#[trigger] r[x]).begin > (
        #[trigger] r[y]).begin by {
            if y < p.len() {
                assert(p[x].begin > p[y].begin);
            } else if p[x] != b {
                let k = rest.index_of(p[x]);
                assert(s[k].begin > s[s.len() - 1].begin);
            }
        }
        assert forall|x: int| 0 <= x < r.len() implies r[x] == b || s.contains(r[x]) by {
            if x < p.len() {
                if p[x] != b {
                    let z = rest.index_of(p[x]);
                    assert(s[z] == p[x]);
                }
            } else {
                assert(s[s.len() - 1] == r[x]);
            }
        }
    }
}

/// Two bonds that stand between the same new indices join the same atoms.
proof fn lemma_moved_same(g: Graph, order: Seq<usize>, j: int, k: int)
    requires
        g.wf(),
        g.atoms.len() <= usize::MAX,
        is_order(order, g.atoms.len() as int),
        0 <= j < g.bonds.len(),
        0 <= k < g.bonds.len(),
        moved(g.bonds[j], order).begin == moved(g.bonds[k], order).begin,
        moved(g.bonds[j], order).end == moved(g.bonds[k], order).end,
    ensures
        g.bonds[k].joins(g.bonds[j].begin as int, g.bonds[j].end as int),
{
    let n = g.atoms.len() as int;
    assert(g.bonds[j].begin < n && g.bonds[j].end < n);
    assert(g.bonds[k].begin < n && g.bonds[k].end < n);
    lemma_index(order, n, g.bonds[j].begin);
    lemma_index(order, n, g.bonds[j].end);
    lemma_index(order, n, g.bonds[k].begin);
    lemma_index(order, n, g.bonds[k].end);
}

/// `b` is one of the first `k` bonds of the graph between new indices, and ends at the
/// new index `i`.
pub open spec fn from_bond(g: Graph, order: Seq<usize>, i: int, k: int, b: Bond) -> bool {
    exists|j: int| 0 <= j < k && #[trigger] moved(g.bonds[j], order) == b && b.end == i
}

/// The bonds that end at a new index: in falling order, each of them a bond of the
/// graph, and together what the bonds of the graph add up to.
proof fn lemma_block(g: Graph, order: Seq<usize>, i: int, k: int)
    requires
        g.wf(),
        g.atoms.len() <= usize::MAX,
        is_simple(g),
        is_order(order, g.atoms.len() as int),
        0 <= k <= g.bonds.len(),
    ensures
        falling(bonds_at(g, order, i, k)),
        bonds_at(g, order, i, k).to_multiset() == total(g.bonds.take(k), block_bag(order, i)),
        forall|x: int|
            0 <= x < bonds_at(g, order, i, k).len() ==> from_bond(
                g,
                order,
                i,
                k,
                #[trigger] bonds_at(g, order, i, k)[x],
            ),
    decreases k,
{
    if k <= 0 {
        bonds_at(g, order, i, k).to_multiset_ensures();
        assert(bonds_at(g, order, i, k).to_multiset() =~= Multiset::<Bond>::empty());
    } else {
        lemma_block(g, order, i, k - 1);
        assert(g.bonds.take(k).drop_last() =~= g.bonds.take(k - 1));
        assert(g.bonds.take(k).last() == g.bonds[k - 1]);
        let before = bonds_at(g, order, i, k - 1);
        let b = moved(g.bonds[k - 1], order);
        if b.end == i {
            assert forall|x: int| 0 <= x < before.len() implies (#[trigger] before[x]).begin != b.begin by {
                assert(from_bond(g, order, i, k - 1, before[x]));
                let j = choose|j: int|
                    0 <= j < k - 1 && #[trigger] moved(g.bonds[j], order) == before[x] && before[x].end == i;
                if before[x].begin == b.begin {
                    lemma_moved_same(g, order, j, k - 1);
                    assert(false);
                }
            }
            lemma_put_bond(before, b);
            assert(before.to_multiset().insert(b) =~= before.to_multiset().add(Multiset::singleton(b)));
            let now = bonds_at(g, order, i, k);
            assert forall|x: int| 0 <= x < now.len() implies from_bond(g, order, i, k, #[trigger] now[x]) by {
                if now[x] == b {
                    assert(moved(g.bonds[k - 1], order) == now[x]);
                } else {
                    let z = before.index_of(now[x]);
                    assert(from_bond(g, order, i, k - 1, before[z]));
                    let j = choose|j: int|
                        0 <= j < k - 1 && #[trigger] moved(g.bonds[j], order) == before[z] && before[z].end
                            == i;
                    assert(moved(g.bonds[j], order) == now[x]);
                }
            }
        } else {
            assert(before.to_multiset().add(Multiset::<Bond>::empty()) =~= before.to_multiset());
            let now = bonds_at(g, order, i, k);
            assert forall|x: int| 0 <= x < now.len() implies from_bond(g, order, i, k, #[trigger] now[x]) by {
                assert(from_bond(g, order, i, k - 1, before[x]));
                let j = choose|j: int|
                    0 <= j < k - 1 && #[trigger] moved(g.bonds[j], order) == before[x] && before[x].end == i;
                assert(moved(g.bonds[j], order) == now[x]);
            }
        }
    }
}

/// Bonds in falling order are settled by which bonds they are.
proof fn lemma_falling_unique(x: Seq<Bond>, y: Seq<Bond>)
    requires
        falling(x),
        falling(y),
        x.to_multiset() == y.to_multiset(),
    ensures
        x == y,
    decreases x.len(),
{
    x.to_multiset_ensures();
    y.to_multiset_ensures();
    if x.len() == 0 {
        assert(y.len() == 0);
        assert(x =~= y);
    } else {
        let a = x.last();
        let b = y.last();
        assert(x.contains(a)) by {
            assert(x[x.len() - 1] == a);
        }
        assert(y.contains(b)) by {
            assert(y[y.len() - 1] == b);
        }
        assert(x.to_multiset().count(a) > 0);
        assert(y.to_multiset().count(b) > 0);
        assert(y.to_multiset().count(a) > 0);
        assert(x.to_multiset().count(b) > 0);
        assert(y.contains(a));
        assert(x.contains(b));
        let ka = y.index_of(a);
        let kb = x.index_of(b);
        if ka < y.len() - 1 {
            assert(y[ka].begin > y[y.len() - 1].begin);
            if kb < x.len() - 1 {
                assert(x[kb].begin > x[x.len() - 1].begin);
            }
            assert(false);
        }
        assert(a == b);
        to_multiset_remove(x, x.len() - 1);
        to_multiset_remove(y, y.len() - 1);
        assert(x.remove(x.len() - 1) =~= x.drop_last());
        assert(y.remove(y.len() - 1) =~= y.drop_last());
        assert(falling(x.drop_last())) by {
            assert forall|p: int, q: int| 0 <= p < q < x.len() - 1 implies (#[trigger] x.drop_last()[p]).begin
                > (#[trigger] x.drop_last()[q]).begin by {
                assert(x[p].begin > x[q].begin);
            }
        }
        assert(falling(y.drop_last())) by {
            assert forall|p: int, q: int| 0 <= p < q < y.len() - 1 implies (#[trigger] y.drop_last()[p]).begin
                > (#[trigger] y.drop_last()[q]).begin by {
                assert(y[p].begin > y[q].begin);
            }
        }
        lemma_falling_unique(x.drop_last(), y.drop_last());
        assert(x =~= x.drop_last().push(a));
        assert(y =~= y.drop_last().push(b));
    }
}

/// Where an atom stands in the writing order of one graph is where the atom that it is
/// in the other graph stands in that graph's writing order.
proof fn lemma_compose(pi: Seq<usize>, oh: Seq<usize>, og: Seq<usize>, n: int, x: usize)
    requires
        is_order(pi, n),
        is_order(oh, n),
        is_order(og, n),
        mapped(oh, og, pi),
        x < n,
    ensures
        oh.index_of(pi.index_of(x) as usize) == og.index_of(x),
{
    lemma_index(og, n, x);
    let k = og.index_of(x);
    lemma_index(pi, n, x);
    assert(pi[oh[k] as int] == x);
    assert(oh[k] == pi.index_of(x));
    lemma_index(oh, n, oh[k]);
}

/// The bonds that end at a new index are the same, in whatever order the atoms stood.
proof fn lemma_same_block(g: Graph, h: Graph, pi: Seq<usize>, oh: Seq<usize>, og: Seq<usize>, i: int)
    requires
        alike(g, h, pi),
        is_simple(g),
        is_simple(h),
        is_order(oh, g.atoms.len() as int),
        is_order(og, g.atoms.len() as int),
        mapped(oh, og, pi),
    ensures
        bonds_at(h, oh, i, h.bonds.len() as int) == bonds_at(g, og, i, g.bonds.len() as int),
{
    let n = g.atoms.len() as int;
    let fh = block_bag(oh, i);
    let fg = block_bag(og, i);
    let id = identity(n);
    lemma_identity(n);
    assert forall|j: int| 0 <= j < h.bonds.len() implies fh(#[trigger] h.bonds[j]) == fh(
        moved(h.bonds[j], id),
    ) by {
        let b = h.bonds[j];
        assert(b.begin < n && b.end < n);
        lemma_index(oh, n, b.begin);
        lemma_index(oh, n, b.end);
        assert(moved(moved(b, id), oh) == moved(b, oh));
    }
    assert forall|j: int| 0 <= j < g.bonds.len() implies fh(moved(#[trigger] g.bonds[j], pi)) == fg(
        g.bonds[j],
    ) by {
        let b = g.bonds[j];
        assert(b.begin < n && b.end < n);
        lemma_compose(pi, oh, og, n, b.begin);
        lemma_compose(pi, oh, og, n, b.end);
        lemma_index(pi, n, b.begin);
        lemma_index(pi, n, b.end);
        assert(moved(moved(b, pi), oh) == moved(b, og));
    }
    lemma_transfer(g, h, pi, fh, fg);
    lemma_block(h, oh, i, h.bonds.len() as int);
    lemma_block(g, og, i, g.bonds.len() as int);
    assert(g.bonds.take(g.bonds.len() as int) =~= g.bonds);
    assert(h.bonds.take(h.bonds.len() as int) =~= h.bonds);
    lemma_falling_unique(bonds_at(h, oh, i, h.bonds.len() as int), bonds_at(g, og, i, g.bonds.len() as int));
}

proof fn lemma_same_bonds(g: Graph, h: Graph, pi: Seq<usize>, oh: Seq<usize>, og: Seq<usize>, i: int)
    requires
        alike(g, h, pi),
        is_simple(g),
        is_simple(h),
        is_order(oh, g.atoms.len() as int),
        is_order(og, g.atoms.len() as int),
        mapped(oh, og, pi),
    ensures
        bonds_upto(h, oh, i) == bonds_upto(g, og, i),
    decreases i,
{
    if i > 0 {
        lemma_same_bonds(g, h, pi, oh, og, i - 1);
        lemma_same_block(g, h, pi, oh, og, i - 1);
    }
}

/// Graphs that are the same graph, and are put in orders that name the same atoms, are
/// equal after that.
pub proof fn lemma_same_relabeled(g: Graph, h: Graph, pi: Seq<usize>, oh: Seq<usize>, og: Seq<usize>)
    requires
        alike(g, h, pi),
        is_simple(g),
        is_simple(h),
        is_order(oh, g.atoms.len() as int),
        is_order(og, g.atoms.len() as int),
        mapped(oh, og, pi),
    ensures
        relabeled(h, oh) == relabeled(g, og),
{
    let n = g.atoms.len() as int;
    lemma_same_bonds(g, h, pi, oh, og, n);
    assert(relabeled(h, oh).atoms =~= relabeled(g, og).atoms) by {
        assert forall|k: int| 0 <= k < n implies relabeled(h, oh).atoms[k] == relabeled(g, og).atoms[k] by {
            assert(oh[k] < n);
            assert(h.atoms[oh[k] as int] == g.atoms[pi[oh[k] as int] as int]);
        }
    }
}

/// No two of the bonds stand between the same two indices.
pub open spec fn all_apart(s: Seq<Bond>) -> bool {
    forall|j: int, k: int|
        0 <= j < k < s.len() ==> (#[trigger] s[j]).begin != (#[trigger] s[k]).begin || s[j].end != s[k].end
}

proof fn lemma_upto_apart(g: Graph, order: Seq<usize>, i: int)
    requires
        g.wf(),
        g.atoms.len() <= usize::MAX,
        is_simple(g),
        is_order(order, g.atoms.len() as int),
        0 <= i,
    ensures
        all_apart(bonds_upto(g, order, i)),
        sorted_below(bonds_upto(g, order, i), i),
    decreases i,
{
    lemma_bonds_upto(g, order, i);
    if i > 0 {
        lemma_upto_apart(g, order, i - 1);
        lemma_block(g, order, i - 1, g.bonds.len() as int);
        let a = bonds_upto(g, order, i - 1);
        let b = bonds_at(g, order, i - 1, g.bonds.len() as int);
        assert forall|j: int, k: int| 0 <= j < k < (a + b).len() implies (#[trigger] (a + b)[j]).begin != (
        #[trigger] (a + b)[k]).begin || (a + b)[j].end != (a + b)[k].end by {
            if k < a.len() {
                assert((a + b)[j] == a[j] && (a + b)[k] == a[k]);
            } else if j < a.len() {
                assert((a + b)[j] == a[j] && (a + b)[k] == b[k - a.len()]);
                assert(a[j].end < i - 1);
                assert(from_bond(g, order, i - 1, g.bonds.len() as int, b[k - a.len()]));
            } else {
                assert((a + b)[j] == b[j - a.len()] && (a + b)[k] == b[k - a.len()]);
                assert(b[j - a.len()].begin > b[k - a.len()].begin);
            }
        }
    }
}

/// A graph that is put in an order is the same graph, with no two bonds between the
/// same atoms where the graph had none.
pub proof fn lemma_relabeled_alike(g: Graph, order: Seq<usize>)
    requires
        g.wf(),
        g.atoms.len() <= usize::MAX,
        is_simple(g),
        is_order(order, g.atoms.len() as int),
    ensures
        alike(g, relabeled(g, order), order),
        is_simple(relabeled(g, order)),
{
    let n = g.atoms.len() as int;
    let c = relabeled(g, order);
    crate::canon::lemma_relabeled_ordered(g, order);
    crate::relabel::lemma_relabeled_is_same_graph(g, order);
    lemma_upto_apart(g, order, n);
    lemma_identity(n);
    let id = identity(n);
    assert(crate::relabel::moved_bonds(c, id) =~= c.bonds) by {
        assert forall|j: int| 0 <= j < c.bonds.len() implies crate::relabel::moved_bonds(c, id)[j] == c.bonds[j] by {
            assert(c.bonds[j].begin < c.bonds[j].end && c.bonds[j].end < n);
        }
    }
    assert forall|j: int, k: int| 0 <= j < k < c.bonds.len() implies !(#[trigger] c.bonds[k]).joins(
        (#[trigger] c.bonds[j]).begin as int,
        c.bonds[j].end as int,
    ) by {
        assert(c.bonds[j].begin < c.bonds[j].end);
        assert(c.bonds[k].begin < c.bonds[k].end);
    }
}

} // verus!
