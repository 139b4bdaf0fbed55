use vstd::prelude::*;
use vstd::multiset::Multiset;
use vstd::relations::{sorted_by, total_ordering};
use vstd::seq_lib::{lemma_sorted_unique, to_multiset_build};
use crate::bond::Bond;
use crate::canon::moved;
use crate::fingerprint::{
    add_layer,
    fingerprint_of,
    hashes_upto,
    layer,
    mix,
    order_code,
    pair_codes,
    put_in,
};
use crate::graph::Graph;
use crate::iso::{
    alike,
    identity,
    lemma_identity,
    lemma_index,
    lemma_moved_touch,
    lemma_same_degree,
    lemma_transfer,
    total,
};

verus! {

/// The hashes `hh` of the atoms in their new order are the hashes `hg` that they had.
pub open spec fn hashes_agree(hh: Seq<u64>, hg: Seq<u64>, pi: Seq<usize>) -> bool {
    &&& hh.len() == pi.len()
    &&& hg.len() == pi.len()
    &&& forall|i: int| 0 <= i < pi.len() ==> #[trigger] hh[i] == hg[pi[i] as int]
}

pub open spec fn at_most() -> spec_fn(u64, u64) -> bool {
    |x: u64, y: u64| x <= y
}

proof fn lemma_at_most_orders()
    ensures
        total_ordering(at_most()),
{
    assert(vstd::relations::reflexive(at_most()));
    assert(vstd::relations::antisymmetric(at_most()));
    assert(vstd::relations::transitive(at_most()));
    assert(vstd::relations::strongly_connected(at_most()));
}

/// Each element is below the next.
pub open spec fn rising(s: Seq<u64>) -> bool {
    forall|i: int, j: int| 0 <= i < j < s.len() ==> s[i] < s[j]
}

proof fn lemma_push_contains(s: Seq<u64>, v: u64, y: u64)
    ensures
        s.push(v).contains(y) <==> (y == v || s.contains(y)),
{
    let r = s.push(v);
    if y == v {
        assert(r[s.len() as int] == y);
    }
    if s.contains(y) {
        let k = s.index_of(y);
        assert(r[k] == y);
    }
    if r.contains(y) {
        let k = r.index_of(y);
        if k < s.len() {
            assert(s[k] == y);
        }
    }
}

proof fn lemma_put_in_contains(s: Seq<u64>, x: u64, y: u64)
    ensures
        put_in(s, x).contains(y) <==> (y == x || s.contains(y)),
    decreases s.len(),
{
    if s.len() == 0 {
        assert(put_in(s, x) =~= s.push(x));
        lemma_push_contains(s, x, y);
    } else if s.last() <= x {
        lemma_push_contains(s, x, y);
    } else {
        let rest = s.drop_last();
        lemma_put_in_contains(rest, x, y);
        lemma_push_contains(put_in(rest, x), s.last(), y);
        lemma_push_contains(rest, s.last(), y);
        assert(rest.push(s.last()) =~= s);
    }
}

proof fn lemma_put_in(s: Seq<u64>, x: u64)
    requires
        sorted_by(s, at_most()),
    ensures
        sorted_by(put_in(s, x), at_most()),
        put_in(s, x).to_multiset() == s.to_multiset().insert(x),
        rising(s) && !s.contains(x) ==> rising(put_in(s, x)),
    decreases s.len(),
{
    let le = at_most();
    if s.len() == 0 {
        assert(put_in(s, x) =~= s.push(x));
        to_multiset_build(s, x);
    } else if s.last() <= x {
        to_multiset_build(s, x);
        let r = s.push(x);
        assert forall|i: int, j: int| 0 <= i < j < r.len() implies #[trigger] le(r[i], r[j]) by {
            if j < s.len() {
                assert(le(s[i], s[j]));
            } else {
                assert(i == s.len() - 1 || le(s[i], s[s.len() - 1]));
            }
        }
        if rising(s) && !s.contains(x) {
            assert forall|i: int, j: int| 0 <= i < j < r.len() implies r[i] < r[j] by {
                if j < s.len() {
                    assert(s[i] < s[j]);
                } else {
                    assert(s.contains(s[i]));
                    assert(le(r[i], r[j]));
                }
            }
        }
    } else {
        let rest = s.drop_last();
        assert forall|i: int, j: int| 0 <= i < j < rest.len() implies #[trigger] le(rest[i], rest[j]) by {
            assert(le(s[i], s[j]));
        }
        lemma_put_in(rest, x);
        let p = put_in(rest, x);
        let r = p.push(s.last());
        to_multiset_build(p, s.last());
        to_multiset_build(rest, s.last());
        assert(rest.push(s.last()) =~= s);
        assert(rest.to_multiset().insert(x).insert(s.last()) =~= rest.to_multiset().insert(s.last()).insert(
            x,
        ));
        assert forall|i: int| 0 <= i < p.len() implies p[i] == x || rest.contains(p[i]) by {
            assert(p.contains(p[i]));
            lemma_put_in_contains(rest, x, p[i]);
        }
        assert forall|i: int, j: int| 0 <= i < j < r.len() implies #[trigger] le(r[i], r[j]) by {
            if j < p.len() {
                assert(le(p[i], p[j]));
            } else if p[i] != x {
                let k = rest.index_of(p[i]);
                assert(le(s[k], s[s.len() - 1]));
            }
        }
        if rising(s) && !s.contains(x) {
            assert(rising(rest)) by {
                assert forall|i: int, j: int| 0 <= i < j < rest.len() implies rest[i] < rest[j] by {
                    assert(s[i] < s[j]);
                }
            }
            assert(!rest.contains(x)) by {
                if rest.contains(x) {
                    let k = rest.index_of(x);
                    assert(s[k] == x);
                }
            }
            assert forall|i: int, j: int| 0 <= i < j < r.len() implies r[i] < r[j] by {
                if j < p.len() {
                    assert(p[i] < p[j]);
                } else if p[i] != x {
                    let k = rest.index_of(p[i]);
                    assert(s[k] < s[s.len() - 1]);
                }
            }
        }
    }
}

/// The hash of each bond at atom `a` and of the surroundings of the neighbour over it.
pub open spec fn pair_code(h: Seq<u64>, a: int) -> spec_fn(Bond) -> Multiset<u64> {
    |b: Bond|
        if b.touches(a) {
            Multiset::singleton(mix(order_code(b.order), h[b.other(a)]))
        } else {
            Multiset::empty()
        }
}

proof fn lemma_pair_codes_bag(g: Graph, h: Seq<u64>, a: int, k: int)
    requires
        0 <= k <= g.bonds.len(),
    ensures
        sorted_by(pair_codes(g, h, a, k), at_most()),
        pair_codes(g, h, a, k).to_multiset() == total(g.bonds.take(k), pair_code(h, a)),
    decreases k,
{
    if k <= 0 {
        pair_codes(g, h, a, k).to_multiset_ensures();
        assert(pair_codes(g, h, a, k).to_multiset() =~= Multiset::<u64>::empty());
    } else {
        lemma_pair_codes_bag(g, h, a, k - 1);
        assert(g.bonds.take(k).drop_last() =~= g.bonds.take(k - 1));
        assert(g.bonds.take(k).last() == g.bonds[k - 1]);
        let before = pair_codes(g, h, a, k - 1);
        if g.bonds[k - 1].touches(a) {
            let x = mix(order_code(g.bonds[k - 1].order), h[g.bonds[k - 1].other(a)]);
            lemma_put_in(before, x);
            assert(before.to_multiset().insert(x) =~= before.to_multiset().add(Multiset::singleton(x)));
        } else {
            assert(before.to_multiset().add(Multiset::<u64>::empty()) =~= before.to_multiset());
        }
    }
}

proof fn lemma_pair_codes(g: Graph, h: Graph, pi: Seq<usize>, hh: Seq<u64>, hg: Seq<u64>, i: int)
    requires
        alike(g, h, pi),
        hashes_agree(hh, hg, pi),
        0 <= i < h.atoms.len(),
    ensures
        pair_codes(h, hh, i, h.bonds.len() as int) == pair_codes(g, hg, pi[i] as int, g.bonds.len() as int),
{
    let n = h.atoms.len() as int;
    let a = pi[i] as int;
    let fh = pair_code(hh, i);
    let fg = pair_code(hg, a);
    lemma_identity(n);
    assert forall|j: int| 0 <= j < h.bonds.len() implies fh(#[trigger] h.bonds[j]) == fh(
        moved(h.bonds[j], identity(n)),
    ) by {
        lemma_moved_touch(identity(n), n, h.bonds[j], i);
        assert(h.bonds[j].begin != h.bonds[j].end);
    }
    assert forall|j: int| 0 <= j < g.bonds.len() implies fh(moved(#[trigger] g.bonds[j], pi)) == fg(
        g.bonds[j],
    ) by {
        lemma_moved_touch(pi, n, g.bonds[j], i);
        assert(g.bonds[j].begin != g.bonds[j].end);
    }
    lemma_transfer(g, h, pi, fh, fg);
    lemma_pair_codes_bag(h, hh, i, h.bonds.len() as int);
    lemma_pair_codes_bag(g, hg, a, g.bonds.len() as int);
    assert(g.bonds.take(g.bonds.len() as int) =~= g.bonds);
    assert(h.bonds.take(h.bonds.len() as int) =~= h.bonds);
    lemma_at_most_orders();
    lemma_sorted_unique(
        pair_codes(h, hh, i, h.bonds.len() as int),
        pair_codes(g, hg, a, g.bonds.len() as int),
        at_most(),
    );
}

/// The hash of the surroundings of an atom does not depend on the order of the atoms.
proof fn lemma_layer(g: Graph, h: Graph, pi: Seq<usize>, r: nat)
    requires
        alike(g, h, pi),
    ensures
        hashes_agree(layer(h, r), layer(g, r), pi),
    decreases r,
{
    let n = h.atoms.len() as int;
    if r == 0 {
        assert forall|i: int| 0 <= i < n implies #[trigger] layer(h, r)[i] == layer(g, r)[pi[i] as int] by {
            lemma_same_degree(g, h, pi, i);
        }
    } else {
        lemma_layer(g, h, pi, (r - 1) as nat);
        let hh = layer(h, (r - 1) as nat);
        let hg = layer(g, (r - 1) as nat);
        assert forall|i: int| 0 <= i < n implies #[trigger] layer(h, r)[i] == layer(g, r)[pi[i] as int] by {
            lemma_pair_codes(g, h, pi, hh, hg, i);
        }
    }
}

/// `y` is one of the first `k` hashes.
pub open spec fn among(h: Seq<u64>, k: int, y: u64) -> bool {
    exists|x: int| 0 <= x < k && #[trigger] h[x] == y
}

proof fn lemma_add_layer(s: Seq<u64>, h: Seq<u64>, k: int, y: u64)
    requires
        rising(s),
        0 <= k <= h.len(),
    ensures
        rising(add_layer(s, h, k)),
        add_layer(s, h, k).contains(y) <==> (s.contains(y) || among(h, k, y)),
    decreases k,
{
    if k > 0 {
        lemma_add_layer(s, h, k - 1, y);
        let before = add_layer(s, h, k - 1);
        let v = h[k - 1];
        assert(sorted_by(before, at_most())) by {
            assert forall|i: int, j: int| 0 <= i < j < before.len() implies #[trigger] at_most()(
                before[i],
                before[j],
            ) by {
                assert(before[i] < before[j]);
            }
        }
        lemma_put_in(before, v);
        lemma_put_in_contains(before, v, y);
        if among(h, k, y) {
            let x = choose|x: int| 0 <= x < k && #[trigger] h[x] == y;
            if x < k - 1 {
                assert(among(h, k - 1, y));
            }
        }
        if among(h, k - 1, y) {
            let x = choose|x: int| 0 <= x < k - 1 && #[trigger] h[x] == y;
            assert(among(h, k, y));
        }
        if y == v {
            assert(h[k - 1] == y);
            assert(among(h, k, y));
        }
    }
}

/// Rising lists with the same elements are the same list.
proof fn lemma_rising_unique(x: Seq<u64>, y: Seq<u64>)
    requires
        rising(x),
        rising(y),
        forall|v: u64| x.contains(v) <==> y.contains(v),
    ensures
        x == y,
    decreases x.len(),
{
    if x.len() == 0 {
        if y.len() > 0 {
            assert(y.contains(y[0]));
        }
        assert(x =~= y);
    } else {
        let a = x.last();
        assert(x.contains(a)) by {
            assert(x[x.len() - 1] == a);
        }
        assert(y.contains(a));
        let b = y.last();
        assert(y.contains(b)) by {
            assert(y[y.len() - 1] == b);
        }
        let ka = y.index_of(a);
        let kb = x.index_of(b);
        if ka < y.len() - 1 {
            assert(y[ka] < y[y.len() - 1]);
            if kb < x.len() - 1 {
                assert(x[kb] < x[x.len() - 1]);
            }
            assert(false);
        }
        assert(a == b);
        let xr = x.drop_last();
        let yr = y.drop_last();
        assert(rising(xr)) by {
            assert forall|i: int, j: int| 0 <= i < j < xr.len() implies xr[i] < xr[j] by {
                assert(x[i] < x[j]);
            }
        }
        assert(rising(yr)) by {
            assert forall|i: int, j: int| 0 <= i < j < yr.len() implies yr[i] < yr[j] by {
                assert(y[i] < y[j]);
            }
        }
        assert forall|v: u64| xr.contains(v) <==> yr.contains(v) by {
            if xr.contains(v) {
                let k = xr.index_of(v);
                assert(x[k] == v && x[k] < x[x.len() - 1]);
                assert(x.contains(v));
                let z = y.index_of(v);
                assert(z < y.len() - 1);
                assert(yr[z] == v);
            }
            if yr.contains(v) {
                let k = yr.index_of(v);
                assert(y[k] == v && y[k] < y[y.len() - 1]);
                assert(y.contains(v));
                let z = x.index_of(v);
                assert(z < x.len() - 1);
                assert(xr[z] == v);
            }
        }
        lemma_rising_unique(xr, yr);
        assert(x =~= xr.push(a));
        assert(y =~= yr.push(b));
    }
}

proof fn lemma_hashes(g: Graph, h: Graph, pi: Seq<usize>, r: nat)
    requires
        alike(g, h, pi),
    ensures
        hashes_upto(h, r) == hashes_upto(g, r),
        rising(hashes_upto(g, r)),
    decreases r,
{
    let n = g.atoms.len() as int;
    let before = if r == 0 {
        Seq::<u64>::empty()
    } else {
        hashes_upto(g, (r - 1) as nat)
    };
    if r > 0 {
        lemma_hashes(g, h, pi, (r - 1) as nat);
    }
    lemma_layer(g, h, pi, r);
    let hh = layer(h, r);
    let hg = layer(g, r);
    lemma_add_layer(before, hh, n, 0);
    lemma_add_layer(before, hg, n, 0);
    assert forall|v: u64| add_layer(before, hh, n).contains(v) <==> add_layer(before, hg, n).contains(v) by {
        lemma_add_layer(before, hh, n, v);
        lemma_add_layer(before, hg, n, v);
        if among(hh, n, v) {
            let x = choose|x: int| 0 <= x < n && #[trigger] hh[x] == v;
            assert(hg[pi[x] as int] == v);
            assert(among(hg, n, v));
        }
        if among(hg, n, v) {
            let x = choose|x: int| 0 <= x < n && #[trigger] hg[x] == v;
            lemma_index(pi, n, x as usize);
            assert(hh[pi.index_of(x as usize)] == v);
            assert(among(hh, n, v));
        }
    }
    lemma_rising_unique(add_layer(before, hh, n), add_layer(before, hg, n));
}

/// The fingerprint of a molecule does not depend on the order in which its atoms and
/// bonds stand: two graphs that are the same graph have the same fingerprint.
pub proof fn lemma_fingerprint_does_not_depend_on_order(
    g: Graph,
    h: Graph,
    pi: Seq<usize>,
    radius: u32,
    size: usize,
)
    requires
        alike(g, h, pi),
    ensures
        fingerprint_of(h, radius, size) == fingerprint_of(g, radius, size),
{
    lemma_hashes(g, h, pi, radius as nat);
}

} // verus!
