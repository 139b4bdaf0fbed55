use vstd::prelude::*;
use crate::atom::Atom;
use crate::bond::Bond;
use crate::graph::Graph;
use crate::plan::ordered;
use crate::ranks::{best_of, final_ranks, settle_ranks};

verus! {

/// The neighbour of atom `t`, over its bonds among the first `k`, that is taken next:
/// the best one not yet seen.
pub open spec fn best_neighbour(g: Graph, r: Seq<usize>, seen: Seq<usize>, t: usize, k: int) -> Option<
    usize,
>
    decreases k,
{
    if k <= 0 {
        None
    } else {
        let before = best_neighbour(g, r, seen, t, k - 1);
        let b = g.bonds[k - 1];
        if b.touches(t as int) && !seen.contains(b.other(t as int) as usize) {
            best_of(r, before, b.other(t as int) as usize)
        } else {
            before
        }
    }
}

/// The best atom among the first `k` that is not yet seen.
pub open spec fn best_free(r: Seq<usize>, seen: Seq<usize>, k: int) -> Option<usize>
    decreases k,
{
    if k <= 0 {
        None
    } else {
        let before = best_free(r, seen, k - 1);
        if !seen.contains((k - 1) as usize) {
            best_of(r, before, (k - 1) as usize)
        } else {
            before
        }
    }
}

/// A walk through a graph: the atoms in the order in which they were reached, and the
/// path from the start of the current part to the atom where the walk stands.
pub ghost struct Walk {
    pub order: Seq<usize>,
    pub path: Seq<usize>,
}

/// The order in which a depth-first walk reaches the atoms, continued from `w`: from
/// the atom where it stands it goes on to the best neighbour not yet seen; where there
/// is none it steps back; where the path is used up it starts again at the best atom
/// not yet seen.
pub open spec fn walk_from(g: Graph, r: Seq<usize>, w: Walk) -> Seq<usize>
    decreases 2 * (g.atoms.len() - w.order.len()) + w.path.len(),
{
    if w.order.len() >= g.atoms.len() {
        w.order
    } else if w.path.len() > 0 {
        match best_neighbour(g, r, w.order, w.path.last(), g.bonds.len() as int) {
            Some(v) => walk_from(g, r, Walk { order: w.order.push(v), path: w.path.push(v) }),
            None => walk_from(g, r, Walk { order: w.order, path: w.path.drop_last() }),
        }
    } else {
        match best_free(r, w.order, g.atoms.len() as int) {
            Some(v) => walk_from(g, r, Walk { order: w.order.push(v), path: seq![v] }),
            None => w.order,
        }
    }
}

/// The order in which the atoms of a graph are written: that of a depth-first walk led
/// by the ranks of the atoms.
pub open spec fn writing_order(g: Graph) -> Seq<usize> {
    walk_from(g, final_ranks(g), Walk { order: Seq::empty(), path: Seq::empty() })
}

/// Every atom of a graph of `n` atoms stands in `order` once.
pub open spec fn is_order(order: Seq<usize>, n: int) -> bool {
    &&& order.len() == n
    &&& order.no_duplicates()
    &&& forall|i: int| 0 <= i < n ==> #[trigger] order[i] < n
    &&& forall|x: usize| x < n ==> #[trigger] order.contains(x)
}

/// Bond `b` between the new indices of its atoms, from the lower to the higher.
pub open spec fn moved(b: Bond, order: Seq<usize>) -> Bond {
    let p = order.index_of(b.begin);
    let q = order.index_of(b.end);
    Bond {
        begin: if p < q {
            p as usize
        } else {
            q as usize
        },
        end: if p < q {
            q as usize
        } else {
            p as usize
        },
        ..b
    }
}

/// `s`, whose bonds stand in falling order of their lower atom, with `b` put in its
/// place, behind those that start at the same atom.
pub open spec fn put_bond(s: Seq<Bond>, b: Bond) -> Seq<Bond>
    decreases s.len(),
{
    if s.len() == 0 {
        seq![b]
    } else if s.last().begin >= b.begin {
        s.push(b)
    } else {
        put_bond(s.drop_last(), b).push(s.last())
    }
}

/// The bonds among the first `k` that end at the new index `i`, in falling order of the
/// index at which they start.
pub open spec fn bonds_at(g: Graph, order: Seq<usize>, i: int, k: int) -> Seq<Bond>
    decreases k,
{
    if k <= 0 {
        Seq::empty()
    } else if moved(g.bonds[k - 1], order).end == i {
        put_bond(bonds_at(g, order, i, k - 1), moved(g.bonds[k - 1], order))
    } else {
        bonds_at(g, order, i, k - 1)
    }
}

pub open spec fn bonds_upto(g: Graph, order: Seq<usize>, i: int) -> Seq<Bond>
    decreases i,
{
    if i <= 0 {
        Seq::empty()
    } else {
        bonds_upto(g, order, i - 1) + bonds_at(g, order, i - 1, g.bonds.len() as int)
    }
}

/// The graph with its atoms in the given order, and its bonds in the order of their
/// higher atom.
pub open spec fn relabeled(g: Graph, order: Seq<usize>) -> Graph {
    Graph {
        atoms: Seq::new(g.atoms.len(), |i: int| g.atoms[order[i] as int]),
        bonds: bonds_upto(g, order, g.atoms.len() as int),
    }
}

/// The graph in the order in which it is written.
pub open spec fn canonical(g: Graph) -> Graph {
    relabeled(g, writing_order(g))
}

spec fn count_true(v: Seq<bool>, k: int) -> int
    decreases k,
{
    if k <= 0 {
        0
    } else {
        count_true(v, k - 1) + if v[k - 1] {
            1int
        } else {
            0int
        }
    }
}

proof fn lemma_count_set(v: Seq<bool>, x: int, k: int)
    requires
        0 <= x < v.len(),
        0 <= k <= v.len(),
        !v[x],
    ensures
        count_true(v.update(x, true), k) == count_true(v, k) + if x < k {
            1int
        } else {
            0int
        },
    decreases k,
{
    if k > 0 {
        lemma_count_set(v, x, k - 1);
    }
}

proof fn lemma_count_full(v: Seq<bool>, k: int)
    requires
        0 <= k <= v.len(),
    ensures
        0 <= count_true(v, k) <= k,
        count_true(v, k) == k <==> forall|x: int| 0 <= x < k ==> v[x],
    decreases k,
{
    if k > 0 {
        lemma_count_full(v, k - 1);
    }
}

fn pick(r: &Vec<usize>, before: Option<usize>, x: usize) -> (o: Option<usize>)
    requires
        x < r.len(),
        before matches Some(p) ==> p < r.len(),
    ensures
        o == best_of(r@, before, x),
        o matches Some(p) && p < r.len(),
{
    match before {
        Some(p) => if r[x] < r[p] || (r[x] == r[p] && x < p) {
            Some(x)
        } else {
            Some(p)
        },
        None => Some(x),
    }
}

fn next_neighbour(t: usize, bonds: &Vec<Bond>, r: &Vec<usize>, seen: &Vec<bool>, Ghost(g): Ghost<Graph>, Ghost(
    order,
): Ghost<Seq<usize>>) -> (o: Option<usize>)
    requires
        g.bonds == bonds@,
        g.wf(),
        r.len() == g.atoms.len(),
        seen.len() == g.atoms.len(),
        forall|x: int| 0 <= x < seen.len() ==> #[trigger] seen[x] == order.contains(x as usize),
    ensures
        o == best_neighbour(g, r@, order, t, bonds.len() as int),
        o matches Some(v) ==> v < seen.len() && !seen[v as int],
{
    let mut best: Option<usize> = None;
    let mut j: usize = 0;
    while j < bonds.len()
        invariant
            j <= bonds.len(),
            g.bonds == bonds@,
            g.wf(),
            r.len() == g.atoms.len(),
            seen.len() == g.atoms.len(),
            forall|x: int| 0 <= x < seen.len() ==> #[trigger] seen[x] == order.contains(x as usize),
            best == best_neighbour(g, r@, order, t, j as int),
            best matches Some(v) ==> v < seen.len() && !seen[v as int],
        decreases bonds.len() - j,
    {
        let b = bonds[j];
        assert(g.bonds[j as int].begin < seen.len() && g.bonds[j as int].end < seen.len());
        if b.begin == t || b.end == t {
            let u = if b.begin == t {
                b.end
            } else {
                b.begin
            };
            if !seen[u] {
                best = pick(r, best, u);
            }
        }
        j += 1;
    }
    best
}

fn next_free(r: &Vec<usize>, seen: &Vec<bool>, Ghost(order): Ghost<Seq<usize>>) -> (o: Option<usize>)
    requires
        r.len() == seen.len(),
        forall|x: int| 0 <= x < seen.len() ==> #[trigger] seen[x] == order.contains(x as usize),
    ensures
        o == best_free(r@, order, seen.len() as int),
        o matches Some(v) ==> v < seen.len() && !seen[v as int],
        o is None ==> forall|x: int| 0 <= x < seen.len() ==> seen[x],
{
    let mut best: Option<usize> = None;
    let mut k: usize = 0;
    while k < seen.len()
        invariant
            k <= seen.len(),
            r.len() == seen.len(),
            forall|x: int| 0 <= x < seen.len() ==> #[trigger] seen[x] == order.contains(x as usize),
            best == best_free(r@, order, k as int),
            best matches Some(v) ==> v < seen.len() && !seen[v as int],
            best is None ==> forall|x: int| 0 <= x < k ==> seen[x],
        decreases seen.len() - k,
    {
        if !seen[k] {
            best = pick(r, best, k);
        }
        k += 1;
    }
    best
}

/// The order in which the atoms of a graph are written.
pub(crate) fn order_atoms(atoms: &Vec<Atom>, bonds: &Vec<Bond>) -> (order: Vec<usize>)
    requires
        (Graph { atoms: atoms@, bonds: bonds@ }).wf(),
    ensures
        order@ == writing_order(Graph { atoms: atoms@, bonds: bonds@ }),
        is_order(order@, atoms.len() as int),
{
    let ghost g = Graph { atoms: atoms@, bonds: bonds@ };
    let n = atoms.len();
    let r = settle_ranks(atoms, bonds);
    let mut seen: Vec<bool> = Vec::new();
    let mut i: usize = 0;
    while i < n
        invariant
            i <= n,
            seen.len() == i,
            forall|x: int| 0 <= x < i ==> !seen[x],
        decreases n - i,
    {
        seen.push(false);
        i += 1;
    }
    proof {
        lemma_count_none(seen@, n as int);
    }
    let mut order: Vec<usize> = Vec::new();
    let mut path: Vec<usize> = Vec::new();
    while order.len() < n
        invariant
            n == atoms.len(),
            g == (Graph { atoms: atoms@, bonds: bonds@ }),
            g.wf(),
            r@ == final_ranks(g),
            r.len() == n,
            seen.len() == n,
            order.len() <= n,
            order@.no_duplicates(),
            forall|k: int| 0 <= k < order.len() ==> #[trigger] order[k] < n,
            forall|x: int| 0 <= x < n ==> #[trigger] seen[x] == order@.contains(x as usize),
            count_true(seen@, n as int) == order.len(),
            writing_order(g) == walk_from(g, r@, Walk { order: order@, path: path@ }),
        decreases 2 * (n - order.len()) + path.len(),
    {
        let ghost old_order = order@;
        let ghost old_seen = seen@;
        let next = if path.len() > 0 {
            next_neighbour(path[path.len() - 1], bonds, &r, &seen, Ghost(g), Ghost(order@))
        } else {
            next_free(&r, &seen, Ghost(order@))
        };
        match next {
            Some(v) => {
                if path.len() == 0 {
                    path = Vec::new();
                    assert(path@ =~= Seq::<usize>::empty());
                }
                let ghost old_path = path@;
                order.push(v);
                path.push(v);
                seen.set(v, true);
                proof {
                    lemma_count_set(old_seen, v as int, n as int);
                    assert(old_path.len() == 0 ==> path@ =~= seq![v]);
                    assert forall|x: int| 0 <= x < n implies #[trigger] seen[x] == order@.contains(
                        x as usize,
                    ) by {
                        if x == v {
                            assert(order@[order.len() - 1] == v);
                        } else if old_order.contains(x as usize) {
                            let k = old_order.index_of(x as usize);
                            assert(order@[k] == x);
                        } else if order@.contains(x as usize) {
                            let k = order@.index_of(x as usize);
                            assert(k < old_order.len());
                            assert(old_order[k] == x);
                        }
                    }
                    assert(order@.no_duplicates()) by {
                        assert forall|a: int, b: int|
                            0 <= a < order.len() && 0 <= b < order.len() && a != b implies order[a]
                            != order[b] by {
                            if a == order.len() - 1 {
                                assert(old_order[b] == order[b]);
                            } else if b == order.len() - 1 {
                                assert(old_order[a] == order[a]);
                            } else {
                                assert(old_order[a] == order[a] && old_order[b] == order[b]);
                            }
                        }
                    }
                }
            },
            None => {
                if path.len() > 0 {
                    path.pop();
                } else {
                    proof {
                        lemma_count_full(seen@, n as int);
                    }
                    return order;
                }
            },
        }
    }
    proof {
        lemma_count_full(seen@, n as int);
        assert forall|x: usize| x < n implies #[trigger] order@.contains(x) by {
            assert(seen[x as int]);
        }
    }
    order
}

proof fn lemma_count_none(v: Seq<bool>, k: int)
    requires
        0 <= k <= v.len(),
        forall|x: int| 0 <= x < k ==> !v[x],
    ensures
        count_true(v, k) == 0,
    decreases k,
{
    if k > 0 {
        lemma_count_none(v, k - 1);
    }
}

/// The bonds run upward and stand in the order of their higher atom, which is below
/// `i` for each.
pub open spec fn sorted_below(bonds: Seq<Bond>, i: int) -> bool {
    &&& forall|j: int|
        0 <= j < bonds.len() ==> (#[trigger] bonds[j]).begin < bonds[j].end && bonds[j].end < i
    &&& forall|j: int, k: int|
        0 <= j < k < bonds.len() ==> (#[trigger] bonds[j]).end <= (#[trigger] bonds[k]).end
}

fn positions(order: &Vec<usize>) -> (pos: Vec<usize>)
    requires
        is_order(order@, order.len() as int),
    ensures
        pos.len() == order.len(),
        forall|x: int| 0 <= x < pos.len() ==> #[trigger] pos[x] == order@.index_of(x as usize),
        forall|x: int| 0 <= x < pos.len() ==> #[trigger] pos[x] < pos.len() && order[pos[x] as int] == x,
{
    let n = order.len();
    let mut pos: Vec<usize> = Vec::new();
    let mut i: usize = 0;
    while i < n
        invariant
            i <= n,
            pos.len() == i,
        decreases n - i,
    {
        pos.push(0);
        i += 1;
    }
    let mut i: usize = 0;
    while i < n
        invariant
            i <= n,
            n == order.len(),
            pos.len() == n,
            is_order(order@, n as int),
            forall|k: int| 0 <= k < i ==> #[trigger] pos[order[k] as int] == k,
        decreases n - i,
    {
        let ghost before = pos@;
        pos.set(order[i], i);
        proof {
            assert forall|k: int| 0 <= k < i + 1 implies #[trigger] pos[order[k] as int] == k by {
                if k < i {
                    assert(order[k] != order[i as int]);
                    assert(before[order[k] as int] == k);
                }
            }
        }
        i += 1;
    }
    proof {
        assert forall|x: int| 0 <= x < n implies #[trigger] pos[x] == order@.index_of(x as usize)
            && pos[x] < n && order[pos[x] as int] == x by {
            assert(order@.contains(x as usize));
            let k = order@.index_of(x as usize);
            assert(pos[order[k] as int] == k);
        }
    }
    pos
}

fn move_bond(b: &Bond, pos: &Vec<usize>, Ghost(order): Ghost<Seq<usize>>) -> (r: Bond)
    requires
        b.begin < pos.len(),
        b.end < pos.len(),
        b.begin != b.end,
        is_order(order, pos.len() as int),
        forall|x: int| 0 <= x < pos.len() ==> #[trigger] pos[x] == order.index_of(x as usize),
        forall|x: int| 0 <= x < pos.len() ==> #[trigger] pos[x] < pos.len() && order[pos[x] as int] == x,
    ensures
        r == moved(*b, order),
        r.begin < r.end < pos.len(),
{
    let p = pos[b.begin];
    let q = pos[b.end];
    assert(order[p as int] == b.begin && order[q as int] == b.end);
    if p < q {
        Bond { begin: p, end: q, order: b.order, in_ring: b.in_ring, stereo: b.stereo }
    } else {
        Bond { begin: q, end: p, order: b.order, in_ring: b.in_ring, stereo: b.stereo }
    }
}

proof fn lemma_put_bond(s: Seq<Bond>, b: Bond, at: int)
    requires
        0 <= at <= s.len(),
        forall|i: int| at <= i < s.len() ==> s[i].begin < b.begin,
        at > 0 ==> s[at - 1].begin >= b.begin,
    ensures
        put_bond(s, b) == s.insert(at, b),
    decreases s.len(),
{
    if s.len() == 0 {
        assert(s.insert(at, b) =~= seq![b]);
    } else if s.last().begin >= b.begin {
        assert(at == s.len());
        assert(s.insert(at, b) =~= s.push(b));
    } else {
        lemma_put_bond(s.drop_last(), b, at);
        assert(s.insert(at, b) =~= s.drop_last().insert(at, b).push(s.last()));
    }
}

fn bonds_ending_at(
    i: usize,
    bonds: &Vec<Bond>,
    pos: &Vec<usize>,
    out: &mut Vec<Bond>,
    Ghost(g): Ghost<Graph>,
    Ghost(order): Ghost<Seq<usize>>,
)
    requires
        g.bonds == bonds@,
        g.wf(),
        pos.len() == g.atoms.len(),
        i < pos.len(),
        is_order(order, pos.len() as int),
        forall|x: int| 0 <= x < pos.len() ==> #[trigger] pos[x] == order.index_of(x as usize),
        forall|x: int| 0 <= x < pos.len() ==> #[trigger] pos[x] < pos.len() && order[pos[x] as int] == x,
        sorted_below(old(out)@, i as int),
    ensures
        final(out)@ == old(out)@ + bonds_at(g, order, i as int, bonds.len() as int),
        sorted_below(final(out)@, i + 1),
{
    let m = bonds.len();
    let mut block: Vec<Bond> = Vec::new();
    let mut k: usize = 0;
    while k < m
        invariant
            k <= m,
            m == bonds.len(),
            g.bonds == bonds@,
            g.wf(),
            pos.len() == g.atoms.len(),
            is_order(order, pos.len() as int),
            forall|x: int| 0 <= x < pos.len() ==> #[trigger] pos[x] == order.index_of(x as usize),
            forall|x: int|
                0 <= x < pos.len() ==> #[trigger] pos[x] < pos.len() && order[pos[x] as int] == x,
            block@ == bonds_at(g, order, i as int, k as int),
            forall|x: int| 0 <= x < block.len() ==> (#[trigger] block[x]).begin < block[x].end && block[x].end == i,
        decreases m - k,
    {
        assert(g.bonds[k as int].begin < pos.len());
        let b = move_bond(&bonds[k], pos, Ghost(order));
        if b.end == i {
            let mut at: usize = block.len();
            while at > 0 && block[at - 1].begin < b.begin
                invariant
                    at <= block.len(),
                    forall|x: int| at <= x < block.len() ==> block[x].begin < b.begin,
                decreases at,
            {
                at -= 1;
            }
            proof {
                lemma_put_bond(block@, b, at as int);
            }
            block.insert(at, b);
        }
        k += 1;
    }
    let mut x: usize = 0;
    while x < block.len()
        invariant
            x <= block.len(),
            out@ == old(out)@ + block@.take(x as int),
            sorted_below(old(out)@, i as int),
            forall|y: int| 0 <= y < block.len() ==> (#[trigger] block[y]).begin < block[y].end && block[y].end == i,
            sorted_below(out@, i + 1),
        decreases block.len() - x,
    {
        let ghost before = out@;
        out.push(block[x]);
        proof {
            assert(out@ =~= old(out)@ + block@.take(x + 1));
            assert forall|a: int, b: int| 0 <= a < b < out.len() implies (#[trigger] out[a]).end <= (
            #[trigger] out[b]).end by {
                if b == out.len() - 1 {
                    assert(before[a].end < i + 1);
                } else {
                    assert(before[a].end <= before[b].end);
                }
            }
        }
        x += 1;
    }
    assert(block@.take(block.len() as int) =~= block@);
}

/// Puts the atoms of a graph in the given order, and its bonds in the order of their
/// higher atom.
pub(crate) fn relabel(atoms: &Vec<Atom>, bonds: &Vec<Bond>, order: &Vec<usize>) -> (r: (Vec<Atom>, Vec<Bond>))
    requires
        (Graph { atoms: atoms@, bonds: bonds@ }).wf(),
        is_order(order@, atoms.len() as int),
    ensures
        (Graph { atoms: r.0@, bonds: r.1@ }) == relabeled(Graph { atoms: atoms@, bonds: bonds@ }, order@),
        ordered(Graph { atoms: r.0@, bonds: r.1@ }),
{
    let ghost g = Graph { atoms: atoms@, bonds: bonds@ };
    let n = atoms.len();
    let pos = positions(order);
    let mut atoms2: Vec<Atom> = Vec::new();
    let mut i: usize = 0;
    while i < n
        invariant
            i <= n,
            n == atoms.len(),
            g == (Graph { atoms: atoms@, bonds: bonds@ }),
            g.wf(),
            is_order(order@, n as int),
            atoms2.len() == i,
            forall|k: int| 0 <= k < i ==> #[trigger] atoms2[k] == atoms[order[k] as int],
        decreases n - i,
    {
        assert(order[i as int] < n);
        atoms2.push(atoms[order[i]]);
        i += 1;
    }
    let mut bonds2: Vec<Bond> = Vec::new();
    let mut i: usize = 0;
    while i < n
        invariant
            i <= n,
            n == atoms.len(),
            g == (Graph { atoms: atoms@, bonds: bonds@ }),
            g.wf(),
            is_order(order@, n as int),
            pos.len() == n,
            forall|x: int| 0 <= x < pos.len() ==> #[trigger] pos[x] == order@.index_of(x as usize),
            forall|x: int|
                0 <= x < pos.len() ==> #[trigger] pos[x] < pos.len() && order[pos[x] as int] == x,
            bonds2@ == bonds_upto(g, order@, i as int),
            sorted_below(bonds2@, i as int),
        decreases n - i,
    {
        bonds_ending_at(i, bonds, &pos, &mut bonds2, Ghost(g), Ghost(order@));
        i += 1;
    }
    proof {
        assert(atoms2@ =~= relabeled(g, order@).atoms);
        let h = Graph { atoms: atoms2@, bonds: bonds2@ };
        assert forall|k: int| 0 <= k < h.atoms.len() implies crate::atom::atom_ok(#[trigger] h.atoms[k]) by {
            assert(crate::atom::atom_ok(g.atoms[order[k] as int]));
        }
    }
    (atoms2, bonds2)
}

/// For each atom below `n`, whether it stands in `order`.
spec fn marks(order: Seq<usize>, n: int) -> Seq<bool> {
    Seq::new(n as nat, |x: int| order.contains(x as usize))
}

proof fn lemma_marks_count(order: Seq<usize>, n: int)
    requires
        0 <= n <= usize::MAX,
        order.no_duplicates(),
        forall|k: int| 0 <= k < order.len() ==> #[trigger] order[k] < n,
    ensures
        count_true(marks(order, n), n) == order.len(),
    decreases order.len(),
{
    if order.len() == 0 {
        lemma_count_none(marks(order, n), n);
    } else {
        let rest = order.drop_last();
        let v = order.last();
        lemma_marks_count(rest, n);
        assert(!rest.contains(v)) by {
            if rest.contains(v) {
                let k = rest.index_of(v);
                assert(order[k] == v && order[order.len() - 1] == v);
            }
        }
        assert(marks(order, n) =~= marks(rest, n).update(v as int, true)) by {
            assert forall|x: int| 0 <= x < n implies marks(order, n)[x] == marks(rest, n).update(
                v as int,
                true,
            )[x] by {
                if x == v {
                    assert(order[order.len() - 1] == v);
                } else if rest.contains(x as usize) {
                    let k = rest.index_of(x as usize);
                    assert(order[k] == x);
                } else if order.contains(x as usize) {
                    let k = order.index_of(x as usize);
                    assert(rest[k] == x);
                }
            }
        }
        lemma_count_set(marks(rest, n), v as int, n);
    }
}

proof fn lemma_best_neighbour(g: Graph, r: Seq<usize>, seen: Seq<usize>, t: usize, k: int)
    requires
        g.wf(),
        0 <= k <= g.bonds.len(),
    ensures
        best_neighbour(g, r, seen, t, k) matches Some(v) ==> v < g.atoms.len() && !seen.contains(v),
    decreases k,
{
    if k > 0 {
        lemma_best_neighbour(g, r, seen, t, k - 1);
        assert(g.bonds[k - 1].begin < g.atoms.len() && g.bonds[k - 1].end < g.atoms.len());
    }
}

proof fn lemma_best_free(r: Seq<usize>, seen: Seq<usize>, k: int)
    requires
        0 <= k <= usize::MAX,
    ensures
        best_free(r, seen, k) matches Some(v) ==> v < k && !seen.contains(v),
        best_free(r, seen, k) is None ==> forall|x: usize| x < k ==> #[trigger] seen.contains(x),
    decreases k,
{
    if k > 0 {
        lemma_best_free(r, seen, k - 1);
    }
}

proof fn lemma_push_new(order: Seq<usize>, v: usize)
    requires
        order.no_duplicates(),
        !order.contains(v),
    ensures
        order.push(v).no_duplicates(),
{
    let more = order.push(v);
    assert forall|a: int, b: int| 0 <= a < more.len() && 0 <= b < more.len() && a != b implies more[a]
        != more[b] by {
        if a < order.len() && b < order.len() {
            assert(order[a] != order[b]);
        } else if a < order.len() {
            assert(order[a] == more[a]);
        } else {
            assert(order[b] == more[b]);
        }
    }
}

proof fn lemma_walk(g: Graph, r: Seq<usize>, w: Walk)
    requires
        g.wf(),
        g.atoms.len() <= usize::MAX,
        w.order.no_duplicates(),
        forall|k: int| 0 <= k < w.order.len() ==> #[trigger] w.order[k] < g.atoms.len(),
    ensures
        is_order(walk_from(g, r, w), g.atoms.len() as int),
    decreases 2 * (g.atoms.len() - w.order.len()) + w.path.len(),
{
    let n = g.atoms.len() as int;
    lemma_marks_count(w.order, n);
    lemma_count_full(marks(w.order, n), n);
    if w.order.len() >= n {
        assert forall|x: usize| x < n implies #[trigger] w.order.contains(x) by {
            assert(marks(w.order, n)[x as int]);
        }
    } else if w.path.len() > 0 {
        lemma_best_neighbour(g, r, w.order, w.path.last(), g.bonds.len() as int);
        match best_neighbour(g, r, w.order, w.path.last(), g.bonds.len() as int) {
            Some(v) => {
                lemma_push_new(w.order, v);
                lemma_walk(g, r, Walk { order: w.order.push(v), path: w.path.push(v) });
            },
            None => {
                lemma_walk(g, r, Walk { order: w.order, path: w.path.drop_last() });
            },
        }
    } else {
        lemma_best_free(r, w.order, n);
        match best_free(r, w.order, n) {
            Some(v) => {
                lemma_push_new(w.order, v);
                lemma_walk(g, r, Walk { order: w.order.push(v), path: seq![v] });
            },
            None => {
                assert forall|x: int| 0 <= x < n implies marks(w.order, n)[x] by {
                    assert(w.order.contains(x as usize));
                }
                assert(false);
            },
        }
    }
}

/// Every atom of a graph stands in its writing order once.
pub proof fn lemma_writing_order(g: Graph)
    requires
        g.wf(),
        g.atoms.len() <= usize::MAX,
    ensures
        is_order(writing_order(g), g.atoms.len() as int),
{
    lemma_walk(g, final_ranks(g), Walk { order: Seq::empty(), path: Seq::empty() });
}

proof fn lemma_moved(g: Graph, order: Seq<usize>, j: int)
    requires
        g.wf(),
        g.atoms.len() <= usize::MAX,
        is_order(order, g.atoms.len() as int),
        0 <= j < g.bonds.len(),
    ensures
        moved(g.bonds[j], order).begin < moved(g.bonds[j], order).end < g.atoms.len(),
{
    let b = g.bonds[j];
    assert(b.begin < g.atoms.len() && b.end < g.atoms.len() && b.begin != b.end);
    assert(order.contains(b.begin) && order.contains(b.end));
    let p = order.index_of(b.begin);
    let q = order.index_of(b.end);
    assert(order[p] == b.begin && order[q] == b.end);
}

proof fn lemma_put_bond_holds(s: Seq<Bond>, b: Bond, i: int)
    requires
        forall|x: int| 0 <= x < s.len() ==> (#[trigger] s[x]).begin < s[x].end && s[x].end == i,
        b.begin < b.end && b.end == i,
    ensures
        forall|x: int|
            0 <= x < put_bond(s, b).len() ==> (#[trigger] put_bond(s, b)[x]).begin < put_bond(s, b)[x].end
                && put_bond(s, b)[x].end == i,
    decreases s.len(),
{
    if s.len() > 0 && s.last().begin < b.begin {
        let rest = s.drop_last();
        assert forall|x: int| 0 <= x < rest.len() implies (#[trigger] rest[x]).begin < rest[x].end
            && rest[x].end == i by {
            assert(rest[x] == s[x]);
        }
        lemma_put_bond_holds(rest, b, i);
    }
}

proof fn lemma_bonds_at(g: Graph, order: Seq<usize>, i: int, k: int)
    requires
        g.wf(),
        g.atoms.len() <= usize::MAX,
        is_order(order, g.atoms.len() as int),
        0 <= k <= g.bonds.len(),
    ensures
        forall|x: int|
            0 <= x < bonds_at(g, order, i, k).len() ==> (#[trigger] bonds_at(g, order, i, k)[x]).begin
                < bonds_at(g, order, i, k)[x].end && bonds_at(g, order, i, k)[x].end == i,
    decreases k,
{
    if k > 0 {
        lemma_bonds_at(g, order, i, k - 1);
        lemma_moved(g, order, k - 1);
        if moved(g.bonds[k - 1], order).end == i {
            lemma_put_bond_holds(bonds_at(g, order, i, k - 1), moved(g.bonds[k - 1], order), i);
        }
    }
}

pub proof fn lemma_bonds_upto(g: Graph, order: Seq<usize>, i: int)
    requires
        g.wf(),
        g.atoms.len() <= usize::MAX,
        is_order(order, g.atoms.len() as int),
        0 <= i,
    ensures
        sorted_below(bonds_upto(g, order, i), i),
    decreases i,
{
    if i > 0 {
        lemma_bonds_upto(g, order, i - 1);
        lemma_bonds_at(g, order, i - 1, g.bonds.len() as int);
        let a = bonds_upto(g, order, i - 1);
        let b = bonds_at(g, order, i - 1, g.bonds.len() as int);
        assert forall|j: int| 0 <= j < (a + b).len() implies (#[trigger] (a + b)[j]).begin < (a + b)[j].end
            && (a + b)[j].end < i by {
            if j < a.len() {
                assert((a + b)[j] == a[j]);
            } else {
                assert((a + b)[j] == b[j - a.len()]);
            }
        }
        assert forall|j: int, k: int| 0 <= j < k < (a + b).len() implies (#[trigger] (a + b)[j]).end <= (
        #[trigger] (a + b)[k]).end by {
            if k < a.len() {
                assert((a + b)[j] == a[j] && (a + b)[k] == a[k]);
            } else if j < a.len() {
                assert((a + b)[j] == a[j] && (a + b)[k] == b[k - a.len()]);
            } else {
                assert((a + b)[j] == b[j - a.len()] && (a + b)[k] == b[k - a.len()]);
            }
        }
    }
}

/// A graph whose atoms are put in an order is in writing order.
pub proof fn lemma_relabeled_ordered(g: Graph, order: Seq<usize>)
    requires
        g.wf(),
        g.atoms.len() <= usize::MAX,
        is_order(order, g.atoms.len() as int),
    ensures
        ordered(relabeled(g, order)),
{
    let h = relabeled(g, order);
    lemma_bonds_upto(g, order, g.atoms.len() as int);
    assert forall|k: int| 0 <= k < h.atoms.len() implies crate::atom::atom_ok(#[trigger] h.atoms[k]) by {
        assert(crate::atom::atom_ok(g.atoms[order[k] as int]));
    }
}

} // verus!
