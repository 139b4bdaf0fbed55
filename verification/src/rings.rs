use vstd::prelude::*;
use crate::bond::Bond;
use crate::graph::Graph;

verus! {

/// Bond `j` is not the bond `skip`, and one of its ends is atom `v`.
pub open spec fn link_to(g: Graph, skip: int, j: int, v: int) -> bool {
    0 <= j < g.bonds.len() && j != skip && g.bonds[j].touches(v)
}

/// Atom `v` can be reached from atom `src` over at most `k` bonds, none of them the
/// bond `skip`.
pub open spec fn within(g: Graph, skip: int, src: int, k: nat, v: int) -> bool
    decreases k,
{
    if k == 0 {
        v == src
    } else {
        within(g, skip, src, (k - 1) as nat, v) || exists|j: int| #[trigger]
            link_to(g, skip, j, v) && within(g, skip, src, (k - 1) as nat, g.bonds[j].other(v))
    }
}

/// The least number of bonds from `k` up to the number of atoms over which `v` can be
/// reached from `src` without the bond `skip`.
pub open spec fn dist_from(g: Graph, skip: int, src: int, v: int, k: nat) -> Option<nat>
    decreases g.atoms.len() + 1 - k,
{
    if k > g.atoms.len() {
        None
    } else if within(g, skip, src, k, v) {
        Some(k)
    } else {
        dist_from(g, skip, src, v, k + 1)
    }
}

/// The length of a shortest path from `src` to `v` that does not use the bond `skip`,
/// if there is a path.
pub open spec fn dist(g: Graph, skip: int, src: int, v: int) -> Option<nat> {
    dist_from(g, skip, src, v, 0)
}

/// A bond lies on a ring when its two atoms are joined by a path that does not use it.
pub open spec fn bond_in_ring(g: Graph, j: int) -> bool {
    dist(g, j, g.bonds[j].begin as int, g.bonds[j].end as int) is Some
}

/// An atom lies on a ring when one of its bonds does.
pub open spec fn atom_in_ring(g: Graph, a: int) -> bool {
    exists|j: int| 0 <= j < g.bonds.len() && #[trigger] g.bonds[j].touches(a) && bond_in_ring(g, j)
}

/// Each of the paths, with atom `v` put before it.
pub open spec fn with_head(v: usize, ps: Seq<Seq<usize>>) -> Seq<Seq<usize>> {
    Seq::new(ps.len(), |i: int| seq![v] + ps[i])
}

/// All shortest paths from `v`, which is `d` bonds away from `src`, back to `src`, none
/// of them over the bond `skip`: in the order of the bonds over which they leave `v`,
/// and then of those over which they go on.
pub open spec fn paths_back(g: Graph, skip: int, src: int, v: int, d: nat) -> Seq<Seq<usize>>
    decreases d, g.bonds.len() + 1,
{
    if d == 0 {
        seq![seq![v as usize]]
    } else {
        paths_via(g, skip, src, v, d, g.bonds.len() as int)
    }
}

/// The shortest paths from `v` back to `src` that leave `v` over one of the first `k`
/// bonds.
pub open spec fn paths_via(g: Graph, skip: int, src: int, v: int, d: nat, k: int) -> Seq<Seq<usize>>
    decreases d, k,
{
    if k <= 0 || d == 0 || k > g.bonds.len() {
        Seq::empty()
    } else {
        paths_via(g, skip, src, v, d, k - 1) + if link_to(g, skip, k - 1, v) && within(
            g,
            skip,
            src,
            (d - 1) as nat,
            g.bonds[k - 1].other(v),
        ) {
            with_head(v as usize, paths_back(g, skip, src, g.bonds[k - 1].other(v), (d - 1) as nat))
        } else {
            Seq::empty()
        }
    }
}

/// The smallest rings through bond `j`, each as the atoms on it in walking order, from
/// the bond's end to its beginning. None where the bond lies on no ring.
pub open spec fn rings_of(g: Graph, j: int) -> Seq<Seq<usize>> {
    let b = g.bonds[j];
    match dist(g, j, b.begin as int, b.end as int) {
        Some(d) => paths_back(g, j, b.begin as int, b.end as int, d),
        None => Seq::empty(),
    }
}

/// Two rings pass through the same atoms.
pub open spec fn same_ring(r1: Seq<usize>, r2: Seq<usize>) -> bool {
    &&& r1.len() == r2.len()
    &&& forall|i: int| 0 <= i < r1.len() ==> r2.contains(#[trigger] r1[i])
    &&& forall|i: int| 0 <= i < r2.len() ==> r1.contains(#[trigger] r2[i])
}

/// Whether one of `rings` passes through the same atoms as `r`.
pub open spec fn listed(rings: Seq<Seq<usize>>, r: Seq<usize>) -> bool {
    exists|k: int| 0 <= k < rings.len() && same_ring(r, #[trigger] rings[k])
}

/// `list` with the first `i` of `rs` added, each where the list does not yet hold a ring
/// through the same atoms.
pub open spec fn add_rings(list: Seq<Seq<usize>>, rs: Seq<Seq<usize>>, i: int) -> Seq<Seq<usize>>
    decreases i,
{
    if i <= 0 {
        list
    } else {
        let before = add_rings(list, rs, i - 1);
        if listed(before, rs[i - 1]) {
            before
        } else {
            before.push(rs[i - 1])
        }
    }
}

/// The smallest rings through the first `k` bonds, each ring once, in the order of the
/// first bond that lies on it.
pub open spec fn rings_upto(g: Graph, k: int) -> Seq<Seq<usize>>
    decreases k,
{
    if k <= 0 {
        Seq::empty()
    } else {
        add_rings(rings_upto(g, k - 1), rings_of(g, k - 1), rings_of(g, k - 1).len() as int)
    }
}

/// The rings of a graph: for every bond that lies on a ring, the smallest rings through
/// it.
pub open spec fn ring_list(g: Graph) -> Seq<Seq<usize>> {
    rings_upto(g, g.bonds.len() as int)
}

pub open spec fn bonds_ok(n: int, bonds: Seq<Bond>) -> bool {
    forall|j: int| 0 <= j < bonds.len() ==> (#[trigger] bonds[j]).begin < n && bonds[j].end < n
}

pub proof fn lemma_within_grows(g: Graph, skip: int, src: int, k: nat, k2: nat, v: int)
    requires
        k <= k2,
        within(g, skip, src, k, v),
    ensures
        within(g, skip, src, k2, v),
    decreases k2,
{
    if k < k2 {
        lemma_within_grows(g, skip, src, k, (k2 - 1) as nat, v);
    }
}

/// Where one more bond reaches nothing new, no number of bonds does.
pub proof fn lemma_within_closed(g: Graph, skip: int, src: int, r: nat, k: nat, v: int)
    requires
        forall|u: int| within(g, skip, src, r + 1, u) ==> within(g, skip, src, r, u),
        within(g, skip, src, k, v),
    ensures
        within(g, skip, src, r, v),
    decreases k,
{
    if k <= r {
        lemma_within_grows(g, skip, src, k, r, v);
    } else {
        if within(g, skip, src, (k - 1) as nat, v) {
            lemma_within_closed(g, skip, src, r, (k - 1) as nat, v);
        } else {
            let j = choose|j: int| #[trigger]
                link_to(g, skip, j, v) && within(
                    g,
                    skip,
                    src,
                    (k - 1) as nat,
                    g.bonds[j].other(v),
                );
            lemma_within_closed(g, skip, src, r, (k - 1) as nat, g.bonds[j].other(v));
            assert(link_to(g, skip, j, v));
            assert(within(g, skip, src, r + 1, v));
        }
    }
}

proof fn lemma_dist_found(g: Graph, skip: int, src: int, v: int, k: nat, d: nat)
    requires
        k <= d <= g.atoms.len(),
        within(g, skip, src, d, v),
        d > 0 ==> !within(g, skip, src, (d - 1) as nat, v),
    ensures
        dist_from(g, skip, src, v, k) == Some(d),
    decreases d - k,
{
    if k < d {
        if within(g, skip, src, k, v) {
            lemma_within_grows(g, skip, src, k, (d - 1) as nat, v);
        }
        lemma_dist_found(g, skip, src, v, k + 1, d);
    }
}

proof fn lemma_dist_none(g: Graph, skip: int, src: int, v: int, k: nat)
    requires
        !within(g, skip, src, g.atoms.len(), v),
    ensures
        dist_from(g, skip, src, v, k) is None,
    decreases g.atoms.len() + 1 - k,
{
    if k <= g.atoms.len() {
        if within(g, skip, src, k, v) {
            lemma_within_grows(g, skip, src, k, g.atoms.len(), v);
        }
        lemma_dist_none(g, skip, src, v, k + 1);
    }
}

/// What a distance found says about the paths.
pub proof fn lemma_dist_is(g: Graph, skip: int, src: int, v: int, k: nat)
    ensures
        dist_from(g, skip, src, v, k) matches Some(d) ==> k <= d <= g.atoms.len() && within(
            g,
            skip,
            src,
            d,
            v,
        ),
    decreases g.atoms.len() + 1 - k,
{
    if k <= g.atoms.len() && !within(g, skip, src, k, v) {
        lemma_dist_is(g, skip, src, v, k + 1);
    }
}

/// The state of a search from `src` after the atoms within `r` bonds have been found:
/// each atom found carries its distance, and no other atom is within `r` bonds.
spec fn searched(g: Graph, skip: int, src: int, d: Seq<Option<usize>>, r: nat) -> bool {
    &&& d.len() == g.atoms.len()
    &&& forall|v: int|
        0 <= v < d.len() ==> match #[trigger] d[v] {
            Some(k) => k <= r && within(g, skip, src, k as nat, v) && (k > 0 ==> !within(
                g,
                skip,
                src,
                (k - 1) as nat,
                v,
            )),
            None => !within(g, skip, src, r, v),
        }
}

/// The state of the search while the bonds below `upto` have been followed from the
/// atoms at distance `r`.
spec fn searching(g: Graph, skip: int, src: int, d: Seq<Option<usize>>, r: nat, upto: int) -> bool {
    &&& d.len() == g.atoms.len()
    &&& forall|v: int|
        0 <= v < d.len() ==> match #[trigger] d[v] {
            Some(k) => k <= r + 1 && within(g, skip, src, k as nat, v) && (k > 0 ==> !within(
                g,
                skip,
                src,
                (k - 1) as nat,
                v,
            )),
            None => !within(g, skip, src, r, v) && forall|j: int|
                0 <= j < upto && #[trigger] link_to(g, skip, j, v) ==> d[g.bonds[j].other(v)]
                    != Some(r as usize),
        }
}

proof fn lemma_round_done(g: Graph, skip: int, src: int, d: Seq<Option<usize>>, r: nat)
    requires
        searching(g, skip, src, d, r, g.bonds.len() as int),
        bonds_ok(g.atoms.len() as int, g.bonds),
        r < usize::MAX,
    ensures
        searched(g, skip, src, d, r + 1),
{
    assert forall|v: int| 0 <= v < d.len() && d[v] is None implies !within(
        g,
        skip,
        src,
        r + 1,
        v,
    ) by {
        if within(g, skip, src, r + 1, v) {
            let j = choose|j: int| #[trigger]
                link_to(g, skip, j, v) && within(g, skip, src, r, g.bonds[j].other(v));
            let u = g.bonds[j].other(v);
            assert(0 <= u < d.len());
            match d[u] {
                Some(k) => {
                    if k < r {
                        assert(link_to(g, skip, j, v));
                        assert(g.bonds[j].other(v) == u);
                        assert(within(g, skip, src, (k + 1) as nat, v));
                        lemma_within_grows(g, skip, src, (k + 1) as nat, r, v);
                    } else if k == r + 1 {
                        assert(!within(g, skip, src, r, u));
                    }
                },
                None => {},
            }
        }
    }
}

/// The distance of every atom from `src` along bonds other than `skip`.
pub(crate) fn distances(n: usize, bonds: &Vec<Bond>, skip: usize, src: usize, Ghost(g): Ghost<Graph>) -> (d:
    Vec<Option<usize>>)
    requires
        g.atoms.len() == n,
        g.bonds == bonds@,
        bonds_ok(n as int, bonds@),
        src < n,
    ensures
        d.len() == n,
        forall|v: int|
            0 <= v < n ==> match #[trigger] d[v] {
                Some(k) => dist(g, skip as int, src as int, v) == Some(k as nat),
                None => dist(g, skip as int, src as int, v) is None,
            },
{
    let mut d: Vec<Option<usize>> = Vec::new();
    let mut i: usize = 0;
    while i < n
        invariant
            i <= n,
            d.len() == i,
            forall|v: int| 0 <= v < i ==> d[v] == if v == src { Some(0usize) } else { None },
        decreases n - i,
    {
        d.push(if i == src { Some(0) } else { None });
        i += 1;
    }
    let mut r: usize = 0;
    let mut changed = true;
    while changed && r < n
        invariant
            r <= n,
            src < n,
            changed || r > 0,
            g.atoms.len() == n,
            g.bonds == bonds@,
            bonds_ok(n as int, bonds@),
            searched(g, skip as int, src as int, d@, r as nat),
            !changed ==> forall|u: int|
                within(g, skip as int, src as int, r as nat, u) ==> r > 0 && within(
                    g,
                    skip as int,
                    src as int,
                    (r - 1) as nat,
                    u,
                ),
        decreases n - r,
    {
        changed = false;
        let mut j: usize = 0;
        while j < bonds.len()
            invariant
                j <= bonds.len(),
                r < n,
                src < n,
                g.atoms.len() == n,
                g.bonds == bonds@,
                bonds_ok(n as int, bonds@),
                searching(g, skip as int, src as int, d@, r as nat, j as int),
                !changed ==> forall|v: int| 0 <= v < n ==> d[v] != Some((r + 1) as usize),
            decreases bonds.len() - j,
        {
            if j != skip {
                let b = bonds[j];
                let ghost before = d@;
                if d[b.begin] == Some(r) && d[b.end].is_none() {
                    d.set(b.end, Some(r + 1));
                    changed = true;
                    proof {
                        assert(link_to(g, skip as int, j as int, b.end as int));
                        assert(g.bonds[j as int].other(b.end as int) == b.begin || b.begin == b.end);
                    }
                } else if d[b.end] == Some(r) && d[b.begin].is_none() {
                    d.set(b.begin, Some(r + 1));
                    changed = true;
                    proof {
                        assert(link_to(g, skip as int, j as int, b.begin as int));
                        assert(g.bonds[j as int].other(b.begin as int) == b.end);
                    }
                }
                proof {
                    assert forall|v: int| 0 <= v < d.len() && d[v] is None implies forall|jj: int|
                        0 <= jj < j + 1 && #[trigger] link_to(g, skip as int, jj, v) ==> d[g.bonds[jj].other(
                            v,
                        )] != Some(r) by {
                        assert(before[v] is None);
                        assert forall|jj: int|
                            0 <= jj < j + 1 && #[trigger] link_to(g, skip as int, jj, v) implies d[g.bonds[jj].other(
                                v,
                            )] != Some(r) by {
                            let u = g.bonds[jj].other(v);
                            assert(0 <= u < n);
                            if jj < j {
                                assert(before[u] != Some(r));
                            }
                        }
                    }
                }
            }
            j += 1;
        }
        proof {
            lemma_round_done(g, skip as int, src as int, d@, r as nat);
            if !changed {
                assert forall|u: int| within(g, skip as int, src as int, (r + 1) as nat, u) implies within(
                    g,
                    skip as int,
                    src as int,
                    r as nat,
                    u,
                ) by {
                    lemma_reached_in_graph(g, skip as int, src as int, (r + 1) as nat, u);
                    assert(d[u] is Some);
                    lemma_within_grows(g, skip as int, src as int, d[u].unwrap() as nat, r as nat, u);
                }
            }
        }
        r += 1;
    }
    proof {
        assert forall|v: int| 0 <= v < n implies match #[trigger] d[v] {
            Some(k) => dist(g, skip as int, src as int, v) == Some(k as nat),
            None => dist(g, skip as int, src as int, v) is None,
        } by {
            match d[v] {
                Some(k) => {
                    lemma_dist_found(g, skip as int, src as int, v, 0, k as nat);
                },
                None => {
                    if within(g, skip as int, src as int, n as nat, v) {
                        if r < n {
                            lemma_within_closed(
                                g,
                                skip as int,
                                src as int,
                                (r - 1) as nat,
                                n as nat,
                                v,
                            );
                            lemma_within_grows(g, skip as int, src as int, (r - 1) as nat, r as nat, v);
                        }
                    }
                    lemma_dist_none(g, skip as int, src as int, v, 0);
                },
            }
        }
    }
    d
}

/// Whatever can be reached from an atom of the graph is an atom of the graph.
pub proof fn lemma_reached_in_graph(g: Graph, skip: int, src: int, k: nat, v: int)
    requires
        bonds_ok(g.atoms.len() as int, g.bonds),
        0 <= src < g.atoms.len(),
        within(g, skip, src, k, v),
    ensures
        0 <= v < g.atoms.len(),
    decreases k,
{
    if k > 0 {
        if within(g, skip, src, (k - 1) as nat, v) {
            lemma_reached_in_graph(g, skip, src, (k - 1) as nat, v);
        } else {
            let j = choose|j: int| #[trigger]
                link_to(g, skip, j, v) && within(
                    g,
                    skip,
                    src,
                    (k - 1) as nat,
                    g.bonds[j].other(v),
                );
            assert(g.bonds[j].touches(v));
        }
    }
}

/// A distance found is the least.
pub proof fn lemma_dist_least(g: Graph, skip: int, src: int, v: int, k: nat, below: nat)
    requires
        dist_from(g, skip, src, v, k) matches Some(d) && k <= below < d,
    ensures
        !within(g, skip, src, below, v),
    decreases g.atoms.len() + 1 - k,
{
    if k <= g.atoms.len() && !within(g, skip, src, k, v) {
        if k < below {
            lemma_dist_least(g, skip, src, v, k + 1, below);
        }
    }
}

/// An atom within reach has a distance.
pub proof fn lemma_dist_some(g: Graph, skip: int, src: int, v: int, k: nat, from: nat)
    requires
        within(g, skip, src, k, v),
        from <= k <= g.atoms.len(),
    ensures
        dist_from(g, skip, src, v, from) matches Some(d) && d <= k,
    decreases k - from,
{
    if !within(g, skip, src, from, v) {
        lemma_dist_some(g, skip, src, v, k, from + 1);
    }
}

/// The rings as sequences.
pub open spec fn rings_view(rings: Seq<Vec<usize>>) -> Seq<Seq<usize>> {
    Seq::new(rings.len(), |i: int| rings[i]@)
}

pub(crate) fn ring_holds(r: &Vec<usize>, x: usize) -> (b: bool)
    ensures
        b == r@.contains(x),
{
    let mut i: usize = 0;
    while i < r.len()
        invariant
            i <= r.len(),
            forall|k: int| 0 <= k < i ==> r[k] != x,
        decreases r.len() - i,
    {
        if r[i] == x {
            return true;
        }
        i += 1;
    }
    false
}

fn same(r1: &Vec<usize>, r2: &Vec<usize>) -> (b: bool)
    ensures
        b == same_ring(r1@, r2@),
{
    if r1.len() != r2.len() {
        return false;
    }
    let mut i: usize = 0;
    while i < r1.len()
        invariant
            i <= r1.len(),
            r1.len() == r2.len(),
            forall|k: int| 0 <= k < i ==> r2@.contains(#[trigger] r1[k]),
        decreases r1.len() - i,
    {
        if !ring_holds(r2, r1[i]) {
            return false;
        }
        i += 1;
    }
    let mut i: usize = 0;
    while i < r2.len()
        invariant
            i <= r2.len(),
            r1.len() == r2.len(),
            forall|k: int| 0 <= k < r1.len() ==> r2@.contains(#[trigger] r1[k]),
            forall|k: int| 0 <= k < i ==> r1@.contains(#[trigger] r2[k]),
        decreases r2.len() - i,
    {
        if !ring_holds(r1, r2[i]) {
            return false;
        }
        i += 1;
    }
    true
}

fn is_listed(rings: &Vec<Vec<usize>>, r: &Vec<usize>) -> (b: bool)
    ensures
        b == listed(rings_view(rings@), r@),
{
    let mut k: usize = 0;
    while k < rings.len()
        invariant
            k <= rings.len(),
            forall|i: int| 0 <= i < k ==> !same_ring(r@, #[trigger] rings_view(rings@)[i]),
        decreases rings.len() - k,
    {
        if same(r, &rings[k]) {
            assert(same_ring(r@, rings_view(rings@)[k as int]));
            return true;
        }
        k += 1;
    }
    false
}

/// The table holds the distance of every atom from `src`.
pub open spec fn is_table(g: Graph, skip: int, src: int, d: Seq<Option<usize>>) -> bool {
    &&& d.len() == g.atoms.len()
    &&& forall|u: int|
        0 <= u < d.len() ==> match #[trigger] d[u] {
            Some(x) => dist(g, skip, src, u) == Some(x as nat),
            None => dist(g, skip, src, u) is None,
        }
}

/// An atom next to one at distance `left` is one bond nearer exactly where the table
/// says so.
proof fn lemma_nearer(g: Graph, skip: int, src: int, d: Seq<Option<usize>>, cur: int, left: usize, j: int)
    requires
        bonds_ok(g.atoms.len() as int, g.bonds),
        is_table(g, skip, src, d),
        0 <= src < d.len(),
        0 <= cur < d.len(),
        left > 0,
        d[cur] == Some(left),
        link_to(g, skip, j, cur),
    ensures
        0 <= g.bonds[j].other(cur) < d.len(),
        within(g, skip, src, (left - 1) as nat, g.bonds[j].other(cur)) == (d[g.bonds[j].other(cur)] == Some(
            (left - 1) as usize,
        )),
{
    let u = g.bonds[j].other(cur);
    assert(g.bonds[j].begin < d.len() && g.bonds[j].end < d.len());
    lemma_dist_is(g, skip, src, cur, 0);
    if within(g, skip, src, (left - 1) as nat, u) {
        lemma_dist_some(g, skip, src, u, (left - 1) as nat, 0);
        let x = dist(g, skip, src, u).unwrap();
        if x < left - 1 {
            lemma_dist_is(g, skip, src, u, 0);
            assert(within(g, skip, src, x + 1, cur));
            lemma_within_grows(g, skip, src, x + 1, (left - 1) as nat, cur);
            lemma_dist_least(g, skip, src, cur, 0, (left - 1) as nat);
        }
    } else {
        if d[u] == Some((left - 1) as usize) {
            lemma_dist_is(g, skip, src, u, 0);
        }
    }
}

fn headed(v: usize, p: &Vec<usize>) -> (r: Vec<usize>)
    ensures
        r@ == seq![v] + p@,
{
    let mut r: Vec<usize> = Vec::new();
    r.push(v);
    let mut i: usize = 0;
    while i < p.len()
        invariant
            i <= p.len(),
            r@ == seq![v] + p@.take(i as int),
        decreases p.len() - i,
    {
        r.push(p[i]);
        assert(r@ =~= seq![v] + p@.take(i + 1));
        i += 1;
    }
    assert(p@.take(p.len() as int) =~= p@);
    r
}

/// All shortest paths from `v` back to `src`.
fn all_paths(
    bonds: &Vec<Bond>,
    skip: usize,
    src: usize,
    v: usize,
    k: usize,
    d: &Vec<Option<usize>>,
    Ghost(g): Ghost<Graph>,
) -> (ps: Vec<Vec<usize>>)
    requires
        g.bonds == bonds@,
        bonds_ok(g.atoms.len() as int, bonds@),
        is_table(g, skip as int, src as int, d@),
        src < d.len(),
        v < d.len(),
        d[v as int] == Some(k),
    ensures
        rings_view(ps@) == paths_back(g, skip as int, src as int, v as int, k as nat),
        forall|r: int, i: int| 0 <= r < ps.len() && 0 <= i < ps[r].len() ==> #[trigger] ps[r][i] < d.len(),
    decreases k,
{
    let mut out: Vec<Vec<usize>> = Vec::new();
    if k == 0 {
        let mut p: Vec<usize> = Vec::new();
        p.push(v);
        out.push(p);
        assert(rings_view(out@) =~= seq![seq![v]]);
        return out;
    }
    let mut j: usize = 0;
    while j < bonds.len()
        invariant
            j <= bonds.len(),
            k > 0,
            g.bonds == bonds@,
            bonds_ok(g.atoms.len() as int, bonds@),
            is_table(g, skip as int, src as int, d@),
            src < d.len(),
            v < d.len(),
            d[v as int] == Some(k),
            rings_view(out@) == paths_via(g, skip as int, src as int, v as int, k as nat, j as int),
            forall|r: int, i: int|
                0 <= r < out.len() && 0 <= i < out[r].len() ==> #[trigger] out[r][i] < d.len(),
        decreases bonds.len() - j,
    {
        let b = bonds[j];
        let ghost before = rings_view(out@);
        if j != skip && (b.begin == v || b.end == v) {
            let u = if b.begin == v {
                b.end
            } else {
                b.begin
            };
            proof {
                assert(link_to(g, skip as int, j as int, v as int));
                lemma_nearer(g, skip as int, src as int, d@, v as int, k, j as int);
            }
            if d[u] == Some(k - 1) {
                let sub = all_paths(bonds, skip, src, u, k - 1, d, Ghost(g));
                let ghost more = with_head(v, rings_view(sub@));
                let mut x: usize = 0;
                while x < sub.len()
                    invariant
                        x <= sub.len(),
                        v < d.len(),
                        more == with_head(v, rings_view(sub@)),
                        rings_view(out@) == before + more.take(x as int),
                        forall|r: int, i: int|
                            0 <= r < sub.len() && 0 <= i < sub[r].len() ==> #[trigger] sub[r][i] < d.len(),
                        forall|r: int, i: int|
                            0 <= r < out.len() && 0 <= i < out[r].len() ==> #[trigger] out[r][i] < d.len(),
                    decreases sub.len() - x,
                {
                    let p = headed(v, &sub[x]);
                    let ghost old_out = out@;
                    out.push(p);
                    proof {
                        assert(rings_view(out@) =~= rings_view(old_out).push(p@));
                        assert(more.take(x + 1) =~= more.take(x as int).push(more[x as int]));
                        assert(rings_view(out@) =~= before + more.take(x + 1));
                        assert forall|r: int, i: int|
                            0 <= r < out.len() && 0 <= i < out[r].len() implies #[trigger] out[r][i]
                            < d.len() by {
                            if r < old_out.len() {
                                assert(out[r] == old_out[r]);
                            } else {
                                if i > 0 {
                                    assert(out[r][i] == sub[x as int][i - 1]);
                                }
                            }
                        }
                    }
                    x += 1;
                }
                assert(more.take(sub.len() as int) =~= more);
            } else {
                assert(before + Seq::<Seq<usize>>::empty() =~= before);
            }
        } else {
            assert(before + Seq::<Seq<usize>>::empty() =~= before);
        }
        j += 1;
    }
    out
}

/// Adds to the list those of the rings that it does not yet hold.
fn add_new_rings(list: &mut Vec<Vec<usize>>, rs: Vec<Vec<usize>>, Ghost(n): Ghost<int>)
    requires
        forall|r: int, i: int| 0 <= r < old(list).len() && 0 <= i < old(list)[r].len() ==> #[trigger] old(list)[r][i] < n,
        forall|r: int, i: int| 0 <= r < rs.len() && 0 <= i < rs[r].len() ==> #[trigger] rs[r][i] < n,
    ensures
        rings_view(final(list)@) == add_rings(rings_view(old(list)@), rings_view(rs@), rs.len() as int),
        forall|r: int, i: int|
            0 <= r < final(list).len() && 0 <= i < final(list)[r].len() ==> #[trigger] final(list)[r][i] < n,
{
    let mut rs = rs;
    let ghost all = rings_view(rs@);
    let ghost start = rings_view(list@);
    let total = rs.len();
    let mut taken: usize = 0;
    // The rings are taken from the back of a reversed copy, so that each is moved, not copied.
    let mut rev: Vec<Vec<usize>> = Vec::new();
    while rs.len() > 0
        invariant
            rs.len() + rev.len() == total,
            forall|i: int| 0 <= i < rs.len() ==> rings_view(rs@)[i] == all[i],
            forall|i: int| 0 <= i < rev.len() ==> rings_view(rev@)[i] == all[total - 1 - i],
            all.len() == total,
        decreases rs.len(),
    {
        let ghost old_rs = rs@;
        let ghost old_rev = rev@;
        let p = rs.pop().unwrap();
        rev.push(p);
        proof {
            assert forall|i: int| 0 <= i < rs.len() implies rings_view(rs@)[i] == all[i] by {
                assert(rings_view(old_rs)[i] == all[i]);
            }
            assert forall|i: int| 0 <= i < rev.len() implies rings_view(rev@)[i] == all[total - 1 - i] by {
                if i < old_rev.len() {
                    assert(rings_view(old_rev)[i] == all[total - 1 - i]);
                } else {
                    assert(rings_view(old_rs)[old_rs.len() - 1] == all[old_rs.len() - 1]);
                }
            }
        }
    }
    while rev.len() > 0
        invariant
            taken + rev.len() == total,
            all.len() == total,
            forall|i: int| 0 <= i < rev.len() ==> rings_view(rev@)[i] == all[total - 1 - i],
            rings_view(list@) == add_rings(start, all, taken as int),
            forall|r: int, i: int| 0 <= r < list.len() && 0 <= i < list[r].len() ==> #[trigger] list[r][i] < n,
            forall|r: int, i: int| 0 <= r < all.len() && 0 <= i < all[r].len() ==> #[trigger] all[r][i] < n,
        decreases rev.len(),
    {
        let ghost old_rev = rev@;
        let p = rev.pop().unwrap();
        proof {
            assert(rings_view(old_rev)[old_rev.len() - 1] == all[taken as int]);
            assert(p@ == all[taken as int]);
            assert forall|i: int| 0 <= i < rev.len() implies rings_view(rev@)[i] == all[total - 1 - i] by {
                assert(rings_view(old_rev)[i] == all[total - 1 - i]);
            }
        }
        if !is_listed(list, &p) {
            let ghost before = list@;
            list.push(p);
            proof {
                assert(rings_view(list@) =~= rings_view(before).push(p@));
                assert forall|r: int, i: int| 0 <= r < list.len() && 0 <= i < list[r].len() implies #[trigger] list[r][i]
                    < n by {
                    if r < before.len() {
                        assert(list[r] == before[r]);
                    } else {
                        assert(all[taken as int][i] < n);
                    }
                }
            }
        }
        taken += 1;
    }
}

/// What ring perception finds in a graph.
pub struct RingInfo {
    /// For each bond, whether it lies on a ring.
    pub bond_in_ring: Vec<bool>,
    /// The rings, each as the atoms on it in walking order.
    pub rings: Vec<Vec<usize>>,
}

/// Finds the ring bonds of a graph and the smallest rings through each of them.
pub(crate) fn perceive_rings(n: usize, bonds: &Vec<Bond>, Ghost(g): Ghost<Graph>) -> (info: RingInfo)
    requires
        g.atoms.len() == n,
        g.bonds == bonds@,
        bonds_ok(n as int, bonds@),
    ensures
        info.bond_in_ring.len() == bonds.len(),
        forall|j: int| 0 <= j < bonds.len() ==> #[trigger] info.bond_in_ring[j] == bond_in_ring(g, j),
        rings_view(info.rings@) == ring_list(g),
        forall|r: int, i: int|
            0 <= r < info.rings.len() && 0 <= i < info.rings[r].len() ==> #[trigger] info.rings[r][i] < n,
{
    let mut flags: Vec<bool> = Vec::new();
    let mut rings: Vec<Vec<usize>> = Vec::new();
    let mut j: usize = 0;
    while j < bonds.len()
        invariant
            j <= bonds.len(),
            g.atoms.len() == n,
            g.bonds == bonds@,
            bonds_ok(n as int, bonds@),
            flags.len() == j,
            forall|i: int| 0 <= i < j ==> #[trigger] flags[i] == bond_in_ring(g, i),
            rings_view(rings@) == rings_upto(g, j as int),
            forall|r: int, i: int|
                0 <= r < rings.len() && 0 <= i < rings[r].len() ==> #[trigger] rings[r][i] < n,
        decreases bonds.len() - j,
    {
        let b = bonds[j];
        let d = distances(n, bonds, j, b.begin, Ghost(g));
        match d[b.end] {
            Some(k) => {
                flags.push(true);
                let found = all_paths(bonds, j, b.begin, b.end, k, &d, Ghost(g));
                add_new_rings(&mut rings, found, Ghost(n as int));
            },
            None => {
                flags.push(false);
                assert(rings_of(g, j as int) =~= Seq::<Seq<usize>>::empty());
            },
        }
        j += 1;
    }
    RingInfo { bond_in_ring: flags, rings }
}

} // verus!
