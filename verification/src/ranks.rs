use vstd::prelude::*;
use crate::atom::Atom;
use crate::bond::Bond;
use crate::graph::Graph;

verus! {

/// The hydrogen count that an atom's record shows, 0 where it shows none.
pub open spec fn shown_hydrogens(a: Atom) -> u8 {
    match a.hydrogens {
        Some(h) => h,
        None => 0,
    }
}

/// Whether atom `a` comes before atom `b` by what they are: element, then charge, then
/// number of bonds, then aromaticity, then hydrogen count.
pub open spec fn kind_less(g: Graph, a: int, b: int) -> bool {
    let x = g.atoms[a];
    let y = g.atoms[b];
    if x.element != y.element {
        x.element < y.element
    } else if x.charge != y.charge {
        x.charge < y.charge
    } else if g.degree(a) != g.degree(b) {
        g.degree(a) < g.degree(b)
    } else if x.aromatic != y.aromatic {
        !x.aromatic
    } else {
        shown_hydrogens(x) < shown_hydrogens(y)
    }
}

/// The number of atoms among the first `k` that come before atom `a` by what they are.
pub open spec fn kind_rank_upto(g: Graph, a: int, k: int) -> int
    decreases k,
{
    if k <= 0 {
        0
    } else {
        kind_rank_upto(g, a, k - 1) + if kind_less(g, k - 1, a) {
            1int
        } else {
            0int
        }
    }
}

/// The ranks that the refinement starts from: for each atom, the number of atoms that
/// come before it by what they are.
pub open spec fn first_ranks(g: Graph) -> Seq<usize> {
    Seq::new(g.atoms.len(), |a: int| kind_rank_upto(g, a, g.atoms.len() as int) as usize)
}

/// `s`, which is sorted, with `x` put in its place, behind what equals it.
pub open spec fn put_in(s: Seq<usize>, x: usize) -> Seq<usize>
    decreases s.len(),
{
    if s.len() == 0 {
        seq![x]
    } else if s.last() <= x {
        s.push(x)
    } else {
        put_in(s.drop_last(), x).push(s.last())
    }
}

/// The ranks of the neighbours of atom `a` over its bonds among the first `k`, sorted.
pub open spec fn neighbour_ranks(g: Graph, r: Seq<usize>, a: int, k: int) -> Seq<usize>
    decreases k,
{
    if k <= 0 {
        Seq::empty()
    } else if g.bonds[k - 1].touches(a) {
        put_in(neighbour_ranks(g, r, a, k - 1), r[g.bonds[k - 1].other(a)])
    } else {
        neighbour_ranks(g, r, a, k - 1)
    }
}

/// Whether `s` comes before `t` in dictionary order, given that they agree below
/// index `i`.
pub open spec fn seq_less(s: Seq<usize>, t: Seq<usize>, i: int) -> bool
    decreases t.len() - i,
{
    if i < 0 || i >= t.len() {
        false
    } else if i >= s.len() {
        true
    } else if s[i] != t[i] {
        s[i] < t[i]
    } else {
        seq_less(s, t, i + 1)
    }
}

/// Whether atom `a` comes before atom `b` in a round of the refinement: by rank, then
/// by the sorted ranks of the neighbours.
pub open spec fn key_less(g: Graph, r: Seq<usize>, a: int, b: int) -> bool {
    r[a] < r[b] || (r[a] == r[b] && seq_less(
        neighbour_ranks(g, r, a, g.bonds.len() as int),
        neighbour_ranks(g, r, b, g.bonds.len() as int),
        0,
    ))
}

pub open spec fn key_rank_upto(g: Graph, r: Seq<usize>, a: int, k: int) -> int
    decreases k,
{
    if k <= 0 {
        0
    } else {
        key_rank_upto(g, r, a, k - 1) + if key_less(g, r, k - 1, a) {
            1int
        } else {
            0int
        }
    }
}

/// One round of the refinement: each atom's new rank is the number of atoms that come
/// before it.
pub open spec fn refine(g: Graph, r: Seq<usize>) -> Seq<usize> {
    Seq::new(g.atoms.len(), |a: int| key_rank_upto(g, r, a, g.atoms.len() as int) as usize)
}

/// The ranks after `t` rounds.
pub open spec fn ranks_after(g: Graph, t: nat) -> Seq<usize>
    decreases t,
{
    if t == 0 {
        first_ranks(g)
    } else {
        refine(g, ranks_after(g, (t - 1) as nat))
    }
}

/// The ranks of the atoms of a graph: what the refinement gives after as many rounds as
/// the graph has atoms. Atoms that it cannot tell apart share a rank.
pub open spec fn ranks_of(g: Graph) -> Seq<usize> {
    ranks_after(g, g.atoms.len())
}

/// Once a round changes nothing, no later round does.
pub proof fn lemma_ranks_settled(g: Graph, t: nat, u: nat)
    requires
        t <= u,
        refine(g, ranks_after(g, t)) == ranks_after(g, t),
    ensures
        ranks_after(g, u) == ranks_after(g, t),
    decreases u,
{
    if t < u {
        lemma_ranks_settled(g, t, (u - 1) as nat);
    }
}

proof fn lemma_rank_bounds(g: Graph, r: Seq<usize>, a: int, k: int)
    requires
        0 <= k,
    ensures
        0 <= key_rank_upto(g, r, a, k) <= k,
        0 <= kind_rank_upto(g, a, k) <= k,
    decreases k,
{
    if k > 0 {
        lemma_rank_bounds(g, r, a, k - 1);
    }
}

/// Where `x` goes in the sorted `s`: the index behind the last element that is at most
/// `x`.
proof fn lemma_put_in(s: Seq<usize>, x: usize, at: int)
    requires
        0 <= at <= s.len(),
        forall|i: int| at <= i < s.len() ==> s[i] > x,
        at > 0 ==> s[at - 1] <= x,
    ensures
        put_in(s, x) == s.insert(at, x),
    decreases s.len(),
{
    if s.len() == 0 {
        assert(s.insert(at, x) =~= seq![x]);
    } else if s.last() <= x {
        assert(at == s.len());
        assert(s.insert(at, x) =~= s.push(x));
    } else {
        lemma_put_in(s.drop_last(), x, at);
        assert(s.insert(at, x) =~= s.drop_last().insert(at, x).push(s.last()));
    }
}

fn insert_sorted(v: &mut Vec<usize>, x: usize)
    ensures
        final(v)@ == put_in(old(v)@, x),
{
    let mut at: usize = v.len();
    while at > 0 && v[at - 1] > x
        invariant
            at <= v.len(),
            v@ == old(v)@,
            forall|i: int| at <= i < v.len() ==> v[i] > x,
        decreases at,
    {
        at -= 1;
    }
    proof {
        lemma_put_in(v@, x, at as int);
    }
    v.insert(at, x);
}

fn sorted_neighbours(a: usize, bonds: &Vec<Bond>, r: &Vec<usize>, Ghost(g): Ghost<Graph>) -> (v: Vec<usize>)
    requires
        g.bonds == bonds@,
        g.wf(),
        r.len() == g.atoms.len(),
    ensures
        v@ == neighbour_ranks(g, r@, a as int, bonds.len() as int),
{
    let mut v: Vec<usize> = Vec::new();
    let mut j: usize = 0;
    while j < bonds.len()
        invariant
            j <= bonds.len(),
            g.bonds == bonds@,
            g.wf(),
            r.len() == g.atoms.len(),
            v@ == neighbour_ranks(g, r@, a as int, j as int),
        decreases bonds.len() - j,
    {
        let b = bonds[j];
        assert(g.bonds[j as int].begin < r.len() && g.bonds[j as int].end < r.len());
        if b.begin == a {
            insert_sorted(&mut v, r[b.end]);
        } else if b.end == a {
            insert_sorted(&mut v, r[b.begin]);
        }
        j += 1;
    }
    v
}

fn less_seq(s: &Vec<usize>, t: &Vec<usize>) -> (b: bool)
    ensures
        b == seq_less(s@, t@, 0),
{
    let mut i: usize = 0;
    while i < t.len()
        invariant
            i <= t.len(),
            seq_less(s@, t@, 0) == seq_less(s@, t@, i as int),
        decreases t.len() - i,
    {
        if i >= s.len() {
            return true;
        }
        if s[i] != t[i] {
            return s[i] < t[i];
        }
        i += 1;
    }
    false
}

pub(crate) fn degrees(n: usize, bonds: &Vec<Bond>, Ghost(g): Ghost<Graph>) -> (d: Vec<usize>)
    requires
        g.atoms.len() == n,
        g.bonds == bonds@,
    ensures
        d.len() == n,
        forall|a: int| 0 <= a < n ==> #[trigger] d[a] == g.degree(a),
{
    let mut d: Vec<usize> = Vec::new();
    let mut a: usize = 0;
    while a < n
        invariant
            a <= n,
            g.bonds == bonds@,
            d.len() == a,
            forall|x: int| 0 <= x < a ==> #[trigger] d[x] == g.degree(x),
        decreases n - a,
    {
        let mut c: usize = 0;
        let mut j: usize = 0;
        while j < bonds.len()
            invariant
                j <= bonds.len(),
                g.bonds == bonds@,
                c == g.degree_upto(a as int, j as int),
                c <= j,
            decreases bonds.len() - j,
        {
            if bonds[j].begin == a || bonds[j].end == a {
                c += 1;
            }
            j += 1;
        }
        d.push(c);
        a += 1;
    }
    d
}

fn less_kind(a: usize, b: usize, atoms: &Vec<Atom>, d: &Vec<usize>, Ghost(g): Ghost<Graph>) -> (r: bool)
    requires
        g.atoms == atoms@,
        d.len() == atoms.len(),
        a < atoms.len(),
        b < atoms.len(),
        forall|x: int| 0 <= x < d.len() ==> #[trigger] d[x] == g.degree(x),
    ensures
        r == kind_less(g, a as int, b as int),
{
    let x = atoms[a];
    let y = atoms[b];
    if x.element != y.element {
        x.element < y.element
    } else if x.charge != y.charge {
        x.charge < y.charge
    } else if d[a] != d[b] {
        d[a] < d[b]
    } else if x.aromatic != y.aromatic {
        !x.aromatic
    } else {
        let hx = match x.hydrogens {
            Some(h) => h,
            None => 0,
        };
        let hy = match y.hydrogens {
            Some(h) => h,
            None => 0,
        };
        hx < hy
    }
}

fn start_ranks(atoms: &Vec<Atom>, bonds: &Vec<Bond>, Ghost(g): Ghost<Graph>) -> (r: Vec<usize>)
    requires
        g.atoms == atoms@,
        g.bonds == bonds@,
    ensures
        r@ == first_ranks(g),
{
    let n = atoms.len();
    let d = degrees(n, bonds, Ghost(g));
    let mut r: Vec<usize> = Vec::new();
    let mut a: usize = 0;
    while a < n
        invariant
            a <= n,
            n == atoms.len(),
            g.atoms == atoms@,
            d.len() == n,
            forall|x: int| 0 <= x < n ==> #[trigger] d[x] == g.degree(x),
            r.len() == a,
            forall|x: int| 0 <= x < a ==> #[trigger] r[x] == kind_rank_upto(g, x, n as int),
        decreases n - a,
    {
        let mut c: usize = 0;
        let mut b: usize = 0;
        while b < n
            invariant
                b <= n,
                a < n,
                n == atoms.len(),
                g.atoms == atoms@,
                d.len() == n,
                forall|x: int| 0 <= x < n ==> #[trigger] d[x] == g.degree(x),
                c == kind_rank_upto(g, a as int, b as int),
                c <= b,
            decreases n - b,
        {
            if less_kind(b, a, atoms, &d, Ghost(g)) {
                c += 1;
            }
            b += 1;
        }
        r.push(c);
        a += 1;
    }
    proof {
        assert forall|x: int| 0 <= x < n implies r@[x] == first_ranks(g)[x] by {
            lemma_rank_bounds(g, r@, x, n as int);
        }
        assert(r@ =~= first_ranks(g));
    }
    r
}

fn refine_ranks(n: usize, bonds: &Vec<Bond>, r: &Vec<usize>, Ghost(g): Ghost<Graph>) -> (out: Vec<usize>)
    requires
        g.atoms.len() == n,
        g.bonds == bonds@,
        g.wf(),
        r.len() == n,
    ensures
        out@ == refine(g, r@),
{
    let mut lists: Vec<Vec<usize>> = Vec::new();
    let mut a: usize = 0;
    while a < n
        invariant
            a <= n,
            g.atoms.len() == n,
            g.bonds == bonds@,
            g.wf(),
            r.len() == n,
            lists.len() == a,
            forall|x: int|
                0 <= x < a ==> (#[trigger] lists[x])@ == neighbour_ranks(g, r@, x, bonds.len() as int),
        decreases n - a,
    {
        let v = sorted_neighbours(a, bonds, r, Ghost(g));
        lists.push(v);
        a += 1;
    }
    let mut out: Vec<usize> = Vec::new();
    let mut a: usize = 0;
    while a < n
        invariant
            a <= n,
            g.atoms.len() == n,
            g.bonds == bonds@,
            r.len() == n,
            lists.len() == n,
            forall|x: int|
                0 <= x < n ==> (#[trigger] lists[x])@ == neighbour_ranks(g, r@, x, bonds.len() as int),
            out.len() == a,
            forall|x: int| 0 <= x < a ==> #[trigger] out[x] == key_rank_upto(g, r@, x, n as int),
        decreases n - a,
    {
        let mut c: usize = 0;
        let mut b: usize = 0;
        while b < n
            invariant
                b <= n,
                a < n,
                g.atoms.len() == n,
                g.bonds == bonds@,
                r.len() == n,
                lists.len() == n,
                forall|x: int|
                    0 <= x < n ==> (#[trigger] lists[x])@ == neighbour_ranks(
                        g,
                        r@,
                        x,
                        bonds.len() as int,
                    ),
                c == key_rank_upto(g, r@, a as int, b as int),
                c <= b,
            decreases n - b,
        {
            let less = r[b] < r[a] || (r[b] == r[a] && less_seq(&lists[b], &lists[a]));
            if less {
                c += 1;
            }
            b += 1;
        }
        out.push(c);
        a += 1;
    }
    proof {
        assert forall|x: int| 0 <= x < n implies out@[x] == refine(g, r@)[x] by {
            lemma_rank_bounds(g, r@, x, n as int);
        }
        assert(out@ =~= refine(g, r@));
    }
    out
}

fn same_ranks(r: &Vec<usize>, s: &Vec<usize>) -> (b: bool)
    ensures
        b == (r@ == s@),
{
    if r.len() != s.len() {
        return false;
    }
    let mut i: usize = 0;
    while i < r.len()
        invariant
            i <= r.len(),
            r.len() == s.len(),
            forall|k: int| 0 <= k < i ==> r[k] == s[k],
        decreases r.len() - i,
    {
        if r[i] != s[i] {
            return false;
        }
        i += 1;
    }
    assert(r@ =~= s@);
    true
}

/// Ranks the atoms of a graph by what they are and by what surrounds them.
pub(crate) fn rank_atoms(atoms: &Vec<Atom>, bonds: &Vec<Bond>) -> (r: Vec<usize>)
    requires
        (Graph { atoms: atoms@, bonds: bonds@ }).wf(),
    ensures
        r@ == ranks_of(Graph { atoms: atoms@, bonds: bonds@ }),
        r.len() == atoms.len(),
{
    let ghost g = Graph { atoms: atoms@, bonds: bonds@ };
    let n = atoms.len();
    let mut r = start_ranks(atoms, bonds, Ghost(g));
    let mut t: usize = 0;
    while t < n
        invariant
            t <= n,
            n == atoms.len(),
            g == (Graph { atoms: atoms@, bonds: bonds@ }),
            g.wf(),
            r@ == ranks_after(g, t as nat),
        decreases n - t,
    {
        let next = refine_ranks(n, bonds, &r, Ghost(g));
        if same_ranks(&next, &r) {
            proof {
                lemma_ranks_settled(g, t as nat, n as nat);
            }
            return r;
        }
        r = next;
        t += 1;
    }
    r
}

/// Whether atom `x` is taken before atom `y`: by rank, then by index.
pub open spec fn better(r: Seq<usize>, x: usize, y: usize) -> bool {
    r[x as int] < r[y as int] || (r[x as int] == r[y as int] && x < y)
}

/// The best of two choices, where there may be none yet.
pub open spec fn best_of(r: Seq<usize>, before: Option<usize>, x: usize) -> Option<usize> {
    match before {
        Some(p) => if better(r, x, p) {
            Some(x)
        } else {
            Some(p)
        },
        None => Some(x),
    }
}

/// The ranks after `t` more rounds of the refinement.
pub open spec fn refined(g: Graph, r: Seq<usize>, t: nat) -> Seq<usize>
    decreases t,
{
    if t == 0 {
        r
    } else {
        refine(g, refined(g, r, (t - 1) as nat))
    }
}

/// Atom `a` shares its rank with another atom.
pub open spec fn is_tied(r: Seq<usize>, a: int) -> bool {
    exists|b: int| 0 <= b < r.len() && b != a && #[trigger] r[b] == r[a]
}

/// The best of the atoms among the first `k` that share their rank with another atom.
pub open spec fn first_tied(r: Seq<usize>, k: int) -> Option<usize>
    decreases k,
{
    if k <= 0 {
        None
    } else {
        let before = first_tied(r, k - 1);
        if is_tied(r, k - 1) {
            best_of(r, before, (k - 1) as usize)
        } else {
            before
        }
    }
}

/// The ranks with atom `c` told apart from the atoms that share its rank: they move up
/// by one.
pub open spec fn split(r: Seq<usize>, c: usize) -> Seq<usize> {
    Seq::new(
        r.len(),
        |x: int|
            if x != c && r[x] == r[c as int] && r[x] < usize::MAX {
                (r[x] + 1) as usize
            } else {
                r[x]
            },
    )
}

/// The ranks with ties broken: as long as atoms share a rank, and at most `fuel` times,
/// the best of them is told apart from the others, and the ranks are refined again.
pub open spec fn settle(g: Graph, r: Seq<usize>, fuel: nat) -> Seq<usize>
    decreases fuel,
{
    if fuel == 0 {
        r
    } else {
        match first_tied(r, r.len() as int) {
            None => r,
            Some(c) => settle(g, refined(g, split(r, c), g.atoms.len()), (fuel - 1) as nat),
        }
    }
}

/// The ranks by which the atoms are written: the ranks of the refinement, with ties
/// broken by index.
pub open spec fn final_ranks(g: Graph) -> Seq<usize> {
    settle(g, ranks_of(g), g.atoms.len())
}

pub proof fn lemma_refined_settled(g: Graph, r: Seq<usize>, t: nat, u: nat)
    requires
        t <= u,
        refine(g, refined(g, r, t)) == refined(g, r, t),
    ensures
        refined(g, r, u) == refined(g, r, t),
    decreases u,
{
    if t < u {
        lemma_refined_settled(g, r, t, (u - 1) as nat);
    }
}

fn refine_fully(n: usize, bonds: &Vec<Bond>, start: Vec<usize>, Ghost(g): Ghost<Graph>) -> (r: Vec<usize>)
    requires
        g.atoms.len() == n,
        g.bonds == bonds@,
        g.wf(),
        start.len() == n,
    ensures
        r@ == refined(g, start@, n as nat),
        r.len() == n,
{
    let mut r = start;
    let mut t: usize = 0;
    while t < n
        invariant
            t <= n,
            g.atoms.len() == n,
            g.bonds == bonds@,
            g.wf(),
            r.len() == n,
            r@ == refined(g, start@, t as nat),
        decreases n - t,
    {
        let next = refine_ranks(n, bonds, &r, Ghost(g));
        if same_ranks(&next, &r) {
            proof {
                lemma_refined_settled(g, start@, t as nat, n as nat);
            }
            return r;
        }
        r = next;
        t += 1;
    }
    r
}

fn tied(r: &Vec<usize>, a: usize) -> (b: bool)
    requires
        a < r.len(),
    ensures
        b == is_tied(r@, a as int),
{
    let mut k: usize = 0;
    while k < r.len()
        invariant
            k <= r.len(),
            a < r.len(),
            forall|x: int| 0 <= x < k && x != a ==> r[x] != r[a as int],
        decreases r.len() - k,
    {
        if k != a && r[k] == r[a] {
            assert(r@[k as int] == r@[a as int]);
            return true;
        }
        k += 1;
    }
    false
}

fn find_tied(r: &Vec<usize>) -> (o: Option<usize>)
    ensures
        o == first_tied(r@, r.len() as int),
        o matches Some(c) ==> c < r.len(),
{
    let mut best: Option<usize> = None;
    let mut k: usize = 0;
    while k < r.len()
        invariant
            k <= r.len(),
            best == first_tied(r@, k as int),
            best matches Some(c) ==> c < r.len(),
        decreases r.len() - k,
    {
        if tied(r, k) {
            best = match best {
                Some(p) => if r[k] < r[p] || (r[k] == r[p] && k < p) {
                    Some(k)
                } else {
                    Some(p)
                },
                None => Some(k),
            };
        }
        k += 1;
    }
    best
}

fn split_off(r: &Vec<usize>, c: usize) -> (out: Vec<usize>)
    requires
        c < r.len(),
    ensures
        out@ == split(r@, c),
{
    let mut out: Vec<usize> = Vec::new();
    let mut x: usize = 0;
    while x < r.len()
        invariant
            x <= r.len(),
            c < r.len(),
            out.len() == x,
            forall|i: int| 0 <= i < x ==> #[trigger] out[i] == split(r@, c)[i],
        decreases r.len() - x,
    {
        if x != c && r[x] == r[c] && r[x] < usize::MAX {
            out.push(r[x] + 1);
        } else {
            out.push(r[x]);
        }
        x += 1;
    }
    assert(out@ =~= split(r@, c));
    out
}

/// Ranks the atoms of a graph and breaks the ties.
pub(crate) fn settle_ranks(atoms: &Vec<Atom>, bonds: &Vec<Bond>) -> (r: Vec<usize>)
    requires
        (Graph { atoms: atoms@, bonds: bonds@ }).wf(),
    ensures
        r@ == final_ranks(Graph { atoms: atoms@, bonds: bonds@ }),
        r.len() == atoms.len(),
{
    let ghost g = Graph { atoms: atoms@, bonds: bonds@ };
    let n = atoms.len();
    let mut r = rank_atoms(atoms, bonds);
    let mut left: usize = n;
    while left > 0
        invariant
            n == atoms.len(),
            g == (Graph { atoms: atoms@, bonds: bonds@ }),
            g.wf(),
            r.len() == n,
            final_ranks(g) == settle(g, r@, left as nat),
        decreases left,
    {
        match find_tied(&r) {
            None => {
                return r;
            },
            Some(c) => {
                let s = split_off(&r, c);
                r = refine_fully(n, bonds, s, Ghost(g));
                left -= 1;
            },
        }
    }
    r
}

} // verus!
