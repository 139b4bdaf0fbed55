use vstd::prelude::*;
use crate::bond::Bond;
use crate::graph::Graph;

verus! {

/// A graph that can be written down atom by atom: every bond runs from a lower to a
/// higher index, and the bonds are in the order of their higher index.
pub open spec fn ordered(g: Graph) -> bool {
    &&& g.wf()
    &&& forall|j: int| 0 <= j < g.bonds.len() ==> (#[trigger] g.bonds[j]).begin < g.bonds[j].end
    &&& forall|j: int, k: int|
        0 <= j < k < g.bonds.len() ==> (#[trigger] g.bonds[j]).end <= (#[trigger] g.bonds[k]).end
}

/// Where the text stands before an atom is written: the atom it would bond to, the
/// atoms at which a branch is open, and the first bond not yet written.
pub ghost struct Plan {
    pub prev: Option<usize>,
    pub stack: Seq<usize>,
    pub next: int,
}

/// The open branches that are left when branches are closed until the text stands at
/// atom `q`.
pub open spec fn unwound(stack: Seq<usize>, prev: Option<usize>, q: usize) -> Seq<usize>
    decreases stack.len(),
{
    if prev == Some(q) || stack.len() == 0 {
        stack
    } else {
        unwound(stack.drop_last(), Some(stack.last()), q)
    }
}

/// The index behind the bonds from `from` on that end at atom `i`.
pub open spec fn block_end(g: Graph, from: int, i: usize) -> int
    decreases g.bonds.len() - from,
{
    if 0 <= from < g.bonds.len() && g.bonds[from].end == i {
        block_end(g, from + 1, i)
    } else {
        from
    }
}

/// Bond `j` is the first of the bonds that end at its higher atom.
pub open spec fn starts_block(g: Graph, j: int) -> bool {
    j == 0 || g.bonds[j - 1].end != g.bonds[j].end
}

/// The last atom, among those whose bonds are among the first `k`, whose first bond
/// leads back to atom `q`; 0 where there is none.
pub open spec fn last_want(g: Graph, q: usize, k: int) -> usize
    decreases k,
{
    if k <= 0 {
        0
    } else if starts_block(g, k - 1) && g.bonds[k - 1].begin == q {
        g.bonds[k - 1].end
    } else {
        last_want(g, q, k - 1)
    }
}

/// Whether atom `i` is written as bonded to the atom before it in the text: its first
/// bond leads back to the atom at which the text stands, or to one at which a branch
/// is open.
pub open spec fn takes_tree(g: Graph, p: Plan, i: usize) -> bool {
    0 <= p.next < g.bonds.len() && g.bonds[p.next].end == i && (p.prev == Some(
        g.bonds[p.next].begin,
    ) || p.stack.contains(g.bonds[p.next].begin))
}

/// Whether a branch is opened before atom `i`: it is bonded to the atom before it, and
/// a later atom will be bonded to that one too.
pub open spec fn takes_branch(g: Graph, p: Plan, i: usize) -> bool {
    takes_tree(g, p, i) && last_want(g, g.bonds[p.next].begin, g.bonds.len() as int) > i
}

/// The open branches after the closing brackets before atom `i`.
pub open spec fn closed_stack(g: Graph, p: Plan, i: usize) -> Seq<usize> {
    if takes_tree(g, p, i) {
        unwound(p.stack, p.prev, g.bonds[p.next].begin)
    } else {
        Seq::empty()
    }
}

/// Where the text stands after atom `i`.
pub open spec fn advance(g: Graph, p: Plan, i: usize) -> Plan {
    Plan {
        prev: Some(i),
        stack: if takes_branch(g, p, i) {
            closed_stack(g, p, i).push(g.bonds[p.next].begin)
        } else {
            closed_stack(g, p, i)
        },
        next: block_end(g, p.next, i),
    }
}

/// Where the text stands before atom `i`.
pub open spec fn plan(g: Graph, i: int) -> Plan
    decreases i,
{
    if i <= 0 {
        Plan { prev: None, stack: Seq::empty(), next: 0 }
    } else {
        advance(g, plan(g, i - 1), (i - 1) as usize)
    }
}

/// Bond `j` is written by putting its second atom behind its first.
pub open spec fn is_tree_bond(g: Graph, j: int) -> bool {
    plan(g, g.bonds[j].end as int).next == j && takes_tree(
        g,
        plan(g, g.bonds[j].end as int),
        g.bonds[j].end,
    )
}

/// The number of bonds among the first `k` that are written as ring closures.
pub open spec fn closures_upto(g: Graph, k: int) -> int
    decreases k,
{
    if k <= 0 {
        0
    } else {
        closures_upto(g, k - 1) + if is_tree_bond(g, k - 1) {
            0int
        } else {
            1int
        }
    }
}

/// What is settled about each atom and bond before the text is written.
pub struct Layout {
    /// For each atom, the first bond that ends at it; one more entry for the end.
    pub starts: Vec<usize>,
    /// For each atom, whether it is bonded to the atom before it in the text.
    pub tree: Vec<bool>,
    /// For each atom, whether a branch is opened before it.
    pub branch: Vec<bool>,
    /// For each atom, the closing brackets before it; one more entry for the end.
    pub pops: Vec<usize>,
    /// For each bond, whether it is written without a ring-closure label.
    pub tree_bond: Vec<bool>,
    /// For each bond, the number of ring closures up to and including it.
    pub labels: Vec<u64>,
}

impl Layout {
    pub open spec fn fits(&self, g: Graph) -> bool {
        let n = g.atoms.len() as int;
        let m = g.bonds.len() as int;
        &&& self.starts.len() == n + 1
        &&& self.tree.len() == n
        &&& self.branch.len() == n
        &&& self.pops.len() == n + 1
        &&& self.tree_bond.len() == m
        &&& self.labels.len() == m
        &&& forall|i: int| 0 <= i <= n ==> #[trigger] self.starts[i] == plan(g, i).next
        &&& forall|i: int|
            0 <= i < n ==> #[trigger] self.tree[i] == takes_tree(g, plan(g, i), i as usize)
        &&& forall|i: int|
            0 <= i < n ==> #[trigger] self.branch[i] == takes_branch(g, plan(g, i), i as usize)
        &&& forall|i: int|
            0 <= i < n ==> #[trigger] self.pops[i] == plan(g, i).stack.len() - closed_stack(
                g,
                plan(g, i),
                i as usize,
            ).len()
        &&& self.pops[n] == plan(g, n).stack.len()
        &&& forall|j: int| 0 <= j < m ==> #[trigger] self.tree_bond[j] == is_tree_bond(g, j)
        &&& forall|j: int| 0 <= j < m ==> #[trigger] self.labels[j] == closures_upto(g, j + 1)
    }
}

pub proof fn lemma_unwound_shorter(stack: Seq<usize>, prev: Option<usize>, q: usize)
    ensures
        unwound(stack, prev, q).len() <= stack.len(),
    decreases stack.len(),
{
    if !(prev == Some(q) || stack.len() == 0) {
        lemma_unwound_shorter(stack.drop_last(), Some(stack.last()), q);
    }
}

pub proof fn lemma_block_end(g: Graph, from: int, i: usize)
    requires
        0 <= from <= g.bonds.len(),
    ensures
        from <= block_end(g, from, i) <= g.bonds.len(),
        forall|j: int| from <= j < block_end(g, from, i) ==> (#[trigger] g.bonds[j]).end == i,
        block_end(g, from, i) < g.bonds.len() ==> g.bonds[block_end(g, from, i)].end != i,
    decreases g.bonds.len() - from,
{
    if from < g.bonds.len() && g.bonds[from].end == i {
        lemma_block_end(g, from + 1, i);
    }
}

/// Before atom `i`, the bonds that end at lower atoms have been written and no others.
pub proof fn lemma_plan_next(g: Graph, i: int)
    requires
        ordered(g),
        0 <= i <= g.atoms.len(),
    ensures
        0 <= plan(g, i).next <= g.bonds.len(),
        forall|j: int| 0 <= j < plan(g, i).next ==> (#[trigger] g.bonds[j]).end < i,
        forall|j: int| plan(g, i).next <= j < g.bonds.len() ==> (#[trigger] g.bonds[j]).end >= i,
        i == g.atoms.len() ==> plan(g, i).next == g.bonds.len(),
    decreases i,
{
    if i > 0 {
        lemma_plan_next(g, i - 1);
        let p = plan(g, i - 1);
        lemma_block_end(g, p.next, (i - 1) as usize);
        let e = block_end(g, p.next, (i - 1) as usize);
        assert forall|j: int| e <= j < g.bonds.len() implies (#[trigger] g.bonds[j]).end >= i by {
            if e < g.bonds.len() {
                assert(g.bonds[e].end >= i - 1);
                if j > e {
                    assert(g.bonds[e].end <= g.bonds[j].end);
                }
            }
        }
    }
    if i == g.atoms.len() && plan(g, i).next < g.bonds.len() {
        assert(g.bonds[plan(g, i).next].end >= i);
    }
}

fn stack_holds(stack: &Vec<usize>, q: usize) -> (b: bool)
    ensures
        b == stack@.contains(q),
{
    let mut k: usize = 0;
    while k < stack.len()
        invariant
            k <= stack.len(),
            forall|i: int| 0 <= i < k ==> stack[i] != q,
        decreases stack.len() - k,
    {
        if stack[k] == q {
            return true;
        }
        k += 1;
    }
    false
}

fn wants(n: usize, bonds: &Vec<Bond>, Ghost(g): Ghost<Graph>) -> (w: Vec<usize>)
    requires
        g.atoms.len() == n,
        g.bonds == bonds@,
        g.wf(),
    ensures
        w.len() == n,
        forall|q: int| 0 <= q < n ==> #[trigger] w[q] == last_want(g, q as usize, bonds.len() as int),
{
    let mut w: Vec<usize> = Vec::new();
    let mut i: usize = 0;
    while i < n
        invariant
            i <= n,
            w.len() == i,
            forall|q: int| 0 <= q < i ==> w[q] == 0,
        decreases n - i,
    {
        w.push(0);
        i += 1;
    }
    let mut j: usize = 0;
    while j < bonds.len()
        invariant
            j <= bonds.len(),
            g.atoms.len() == n,
            g.bonds == bonds@,
            g.wf(),
            w.len() == n,
            forall|q: int| 0 <= q < n ==> #[trigger] w[q] == last_want(g, q as usize, j as int),
        decreases bonds.len() - j,
    {
        let b = bonds[j];
        assert(g.bonds[j as int].begin < n);
        if j == 0 || bonds[j - 1].end != b.end {
            w.set(b.begin, b.end);
        }
        j += 1;
    }
    w
}

/// Settles, for a graph whose bonds are in writing order, which bonds are written by
/// putting atoms side by side, where branches open and close, and which label each
/// ring closure gets.
pub(crate) fn lay_out(n: usize, bonds: &Vec<Bond>, Ghost(g): Ghost<Graph>) -> (l: Layout)
    requires
        g.atoms.len() == n,
        g.bonds == bonds@,
        ordered(g),
    ensures
        l.fits(g),
{
    let w = wants(n, bonds, Ghost(g));
    let m = bonds.len();
    let mut starts: Vec<usize> = Vec::new();
    let mut tree: Vec<bool> = Vec::new();
    let mut branch: Vec<bool> = Vec::new();
    let mut pops: Vec<usize> = Vec::new();
    let mut tree_bond: Vec<bool> = Vec::new();
    let mut prev: Option<usize> = None;
    let mut stack: Vec<usize> = Vec::new();
    let mut nb: usize = 0;
    let mut i: usize = 0;
    while i < n
        invariant
            i <= n,
            m == bonds.len(),
            g.atoms.len() == n,
            g.bonds == bonds@,
            ordered(g),
            w.len() == n,
            forall|q: int| 0 <= q < n ==> #[trigger] w[q] == last_want(g, q as usize, m as int),
            plan(g, i as int) == (Plan { prev, stack: stack@, next: nb as int }),
            nb <= m,
            starts.len() == i,
            tree.len() == i,
            branch.len() == i,
            pops.len() == i,
            tree_bond.len() == nb,
            forall|k: int| 0 <= k < i ==> #[trigger] starts[k] == plan(g, k).next,
            forall|k: int| 0 <= k < i ==> #[trigger] tree[k] == takes_tree(g, plan(g, k), k as usize),
            forall|k: int| 0 <= k < i ==> #[trigger] branch[k] == takes_branch(g, plan(g, k), k as usize),
            forall|k: int|
                0 <= k < i ==> #[trigger] pops[k] == plan(g, k).stack.len() - closed_stack(
                    g,
                    plan(g, k),
                    k as usize,
                ).len(),
            forall|j: int| 0 <= j < nb ==> #[trigger] tree_bond[j] == is_tree_bond(g, j),
        decreases n - i,
    {
        let ghost p = plan(g, i as int);
        proof {
            lemma_plan_next(g, i as int);
            lemma_plan_next(g, i as int + 1);
            lemma_block_end(g, nb as int, i);
        }
        starts.push(nb);
        let t = nb < m && bonds[nb].end == i && (prev == Some(bonds[nb].begin) || stack_holds(
            &stack,
            bonds[nb].begin,
        ));
        tree.push(t);
        let before = stack.len();
        let mut opened = false;
        let mut popped: usize = 0;
        if t {
            let q = bonds[nb].begin;
            proof {
                lemma_unwound_shorter(p.stack, p.prev, q);
            }
            while prev != Some(q) && stack.len() > 0
                invariant
                    unwound(stack@, prev, q) == unwound(p.stack, p.prev, q),
                    popped + stack.len() == before,
                decreases stack.len(),
            {
                let top = stack.pop().unwrap();
                prev = Some(top);
                popped += 1;
            }
            assert(g.bonds[nb as int].begin < n);
            if w[q] > i {
                stack.push(q);
                opened = true;
            }
        } else {
            stack = Vec::new();
            popped = before;
        }
        branch.push(opened);
        pops.push(popped);
        let first = nb;
        while nb < m && bonds[nb].end == i
            invariant
                first <= nb <= m,
                m == bonds.len(),
                g.bonds == bonds@,
                ordered(g),
                i < n,
                n == g.atoms.len(),
                p == plan(g, i as int),
                p.next == first,
                block_end(g, first as int, i) == block_end(g, nb as int, i),
                tree_bond.len() == nb,
                t == takes_tree(g, p, i),
                forall|j: int| first <= j < nb ==> (#[trigger] g.bonds[j]).end == i,
                forall|j: int| 0 <= j < nb ==> #[trigger] tree_bond[j] == is_tree_bond(g, j),
            decreases m - nb,
        {
            tree_bond.push(t && nb == first);
            nb += 1;
        }
        prev = Some(i);
        i += 1;
    }
    proof {
        lemma_plan_next(g, n as int);
    }
    starts.push(nb);
    pops.push(stack.len());
    let mut labels: Vec<u64> = Vec::new();
    let mut count: u64 = 0;
    let mut j: usize = 0;
    while j < m
        invariant
            j <= m,
            m == tree_bond.len(),
            m == g.bonds.len(),
            labels.len() == j,
            count == closures_upto(g, j as int),
            count <= j,
            forall|k: int| 0 <= k < m ==> #[trigger] tree_bond[k] == is_tree_bond(g, k),
            forall|k: int| 0 <= k < j ==> #[trigger] labels[k] == closures_upto(g, k + 1),
        decreases m - j,
    {
        if !tree_bond[j] {
            count += 1;
        }
        labels.push(count);
        j += 1;
    }
    Layout { starts, tree, branch, pops, tree_bond, labels }
}

} // verus!
