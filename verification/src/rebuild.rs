use vstd::prelude::*;
use crate::bond::Bond;
use crate::graph::Graph;
use crate::lex::Token;
use crate::parser::{find_label, lemma_find_label, new_bond, BuildState, RingOpen};
use crate::parser::parse_spec;
use crate::plan::{
    closed_stack,
    closures_upto,
    is_tree_bond,
    lemma_block_end,
    lemma_plan_next,
    ordered,
    plan,
    takes_branch,
    takes_tree,
    unwound,
};
use crate::reread::{all_ok, lemma_run_tokens, lemma_steps_join, lemma_steps_one, steps};
use crate::writer::{
    all_tokens,
    closes,
    closing_tokens,
    closings,
    label_of,
    lead_tokens,
    openings,
    symbol_tokens,
    text_of,
    tokens_at,
    tokens_upto,
    written_atom,
};

verus! {

/// Bond `j` as the text shows it: without the marks that are derived.
pub open spec fn written_bond(g: Graph, j: int) -> Bond {
    new_bond(g.bonds[j].begin, g.bonds[j].end, g.bonds[j].order)
}

/// The graph as its text shows it: every atom and bond without the marks that are
/// derived, and without a hydrogen count where the atom is written without brackets.
pub open spec fn as_written(g: Graph) -> Graph {
    Graph {
        atoms: Seq::new(g.atoms.len(), |i: int| written_atom(g, i)),
        bonds: Seq::new(g.bonds.len(), |j: int| written_bond(g, j)),
    }
}

/// The graph is no larger than a machine can hold.
pub open spec fn fits(g: Graph) -> bool {
    g.atoms.len() <= usize::MAX && g.bonds.len() <= usize::MAX
}

/// What a reader keeps of the ring closure that stands for bond `j` while it is open.
pub open spec fn entry(g: Graph, j: int) -> RingOpen {
    RingOpen { label: label_of(g, j), atom: g.bonds[j].begin, order: None }
}

/// Bond `j` is written as a ring closure that is open: its label stands behind an atom
/// below `upto`, or behind atom `upto` itself among the bonds below `k`, and the bond
/// is not among those below `from`, which are closed.
pub open spec fn is_open(g: Graph, j: int, upto: int, k: int, from: int) -> bool {
    from <= j < g.bonds.len() && !is_tree_bond(g, j) && (g.bonds[j].begin < upto || (g.bonds[j].begin
        == upto && j < k))
}

/// The list holds the ring closures that are open, each once.
pub open spec fn pending(g: Graph, open: Seq<RingOpen>, upto: int, k: int, from: int) -> bool {
    &&& forall|x: int|
        0 <= x < open.len() ==> exists|j: int| is_open(g, j, upto, k, from) && #[trigger] entry(g, j)
            == #[trigger] open[x]
    &&& forall|j: int| is_open(g, j, upto, k, from) ==> open.contains(#[trigger] entry(g, j))
    &&& forall|x: int, y: int|
        0 <= x < open.len() && 0 <= y < open.len() && x != y ==> (#[trigger] open[x]).label != (
        #[trigger] open[y]).label
}

proof fn lemma_closures_grow(g: Graph, a: int, b: int)
    requires
        0 <= a <= b,
    ensures
        0 <= closures_upto(g, a) <= closures_upto(g, b) <= b,
    decreases b,
{
    if a < b {
        lemma_closures_grow(g, a, b - 1);
    } else if b > 0 {
        lemma_closures_grow(g, 0, b - 1);
        lemma_closures_grow(g, b - 1, b - 1);
    }
}

/// Two ring closures have different labels.
proof fn lemma_labels_differ(g: Graph, j1: int, j2: int)
    requires
        fits(g),
        0 <= j1 < j2 < g.bonds.len(),
        !is_tree_bond(g, j2),
    ensures
        label_of(g, j1) < label_of(g, j2),
{
    lemma_closures_grow(g, j1 + 1, j2);
    lemma_closures_grow(g, j2 + 1, j2 + 1);
}

pub proof fn lemma_closes(st: BuildState, k: int)
    requires
        0 <= k <= st.stack.len(),
        st.bond is None,
    ensures
        steps(st, closes(k)) == Some(
            BuildState {
                prev: if k > 0 {
                    Some(st.stack[st.stack.len() - k])
                } else {
                    st.prev
                },
                stack: st.stack.take(st.stack.len() - k),
                ..st
            },
        ),
    decreases k,
{
    if k == 0 {
        assert(st.stack.take(st.stack.len() as int) =~= st.stack);
    } else {
        lemma_closes(st, k - 1);
        assert(closes(k).drop_last() =~= closes(k - 1));
        assert(closes(k).last() == Token::Close);
        let mid = steps(st, closes(k - 1)).unwrap();
        assert(mid.stack.drop_last() =~= st.stack.take(st.stack.len() - k));
    }
}

pub proof fn lemma_unwound(stack: Seq<usize>, prev: Option<usize>, q: usize)
    ensures
        unwound(stack, prev, q).len() <= stack.len(),
        unwound(stack, prev, q) == stack.take(unwound(stack, prev, q).len() as int),
        prev == Some(q) ==> unwound(stack, prev, q).len() == stack.len(),
        prev != Some(q) && stack.contains(q) ==> unwound(stack, prev, q).len() < stack.len() && stack[unwound(
            stack,
            prev,
            q,
        ).len() as int] == q,
    decreases stack.len(),
{
    if prev == Some(q) || stack.len() == 0 {
        assert(stack.take(stack.len() as int) =~= stack);
    } else {
        let rest = stack.drop_last();
        lemma_unwound(rest, Some(stack.last()), q);
        let u = unwound(rest, Some(stack.last()), q);
        assert(u =~= stack.take(u.len() as int));
        if stack.contains(q) && stack.last() != q {
            let x = stack.index_of(q);
            assert(rest[x] == q);
        }
    }
}

/// Closing the ring closure of bond `j` takes its entry off the list and leaves the
/// others.
proof fn lemma_close_entry(g: Graph, open: Seq<RingOpen>, upto: int, j: int)
    requires
        fits(g),
        0 <= j,
        pending(g, open, upto, 0, j),
        is_open(g, j, upto, 0, j),
    ensures
        find_label(open, label_of(g, j), 0) matches Some(x) && open[x] == entry(g, j) && pending(
            g,
            open.remove(x),
            upto,
            0,
            j + 1,
        ),
{
    let e = entry(g, j);
    assert(open.contains(e));
    let at = open.index_of(e);
    lemma_find_label(open, e.label, 0);
    let x = find_label(open, e.label, 0).unwrap();
    assert(x == at);
    let rest = open.remove(x);
    assert forall|y: int| 0 <= y < rest.len() implies exists|jj: int|
        is_open(g, jj, upto, 0, j + 1) && #[trigger] entry(g, jj) == #[trigger] rest[y] by {
        let old_y = if y < x {
            y
        } else {
            y + 1
        };
        assert(rest[y] == open[old_y]);
        let jj = choose|jj: int| is_open(g, jj, upto, 0, j) && #[trigger] entry(g, jj) == open[old_y];
        assert(open[old_y].label != open[x].label);
        assert(jj != j);
        assert(is_open(g, jj, upto, 0, j + 1) && entry(g, jj) == rest[y]);
    }
    assert forall|jj: int| is_open(g, jj, upto, 0, j + 1) implies rest.contains(
        #[trigger] entry(g, jj),
    ) by {
        assert(is_open(g, jj, upto, 0, j));
        let y = open.index_of(entry(g, jj));
        lemma_labels_differ(g, j, jj);
        assert(y != x);
        if y < x {
            assert(rest[y] == entry(g, jj));
        } else {
            assert(rest[y - 1] == entry(g, jj));
        }
    }
    assert forall|a: int, b: int| 0 <= a < rest.len() && 0 <= b < rest.len() && a != b implies (
    #[trigger] rest[a]).label != (#[trigger] rest[b]).label by {
        let oa = if a < x {
            a
        } else {
            a + 1
        };
        let ob = if b < x {
            b
        } else {
            b + 1
        };
        assert(rest[a] == open[oa] && rest[b] == open[ob]);
    }
}

/// Opening the ring closure of bond `j` behind atom `upto` puts its entry on the list.
proof fn lemma_open_entry(g: Graph, open: Seq<RingOpen>, upto: int, j: int, from: int)
    requires
        fits(g),
        pending(g, open, upto, j, from),
        0 <= from <= j < g.bonds.len(),
        g.bonds[j].begin == upto,
        !is_tree_bond(g, j),
    ensures
        find_label(open, label_of(g, j), 0) is None,
        pending(g, open.push(entry(g, j)), upto, j + 1, from),
{
    lemma_find_label(open, label_of(g, j), 0);
    assert forall|x: int| 0 <= x < open.len() implies (#[trigger] open[x]).label != label_of(g, j) by {
        let jj = choose|jj: int| is_open(g, jj, upto, j, from) && #[trigger] entry(g, jj) == open[x];
        if jj < j {
            lemma_labels_differ(g, jj, j);
        } else {
            lemma_labels_differ(g, j, jj);
        }
    }
    let more = open.push(entry(g, j));
    assert forall|x: int| 0 <= x < more.len() implies exists|jj: int|
        is_open(g, jj, upto, j + 1, from) && #[trigger] entry(g, jj) == #[trigger] more[x] by {
        if x < open.len() {
            let jj = choose|jj: int| is_open(g, jj, upto, j, from) && #[trigger] entry(g, jj) == open[x];
            assert(is_open(g, jj, upto, j + 1, from) && entry(g, jj) == more[x]);
        } else {
            assert(is_open(g, j, upto, j + 1, from) && entry(g, j) == more[x]);
        }
    }
    assert forall|jj: int| is_open(g, jj, upto, j + 1, from) implies more.contains(
        #[trigger] entry(g, jj),
    ) by {
        if jj == j {
            assert(more[open.len() as int] == entry(g, j));
        } else {
            assert(is_open(g, jj, upto, j, from));
            let y = open.index_of(entry(g, jj));
            assert(more[y] == entry(g, jj));
        }
    }
}

/// What a reader holds after the first `atoms` atoms and `bonds` bonds of the graph.
pub open spec fn reaches(
    g: Graph,
    st: BuildState,
    atoms: int,
    bonds: int,
    prev: Option<usize>,
    stack: Seq<usize>,
    upto: int,
    k: int,
) -> bool {
    &&& st.graph.atoms == as_written(g).atoms.take(atoms)
    &&& st.graph.bonds == as_written(g).bonds.take(bonds)
    &&& st.prev == prev
    &&& st.stack == stack
    &&& st.bond is None
    &&& pending(g, st.open, upto, k, bonds)
}

/// The first bond that is closed behind atom `i`.
pub open spec fn first_closing(g: Graph, i: int) -> int {
    if takes_tree(g, plan(g, i), i as usize) {
        plan(g, i).next + 1
    } else {
        plan(g, i).next
    }
}

/// The bond symbol that waits for atom `i`.
pub open spec fn waiting_bond(g: Graph, i: int) -> Option<crate::bond::BondOrder> {
    let p = plan(g, i);
    if takes_tree(g, p, i as usize) && symbol_tokens(g, p.next).len() > 0 {
        Some(g.bonds[p.next].order)
    } else {
        None
    }
}

proof fn lemma_steps_none(st: BuildState)
    ensures
        steps(st, Seq::<Token>::empty()) == Some(st),
{
}

proof fn lemma_lead(g: Graph, i: int, st: BuildState)
    requires
        ordered(g),
        fits(g),
        0 <= i < g.atoms.len(),
        st.prev == plan(g, i).prev,
        st.stack == plan(g, i).stack,
        st.bond is None,
    ensures
        steps(st, lead_tokens(g, i)) == Some(
            BuildState {
                prev: if takes_tree(g, plan(g, i), i as usize) {
                    Some(g.bonds[plan(g, i).next].begin)
                } else {
                    None
                },
                stack: plan(g, i + 1).stack,
                bond: waiting_bond(g, i),
                ..st
            },
        ),
{
    let p = plan(g, i);
    let t = takes_tree(g, p, i as usize);
    let cs = closed_stack(g, p, i as usize);
    let k = p.stack.len() - cs.len();
    let dot = if !t && i > 0 {
        seq![Token::Dot]
    } else {
        Seq::<Token>::empty()
    };
    let open = if takes_branch(g, p, i as usize) {
        seq![Token::Open]
    } else {
        Seq::<Token>::empty()
    };
    let sym = if t {
        symbol_tokens(g, p.next)
    } else {
        Seq::<Token>::empty()
    };
    if t {
        lemma_unwound(p.stack, p.prev, g.bonds[p.next].begin);
    }
    lemma_closes(st, k);
    let s1 = steps(st, closes(k)).unwrap();
    assert(s1.stack =~= cs);
    lemma_steps_join(st, closes(k), dot);
    lemma_steps_one(s1, Token::Dot);
    lemma_steps_none(s1);
    let s2 = steps(st, closes(k) + dot).unwrap();
    lemma_steps_join(st, closes(k) + dot, open);
    lemma_steps_one(s2, Token::Open);
    lemma_steps_none(s2);
    let s3 = steps(st, closes(k) + dot + open).unwrap();
    lemma_steps_join(st, closes(k) + dot + open, sym);
    lemma_steps_none(s3);
    if t && symbol_tokens(g, p.next).len() > 0 {
        assert(sym =~= seq![Token::Bond(g.bonds[p.next].order)]);
        lemma_steps_one(s3, Token::Bond(g.bonds[p.next].order));
    }
    assert(lead_tokens(g, i) == closes(k) + dot + open + sym);
}

proof fn lemma_atom_phase(g: Graph, i: int, st: BuildState)
    requires
        ordered(g),
        fits(g),
        0 <= i < g.atoms.len(),
        reaches(g, st, i, plan(g, i).next, plan(g, i).prev, plan(g, i).stack, i, 0),
    ensures
        steps(st, lead_tokens(g, i).push(Token::Atom(written_atom(g, i)))) matches Some(s2) && reaches(
            g,
            s2,
            i + 1,
            first_closing(g, i),
            Some(i as usize),
            plan(g, i + 1).stack,
            i,
            0,
        ),
{
    let p = plan(g, i);
    let t = takes_tree(g, p, i as usize);
    let a = written_atom(g, i);
    let lead = lead_tokens(g, i);
    lemma_lead(g, i, st);
    lemma_plan_next(g, i);
    let s1 = steps(st, lead).unwrap();
    assert(lead.push(Token::Atom(a)).drop_last() =~= lead);
    assert(lead.push(Token::Atom(a)).last() == Token::Atom(a));
    let w = as_written(g);
    assert(w.atoms.take(i).push(a) =~= w.atoms.take(i + 1));
    if t {
        let j = p.next;
        let q = g.bonds[j].begin;
        assert(g.bonds[j].begin < g.bonds[j].end);
        assert(s1.graph.atoms[q as int] == written_atom(g, q as int));
        assert(w.bonds.take(j).push(written_bond(g, j)) =~= w.bonds.take(j + 1));
        assert(is_tree_bond(g, j));
        let s2 = s1.on_atom(a).unwrap();
        assert(s2.graph.bonds =~= w.bonds.take(j + 1));
        assert(pending(g, st.open, i, 0, j + 1)) by {
            assert forall|x: int| 0 <= x < st.open.len() implies exists|jj: int|
                is_open(g, jj, i, 0, j + 1) && #[trigger] entry(g, jj) == #[trigger] st.open[x] by {
                let jj = choose|jj: int| is_open(g, jj, i, 0, j) && #[trigger] entry(g, jj) == st.open[x];
                assert(is_open(g, jj, i, 0, j + 1) && entry(g, jj) == st.open[x]);
            }
            assert forall|jj: int| is_open(g, jj, i, 0, j + 1) implies st.open.contains(
                #[trigger] entry(g, jj),
            ) by {
                assert(is_open(g, jj, i, 0, j));
            }
        }
    }
}

proof fn lemma_closing_one(g: Graph, i: int, j: int, st: BuildState, stack: Seq<usize>)
    requires
        ordered(g),
        fits(g),
        0 <= i < g.atoms.len(),
        first_closing(g, i) <= j < plan(g, i + 1).next,
        reaches(g, st, i + 1, j, Some(i as usize), stack, i, 0),
    ensures
        steps(st, closing_tokens(g, j)) matches Some(s2) && reaches(
            g,
            s2,
            i + 1,
            j + 1,
            Some(i as usize),
            stack,
            i,
            0,
        ),
{
    let p = plan(g, i);
    lemma_plan_next(g, i);
    lemma_plan_next(g, i + 1);
    lemma_block_end(g, p.next, i as usize);
    assert(g.bonds[j].end == i);
    assert(g.bonds[j].begin < g.bonds[j].end);
    assert(!is_tree_bond(g, j));
    assert(is_open(g, j, i, 0, j));
    lemma_close_entry(g, st.open, i, j);
    let sym = symbol_tokens(g, j);
    let ring = Token::Ring(label_of(g, j));
    assert(sym.push(ring).drop_last() =~= sym);
    assert(sym.push(ring).last() == ring);
    lemma_steps_none(st);
    if sym.len() > 0 {
        assert(sym =~= seq![Token::Bond(g.bonds[j].order)]);
        lemma_steps_one(st, Token::Bond(g.bonds[j].order));
    }
    let s1 = steps(st, sym).unwrap();
    let q = g.bonds[j].begin;
    let w = as_written(g);
    assert(s1.graph.atoms[q as int] == written_atom(g, q as int));
    assert(s1.graph.atoms[i] == written_atom(g, i));
    assert(w.bonds.take(j).push(written_bond(g, j)) =~= w.bonds.take(j + 1));
    let s2 = s1.on_ring(label_of(g, j)).unwrap();
    assert(s2.graph.bonds =~= w.bonds.take(j + 1));
}

proof fn lemma_closings(g: Graph, i: int, from: int, to: int, st: BuildState, stack: Seq<usize>)
    requires
        ordered(g),
        fits(g),
        0 <= i < g.atoms.len(),
        first_closing(g, i) <= from <= to <= plan(g, i + 1).next,
        reaches(g, st, i + 1, from, Some(i as usize), stack, i, 0),
    ensures
        steps(st, closings(g, from, to)) matches Some(s2) && reaches(
            g,
            s2,
            i + 1,
            to,
            Some(i as usize),
            stack,
            i,
            0,
        ),
    decreases to - from,
{
    if from < to {
        lemma_closings(g, i, from, to - 1, st, stack);
        let s1 = steps(st, closings(g, from, to - 1)).unwrap();
        lemma_closing_one(g, i, to - 1, s1, stack);
        lemma_steps_join(st, closings(g, from, to - 1), closing_tokens(g, to - 1));
    }
}

proof fn lemma_openings(g: Graph, i: int, k: int, st: BuildState, stack: Seq<usize>)
    requires
        ordered(g),
        fits(g),
        0 <= i < g.atoms.len(),
        0 <= k <= g.bonds.len(),
        reaches(g, st, i + 1, plan(g, i + 1).next, Some(i as usize), stack, i, 0),
    ensures
        steps(st, openings(g, i as usize, k)) matches Some(s2) && reaches(
            g,
            s2,
            i + 1,
            plan(g, i + 1).next,
            Some(i as usize),
            stack,
            i,
            k,
        ),
    decreases k,
{
    let e = plan(g, i + 1).next;
    if k > 0 {
        lemma_openings(g, i, k - 1, st, stack);
        let s1 = steps(st, openings(g, i as usize, k - 1)).unwrap();
        let j = k - 1;
        lemma_plan_next(g, i + 1);
        if g.bonds[j].begin == i && !is_tree_bond(g, j) {
            assert(g.bonds[j].begin < g.bonds[j].end);
            assert(e <= j);
            lemma_open_entry(g, s1.open, i, j, e);
            let ring = Token::Ring(label_of(g, j));
            let before = openings(g, i as usize, k - 1);
            assert(before.push(ring).drop_last() =~= before);
            assert(before.push(ring).last() == ring);
        } else {
            assert(pending(g, s1.open, i, k, e)) by {
                assert forall|x: int| 0 <= x < s1.open.len() implies exists|jj: int|
                    is_open(g, jj, i, k, e) && #[trigger] entry(g, jj) == #[trigger] s1.open[x] by {
                    let jj = choose|jj: int|
                        is_open(g, jj, i, k - 1, e) && #[trigger] entry(g, jj) == s1.open[x];
                    assert(is_open(g, jj, i, k, e) && entry(g, jj) == s1.open[x]);
                }
                assert forall|jj: int| is_open(g, jj, i, k, e) implies s1.open.contains(
                    #[trigger] entry(g, jj),
                ) by {
                    assert(is_open(g, jj, i, k - 1, e));
                }
            }
        }
    }
}

/// The ring closures that are open behind atom `a` are those that are open before
/// the next atom.
proof fn lemma_pending_next(g: Graph, open: Seq<RingOpen>, a: int, e: int)
    requires
        0 <= e,
        pending(g, open, a, g.bonds.len() as int, e),
    ensures
        pending(g, open, a + 1, 0, e),
{
    assert forall|x: int| 0 <= x < open.len() implies exists|jj: int|
        is_open(g, jj, a + 1, 0, e) && #[trigger] entry(g, jj) == #[trigger] open[x] by {
        let jj = choose|jj: int|
            is_open(g, jj, a, g.bonds.len() as int, e) && #[trigger] entry(g, jj) == open[x];
        assert(is_open(g, jj, a + 1, 0, e) && entry(g, jj) == open[x]);
    }
    assert forall|jj: int| is_open(g, jj, a + 1, 0, e) implies open.contains(#[trigger] entry(g, jj)) by {
        assert(is_open(g, jj, a, g.bonds.len() as int, e));
    }
}

/// What the tokens of atom `a` do to what a reader holds.
proof fn lemma_at(g: Graph, a: int, s0: BuildState)
    requires
        ordered(g),
        fits(g),
        0 <= a < g.atoms.len(),
        reaches(g, s0, a, plan(g, a).next, plan(g, a).prev, plan(g, a).stack, a, 0),
    ensures
        steps(s0, tokens_at(g, a)) matches Some(s3) && reaches(
            g,
            s3,
            a + 1,
            plan(g, a + 1).next,
            plan(g, a + 1).prev,
            plan(g, a + 1).stack,
            a + 1,
            0,
        ),
{
    let head = lead_tokens(g, a).push(Token::Atom(written_atom(g, a)));
    let e = plan(g, a + 1).next;
    let cl = closings(g, first_closing(g, a), e);
    let op = openings(g, a as usize, g.bonds.len() as int);
    let stack = plan(g, a + 1).stack;
    lemma_atom_phase(g, a, s0);
    let s1 = steps(s0, head).unwrap();
    lemma_plan_next(g, a);
    lemma_block_end(g, plan(g, a).next, a as usize);
    lemma_closings(g, a, first_closing(g, a), e, s1, stack);
    let s2 = steps(s1, cl).unwrap();
    lemma_openings(g, a, g.bonds.len() as int, s2, stack);
    let s3 = steps(s2, op).unwrap();
    lemma_steps_join(s0, head, cl);
    lemma_steps_join(s0, head + cl, op);
    lemma_plan_next(g, a + 1);
    lemma_pending_next(g, s3.open, a, e);
}

/// What a reader holds after the tokens of the first `i` atoms.
proof fn lemma_upto(g: Graph, i: int)
    requires
        ordered(g),
        fits(g),
        0 <= i <= g.atoms.len(),
    ensures
        steps(BuildState::init(), tokens_upto(g, i)) matches Some(st) && reaches(
            g,
            st,
            i,
            plan(g, i).next,
            plan(g, i).prev,
            plan(g, i).stack,
            i,
            0,
        ),
    decreases i,
{
    if i == 0 {
        let w = as_written(g);
        assert(w.atoms.take(0) =~= Seq::empty());
        assert(w.bonds.take(0) =~= Seq::empty());
    } else {
        lemma_upto(g, i - 1);
        let s0 = steps(BuildState::init(), tokens_upto(g, i - 1)).unwrap();
        lemma_at(g, i - 1, s0);
        lemma_steps_join(BuildState::init(), tokens_upto(g, i - 1), tokens_at(g, i - 1));
    }
}

proof fn lemma_ok_join(a: Seq<Token>, b: Seq<Token>)
    requires
        all_ok(a),
        all_ok(b),
    ensures
        all_ok(a + b),
{
    assert forall|k: int| 0 <= k < (a + b).len() implies crate::relex::token_ok(#[trigger] (a + b)[k]) by {
        if k < a.len() {
            assert((a + b)[k] == a[k]);
        } else {
            assert((a + b)[k] == b[k - a.len()]);
        }
    }
}

proof fn lemma_ok_closings(g: Graph, from: int, to: int)
    ensures
        all_ok(closings(g, from, to)),
    decreases to - from,
{
    if from < to {
        lemma_ok_closings(g, from, to - 1);
        lemma_ok_join(closings(g, from, to - 1), closing_tokens(g, to - 1));
    }
}

proof fn lemma_ok_openings(g: Graph, i: usize, k: int)
    ensures
        all_ok(openings(g, i, k)),
    decreases k,
{
    if k > 0 {
        lemma_ok_openings(g, i, k - 1);
    }
}

proof fn lemma_ok_upto(g: Graph, i: int)
    requires
        g.wf(),
        0 <= i <= g.atoms.len(),
    ensures
        all_ok(tokens_upto(g, i)),
    decreases i,
{
    if i > 0 {
        lemma_ok_upto(g, i - 1);
        let a = i - 1;
        assert(crate::atom::atom_ok(g.atoms[a]));
        let head = lead_tokens(g, a).push(Token::Atom(written_atom(g, a)));
        assert(all_ok(head));
        lemma_ok_closings(g, first_closing(g, a), plan(g, a + 1).next);
        lemma_ok_openings(g, a as usize, g.bonds.len() as int);
        lemma_ok_join(head, closings(g, first_closing(g, a), plan(g, a + 1).next));
        lemma_ok_join(
            head + closings(g, first_closing(g, a), plan(g, a + 1).next),
            openings(g, a as usize, g.bonds.len() as int),
        );
        lemma_ok_join(tokens_upto(g, a), tokens_at(g, a));
    }
}

/// Reading the text of a graph gives the graph back, as the text shows it: for every
/// graph whose atoms and bonds stand in writing order, the text that is written for it
/// is read without an error, as the same atoms in the same order with the same bonds
/// between them.
pub proof fn lemma_text_reads_back(g: Graph)
    requires
        ordered(g),
        fits(g),
    ensures
        parse_spec(text_of(g)) == Ok::<_, crate::error::ParseError>(as_written(g)),
{
    let n = g.atoms.len() as int;
    let m = g.bonds.len() as int;
    let init = BuildState::init();
    lemma_upto(g, n);
    lemma_plan_next(g, n);
    let s1 = steps(init, tokens_upto(g, n)).unwrap();
    let k = plan(g, n).stack.len() as int;
    lemma_closes(s1, k);
    lemma_steps_join(init, tokens_upto(g, n), closes(k));
    let s2 = steps(init, all_tokens(g)).unwrap();
    assert(s2.stack =~= Seq::<usize>::empty());
    assert(s2.open.len() == 0) by {
        if s2.open.len() > 0 {
            let j = choose|j: int| is_open(g, j, n, 0, m) && #[trigger] entry(g, j) == s2.open[0];
            assert(false);
        }
    }
    let w = as_written(g);
    assert(w.atoms.take(n) =~= w.atoms);
    assert(w.bonds.take(m) =~= w.bonds);
    assert(s2.finish() == Ok::<_, crate::error::ParseErrorKind>(w));
    lemma_ok_upto(g, n);
    lemma_ok_join(tokens_upto(g, n), closes(k));
    let pre = Seq::<u8>::empty();
    lemma_run_tokens(init, pre, all_tokens(g));
    assert(pre + text_of(g) =~= text_of(g));
}

} // verus!
