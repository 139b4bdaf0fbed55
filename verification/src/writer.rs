use vstd::prelude::*;
use crate::atom::{bare_aromatic, is_bare_aromatic, is_organic, organic, Atom, Chirality};
use crate::bond::Bond;
use crate::graph::Graph;
use crate::lex::Token;
use crate::parser::default_order;
use crate::plan::{
    closures_upto,
    is_tree_bond,
    lay_out,
    lemma_plan_next,
    ordered,
    plan,
    takes_branch,
    takes_tree,
    closed_stack,
    Layout,
};
use crate::sanitize::{inferred_count, tally};
use crate::unlex::{unlex_all, write_token};

verus! {

/// Whether atom `i` is written without brackets: its element allows it, the record holds
/// nothing that only brackets can show, and a hydrogen count in it is the one that a
/// reader infers.
pub open spec fn is_bare(g: Graph, i: int) -> bool {
    let a = g.atoms[i];
    &&& is_organic(a.element)
    &&& a.charge == 0
    &&& a.isotope is None
    &&& a.chirality == Chirality::Unspecified
    &&& a.aromatic ==> is_bare_aromatic(a.element)
    &&& a.hydrogens matches Some(h) ==> h == g.inferred_hydrogens(i)
}

/// Atom `i` as the text shows it: without the marks that are derived from the bonds, and
/// without a hydrogen count where it is written without brackets.
pub open spec fn written_atom(g: Graph, i: int) -> Atom {
    Atom {
        hydrogens: if is_bare(g, i) {
            None
        } else {
            Some(
                match g.atoms[i].hydrogens {
                    Some(h) => h,
                    None => 0u8,
                },
            )
        },
        in_ring: false,
        ..g.atoms[i]
    }
}

/// The bond symbol before the second atom or label of bond `j`: none where the bond
/// has the order that a reader takes for granted.
pub open spec fn symbol_tokens(g: Graph, j: int) -> Seq<Token> {
    let b = g.bonds[j];
    if b.order != default_order(g.atoms[b.begin as int], g.atoms[b.end as int]) {
        seq![Token::Bond(b.order)]
    } else {
        Seq::empty()
    }
}

/// The label of the ring closure that bond `j` is written as: ring closures are
/// numbered from 1 in the order of their bonds.
pub open spec fn label_of(g: Graph, j: int) -> u64 {
    closures_upto(g, j + 1) as u64
}

/// What closes bond `j` at its second atom.
pub open spec fn closing_tokens(g: Graph, j: int) -> Seq<Token> {
    symbol_tokens(g, j).push(Token::Ring(label_of(g, j)))
}

/// What closes the bonds from `from` up to `to`.
pub open spec fn closings(g: Graph, from: int, to: int) -> Seq<Token>
    decreases to - from,
{
    if from >= to {
        Seq::empty()
    } else {
        closings(g, from, to - 1) + closing_tokens(g, to - 1)
    }
}

/// The labels behind atom `i` that open the ring closures among the first `k` bonds
/// that start at it.
pub open spec fn openings(g: Graph, i: usize, k: int) -> Seq<Token>
    decreases k,
{
    if k <= 0 {
        Seq::empty()
    } else if g.bonds[k - 1].begin == i && !is_tree_bond(g, k - 1) {
        openings(g, i, k - 1).push(Token::Ring(label_of(g, k - 1)))
    } else {
        openings(g, i, k - 1)
    }
}

pub open spec fn closes(k: int) -> Seq<Token> {
    Seq::new(k as nat, |x: int| Token::Close)
}

/// What is written before atom `i`: the brackets that close branches, a dot where the
/// atom is not bonded to what stands before it, the bracket that opens a branch, and
/// the symbol of the bond to the atom before it.
pub open spec fn lead_tokens(g: Graph, i: int) -> Seq<Token> {
    let p = plan(g, i);
    let t = takes_tree(g, p, i as usize);
    closes(p.stack.len() - closed_stack(g, p, i as usize).len()) + (if !t && i > 0 {
        seq![Token::Dot]
    } else {
        Seq::empty()
    }) + (if takes_branch(g, p, i as usize) {
        seq![Token::Open]
    } else {
        Seq::empty()
    }) + (if t {
        symbol_tokens(g, p.next)
    } else {
        Seq::empty()
    })
}

/// What is written for atom `i`: what leads to it, the atom, the ring closures that
/// end at it, and those that start at it.
pub open spec fn tokens_at(g: Graph, i: int) -> Seq<Token> {
    let p = plan(g, i);
    lead_tokens(g, i).push(Token::Atom(written_atom(g, i))) + closings(
        g,
        if takes_tree(g, p, i as usize) {
            p.next + 1
        } else {
            p.next
        },
        plan(g, i + 1).next,
    ) + openings(g, i as usize, g.bonds.len() as int)
}

pub open spec fn tokens_upto(g: Graph, i: int) -> Seq<Token>
    decreases i,
{
    if i <= 0 {
        Seq::empty()
    } else {
        tokens_upto(g, i - 1) + tokens_at(g, i - 1)
    }
}

/// The tokens of a graph whose bonds are in writing order.
pub open spec fn all_tokens(g: Graph) -> Seq<Token> {
    tokens_upto(g, g.atoms.len() as int) + closes(plan(g, g.atoms.len() as int).stack.len() as int)
}

/// The text of a graph whose bonds are in writing order.
pub open spec fn text_of(g: Graph) -> Seq<u8> {
    unlex_all(all_tokens(g))
}

fn token_atom(i: usize, atoms: &Vec<Atom>, bonds: &Vec<Bond>, Ghost(g): Ghost<Graph>) -> (a: Atom)
    requires
        g.atoms == atoms@,
        g.bonds == bonds@,
        i < atoms.len(),
    ensures
        a == written_atom(g, i as int),
{
    let old = atoms[i];
    let plain = organic(old.element) && old.charge == 0 && old.isotope.is_none() && old.chirality
        == Chirality::Unspecified && (!old.aromatic || bare_aromatic(old.element));
    let bare = plain && match old.hydrogens {
        None => true,
        Some(h) => {
            let t = tally(i, bonds, Ghost(g));
            h == inferred_count(&old, &t, Ghost(g), Ghost(i as int))
        },
    };
    Atom {
        element: old.element,
        charge: old.charge,
        isotope: old.isotope,
        hydrogens: if bare {
            None
        } else {
            Some(
                match old.hydrogens {
                    Some(h) => h,
                    None => 0,
                },
            )
        },
        aromatic: old.aromatic,
        in_ring: false,
        chirality: old.chirality,
    }
}

fn push_symbol(j: usize, atoms: &Vec<Atom>, bonds: &Vec<Bond>, out: &mut Vec<Token>, Ghost(g): Ghost<Graph>)
    requires
        g.atoms == atoms@,
        g.bonds == bonds@,
        g.wf(),
        j < bonds.len(),
    ensures
        final(out)@ == old(out)@ + symbol_tokens(g, j as int),
{
    let b = bonds[j];
    assert(g.bonds[j as int].begin < atoms.len() && g.bonds[j as int].end < atoms.len());
    let x = atoms[b.begin];
    let y = atoms[b.end];
    let usual = if x.aromatic && y.aromatic {
        crate::bond::BondOrder::Aromatic
    } else {
        crate::bond::BondOrder::Single
    };
    if b.order != usual {
        out.push(Token::Bond(b.order));
    }
    assert(out@ =~= old(out)@ + symbol_tokens(g, j as int));
}

fn push_closes(k: usize, out: &mut Vec<Token>)
    ensures
        final(out)@ == old(out)@ + closes(k as int),
{
    let mut c: usize = 0;
    while c < k
        invariant
            c <= k,
            out@ == old(out)@ + closes(c as int),
        decreases k - c,
    {
        out.push(Token::Close);
        c += 1;
        assert(out@ =~= old(out)@ + closes(c as int));
    }
}

fn push_lead(
    i: usize,
    atoms: &Vec<Atom>,
    bonds: &Vec<Bond>,
    l: &Layout,
    out: &mut Vec<Token>,
    Ghost(g): Ghost<Graph>,
)
    requires
        g == (Graph { atoms: atoms@, bonds: bonds@ }),
        ordered(g),
        l.fits(g),
        i < atoms.len(),
    ensures
        final(out)@ == old(out)@ + lead_tokens(g, i as int),
{
    proof {
        lemma_plan_next(g, i as int);
    }
    push_closes(l.pops[i], out);
    let t = l.tree[i];
    if !t && i > 0 {
        out.push(Token::Dot);
    }
    if l.branch[i] {
        out.push(Token::Open);
    }
    if t {
        push_symbol(l.starts[i], atoms, bonds, out, Ghost(g));
    }
    assert(out@ =~= old(out)@ + lead_tokens(g, i as int));
}

fn push_closings(
    from: usize,
    to: usize,
    atoms: &Vec<Atom>,
    bonds: &Vec<Bond>,
    l: &Layout,
    out: &mut Vec<Token>,
    Ghost(g): Ghost<Graph>,
)
    requires
        g == (Graph { atoms: atoms@, bonds: bonds@ }),
        ordered(g),
        l.fits(g),
        from <= to <= bonds.len(),
    ensures
        final(out)@ == old(out)@ + closings(g, from as int, to as int),
{
    let mut j: usize = from;
    assert(out@ =~= old(out)@ + closings(g, from as int, from as int));
    while j < to
        invariant
            from <= j <= to,
            to <= bonds.len(),
            g == (Graph { atoms: atoms@, bonds: bonds@ }),
            ordered(g),
            l.fits(g),
            out@ == old(out)@ + closings(g, from as int, j as int),
        decreases to - j,
    {
        let ghost before = out@;
        push_symbol(j, atoms, bonds, out, Ghost(g));
        out.push(Token::Ring(l.labels[j]));
        assert(out@ =~= before + closing_tokens(g, j as int));
        j += 1;
        assert(out@ =~= old(out)@ + closings(g, from as int, j as int));
    }
}

fn push_openings(i: usize, bonds: &Vec<Bond>, l: &Layout, out: &mut Vec<Token>, Ghost(g): Ghost<Graph>)
    requires
        g.bonds == bonds@,
        l.fits(g),
    ensures
        final(out)@ == old(out)@ + openings(g, i, bonds.len() as int),
{
    let mut j: usize = 0;
    assert(out@ =~= old(out)@ + openings(g, i, 0));
    while j < bonds.len()
        invariant
            j <= bonds.len(),
            g.bonds == bonds@,
            l.fits(g),
            out@ == old(out)@ + openings(g, i, j as int),
        decreases bonds.len() - j,
    {
        if bonds[j].begin == i && !l.tree_bond[j] {
            out.push(Token::Ring(l.labels[j]));
        }
        j += 1;
        assert(out@ =~= old(out)@ + openings(g, i, j as int));
    }
}

/// The tokens of a graph whose bonds are in writing order.
pub(crate) fn emit(atoms: &Vec<Atom>, bonds: &Vec<Bond>) -> (out: Vec<Token>)
    requires
        ordered(Graph { atoms: atoms@, bonds: bonds@ }),
    ensures
        out@ == all_tokens(Graph { atoms: atoms@, bonds: bonds@ }),
{
    let ghost g = Graph { atoms: atoms@, bonds: bonds@ };
    let n = atoms.len();
    let l = lay_out(n, bonds, Ghost(g));
    let mut out: Vec<Token> = Vec::new();
    let mut i: usize = 0;
    while i < n
        invariant
            i <= n,
            n == atoms.len(),
            g == (Graph { atoms: atoms@, bonds: bonds@ }),
            ordered(g),
            l.fits(g),
            out@ == tokens_upto(g, i as int),
        decreases n - i,
    {
        let ghost base = out@;
        proof {
            lemma_plan_next(g, i as int);
            lemma_plan_next(g, i as int + 1);
            crate::plan::lemma_block_end(g, plan(g, i as int).next, i);
        }
        push_lead(i, atoms, bonds, &l, &mut out, Ghost(g));
        let a = token_atom(i, atoms, bonds, Ghost(g));
        out.push(Token::Atom(a));
        let start = if l.tree[i] {
            l.starts[i] + 1
        } else {
            l.starts[i]
        };
        push_closings(start, l.starts[i + 1], atoms, bonds, &l, &mut out, Ghost(g));
        push_openings(i, bonds, &l, &mut out, Ghost(g));
        assert(out@ =~= base + tokens_at(g, i as int));
        i += 1;
    }
    push_closes(l.pops[n], &mut out);
    out
}

/// The tokens as text.
pub(crate) fn render(tokens: &Vec<Token>) -> (out: Vec<u8>)
    ensures
        out@ == unlex_all(tokens@),
{
    let mut out: Vec<u8> = Vec::new();
    let mut i: usize = 0;
    while i < tokens.len()
        invariant
            i <= tokens.len(),
            out@ == unlex_all(tokens@.take(i as int)),
        decreases tokens.len() - i,
    {
        write_token(&tokens[i], &mut out);
        proof {
            assert(tokens@.take(i + 1).drop_last() =~= tokens@.take(i as int));
        }
        i += 1;
    }
    assert(tokens@.take(tokens.len() as int) =~= tokens@);
    out
}

} // verus!
