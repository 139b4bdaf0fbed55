use vstd::prelude::*;
use vstd::multiset::Multiset;
use vstd::seq_lib::{lemma_multiset_commutative, to_multiset_build};
use crate::blocks::{is_simple, lemma_relabeled_alike, lemma_same_relabeled};
use crate::bond::Bond;
use crate::canon::{
    bonds_at,
    bonds_upto,
    canonical,
    is_order,
    lemma_relabeled_ordered,
    lemma_writing_order,
    moved,
    put_bond,
    relabeled,
    writing_order,
};
use crate::error::ParseError;
use crate::parser::parse_spec;
use crate::rebuild::{as_written, fits, lemma_text_reads_back};
use crate::ro_mol::smiles_of;
use crate::fingerprint::fingerprint_of;
use crate::graph::Graph;
use crate::iso::same_graph;
use crate::ranks::ranks_of;
use crate::walks::{all_differ, lemma_same_writing_order};

verus! {

/// The bonds of a graph between the new indices of their atoms, in their old order.
pub open spec fn moved_bonds(g: Graph, order: Seq<usize>) -> Seq<Bond> {
    Seq::new(g.bonds.len(), |j: int| moved(g.bonds[j], order))
}

spec fn bag_at(g: Graph, order: Seq<usize>, i: int, k: int) -> Multiset<Bond>
    decreases k,
{
    if k <= 0 {
        Multiset::empty()
    } else if moved(g.bonds[k - 1], order).end == i {
        bag_at(g, order, i, k - 1).insert(moved(g.bonds[k - 1], order))
    } else {
        bag_at(g, order, i, k - 1)
    }
}

spec fn bag_below(g: Graph, order: Seq<usize>, i: int, k: int) -> Multiset<Bond>
    decreases k,
{
    if k <= 0 {
        Multiset::empty()
    } else if moved(g.bonds[k - 1], order).end < i {
        bag_below(g, order, i, k - 1).insert(moved(g.bonds[k - 1], order))
    } else {
        bag_below(g, order, i, k - 1)
    }
}

proof fn lemma_put_bond_bag(s: Seq<Bond>, b: Bond)
    ensures
        put_bond(s, b).to_multiset() == s.to_multiset().insert(b),
    decreases s.len(),
{
    if s.len() == 0 {
        assert(put_bond(s, b) =~= s.push(b));
        to_multiset_build(s, b);
    } else if s.last().begin >= b.begin {
        to_multiset_build(s, b);
    } else {
        let rest = s.drop_last();
        lemma_put_bond_bag(rest, b);
        to_multiset_build(put_bond(rest, b), s.last());
        to_multiset_build(rest, s.last());
        assert(rest.push(s.last()) =~= s);
        assert(rest.to_multiset().insert(b).insert(s.last()) =~= rest.to_multiset().insert(
            s.last(),
        ).insert(b));
    }
}

proof fn lemma_bonds_at_bag(g: Graph, order: Seq<usize>, i: int, k: int)
    ensures
        bonds_at(g, order, i, k).to_multiset() == bag_at(g, order, i, k),
    decreases k,
{
    if k <= 0 {
        assert(bonds_at(g, order, i, k).to_multiset() =~= Multiset::<Bond>::empty()) by {
            bonds_at(g, order, i, k).to_multiset_ensures();
        }
    } else {
        lemma_bonds_at_bag(g, order, i, k - 1);
        if moved(g.bonds[k - 1], order).end == i {
            lemma_put_bond_bag(bonds_at(g, order, i, k - 1), moved(g.bonds[k - 1], order));
        }
    }
}

proof fn lemma_bag_step(g: Graph, order: Seq<usize>, i: int, k: int)
    ensures
        bag_below(g, order, i + 1, k) == bag_below(g, order, i, k).add(bag_at(g, order, i, k)),
    decreases k,
{
    if k <= 0 {
        assert(bag_below(g, order, i + 1, k) =~= bag_below(g, order, i, k).add(bag_at(g, order, i, k)));
    } else {
        lemma_bag_step(g, order, i, k - 1);
        assert(bag_below(g, order, i + 1, k) =~= bag_below(g, order, i, k).add(bag_at(g, order, i, k)));
    }
}

proof fn lemma_bag_none(g: Graph, order: Seq<usize>, k: int)
    ensures
        bag_below(g, order, 0, k) == Multiset::<Bond>::empty(),
    decreases k,
{
    if k > 0 {
        lemma_bag_none(g, order, k - 1);
    }
}

proof fn lemma_bonds_upto_bag(g: Graph, order: Seq<usize>, i: int)
    requires
        0 <= i,
    ensures
        bonds_upto(g, order, i).to_multiset() == bag_below(g, order, i, g.bonds.len() as int),
    decreases i,
{
    let m = g.bonds.len() as int;
    if i == 0 {
        lemma_bag_none(g, order, m);
        bonds_upto(g, order, i).to_multiset_ensures();
        assert(bonds_upto(g, order, i).to_multiset() =~= Multiset::<Bond>::empty());
    } else {
        lemma_bonds_upto_bag(g, order, i - 1);
        lemma_bonds_at_bag(g, order, i - 1, m);
        lemma_multiset_commutative(bonds_upto(g, order, i - 1), bonds_at(g, order, i - 1, m));
        lemma_bag_step(g, order, i - 1, m);
    }
}

proof fn lemma_bag_all(g: Graph, order: Seq<usize>, k: int)
    requires
        g.wf(),
        is_order(order, g.atoms.len() as int),
        0 <= k <= g.bonds.len(),
    ensures
        bag_below(g, order, g.atoms.len() as int, k) == moved_bonds(g, order).take(k).to_multiset(),
    decreases k,
{
    let all = moved_bonds(g, order);
    if k == 0 {
        all.take(0).to_multiset_ensures();
        assert(all.take(0).to_multiset() =~= Multiset::<Bond>::empty());
    } else {
        lemma_bag_all(g, order, k - 1);
        let b = g.bonds[k - 1];
        assert(b.begin < g.atoms.len() && b.end < g.atoms.len());
        assert(order.contains(b.begin) && order.contains(b.end));
        assert(moved(b, order).end < g.atoms.len());
        assert(all.take(k) =~= all.take(k - 1).push(moved(b, order)));
        to_multiset_build(all.take(k - 1), moved(b, order));
    }
}

/// Putting the atoms of a graph in another order changes neither an atom nor a bond:
/// the atom at each new index is the atom that the order names for it, and the bonds
/// are the old bonds, each once, between the new indices of their atoms.
pub proof fn lemma_relabeled_is_same_graph(g: Graph, order: Seq<usize>)
    requires
        g.wf(),
        is_order(order, g.atoms.len() as int),
    ensures
        relabeled(g, order).atoms.len() == g.atoms.len(),
        forall|i: int|
            0 <= i < g.atoms.len() ==> #[trigger] relabeled(g, order).atoms[i] == g.atoms[order[i] as int],
        relabeled(g, order).bonds.to_multiset() == moved_bonds(g, order).to_multiset(),
        relabeled(g, order).bonds.len() == g.bonds.len(),
{
    let n = g.atoms.len() as int;
    let m = g.bonds.len() as int;
    lemma_bonds_upto_bag(g, order, n);
    lemma_bag_all(g, order, m);
    assert(moved_bonds(g, order).take(m) =~= moved_bonds(g, order));
    relabeled(g, order).bonds.to_multiset_ensures();
    moved_bonds(g, order).to_multiset_ensures();
}

/// Reading gives back what was written: for every graph, the canonical text is read
/// without an error, and what is read is the graph in writing order, as the text shows
/// it. With [`lemma_relabeled_is_same_graph`]: the atoms and the bonds that are read are
/// those of the graph, each once, under new indices.
pub proof fn lemma_canonical_text_reads_back(g: Graph)
    requires
        g.wf(),
        fits(g),
    ensures
        is_order(writing_order(g), g.atoms.len() as int),
        parse_spec(smiles_of(g)) == Ok::<_, ParseError>(as_written(canonical(g))),
{
    lemma_writing_order(g);
    lemma_relabeled_ordered(g, writing_order(g));
    lemma_relabeled_is_same_graph(g, writing_order(g));
    lemma_text_reads_back(canonical(g));
}

/// The canonical text does not depend on the order in which the atoms and the bonds of
/// a graph stand, where the ranking tells all atoms apart: two graphs that are the same
/// graph, with no two bonds between the same atoms and no two atoms of the same rank,
/// have the same text.
pub proof fn lemma_text_does_not_depend_on_order(g: Graph, h: Graph, pi: Seq<usize>)
    requires
        g.wf(),
        h.wf(),
        fits(g),
        same_graph(g, h, pi),
        is_simple(g),
        all_differ(ranks_of(g)),
    ensures
        canonical(h) == canonical(g),
        smiles_of(h) == smiles_of(g),
{
    crate::walks::lemma_simple_carries(g, h, pi);
    lemma_same_writing_order(g, h, pi);
    lemma_writing_order(g);
    lemma_writing_order(h);
    lemma_same_relabeled(g, h, pi, writing_order(h), writing_order(g));
}

/// The graph in writing order is written as the graph itself is: where the ranking
/// tells all atoms apart, putting the graph in writing order a second time changes
/// nothing, and the text stays the same.
pub proof fn lemma_writing_order_is_settled(g: Graph)
    requires
        g.wf(),
        fits(g),
        is_simple(g),
        all_differ(ranks_of(g)),
    ensures
        canonical(canonical(g)) == canonical(g),
        smiles_of(canonical(g)) == smiles_of(g),
{
    lemma_writing_order(g);
    lemma_relabeled_alike(g, writing_order(g));
    lemma_text_does_not_depend_on_order(g, canonical(g), writing_order(g));
}

/// A fingerprint is settled by the atoms and bonds of the molecule, the radius and the
/// size: two molecules with the same atoms and bonds have the same fingerprint.
pub proof fn lemma_fingerprint_is_settled(a: Graph, b: Graph, radius: u32, size: usize)
    requires
        a.atoms == b.atoms,
        a.bonds == b.bonds,
    ensures
        fingerprint_of(a, radius, size) == fingerprint_of(b, radius, size),
{
}

} // verus!
