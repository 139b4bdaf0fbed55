use vstd::prelude::*;
use crate::aswritten::{is_plain, lemma_written_is_enough};
use crate::blocks::{is_simple, lemma_relabeled_alike};
use crate::bond::BondStereo;
use crate::canon::{canonical, is_order, lemma_writing_order, moved, writing_order};
use crate::error::{MolError, SanitizeError};
use crate::graph::Graph;
use crate::iso::{alike, identity, lemma_identity};
use crate::relabel::{
    lemma_canonical_text_reads_back,
    lemma_relabeled_is_same_graph,
    lemma_writing_order_is_settled,
    moved_bonds,
};
use crate::lex::{lemma_lex_advances, lex_at, Token};
use crate::parser::{lemma_lexed_atom_ok, lemma_step_wf, parse_spec, BuildState};
use crate::ranks::ranks_of;
use crate::rebuild::fits;
use crate::ro_mol::{molecule_of, smiles_of};
use crate::sameorder::{lemma_sanitize_does_not_depend_on_order, lemma_simple_is_no_bad_bond};
use crate::sanitize::{lemma_sanitized_wf, sanitize_spec, sanitized};
use crate::settled::lemma_sanitized_is_settled;
use crate::walks::all_differ;

verus! {

/// No bond of the graph is marked with an arrangement.
pub open spec fn is_unmarked(g: Graph) -> bool {
    forall|j: int| 0 <= j < g.bonds.len() ==> (#[trigger] g.bonds[j]).stereo == BondStereo::Unspecified
}

/// A graph that is the same graph as `g` in the order of `c`, and has the bonds of `c`
/// between the same atoms, is `c`.
proof fn lemma_settled_in_order(g: Graph, c: Graph, sc: Graph, o: Seq<usize>)
    requires
        alike(g, c, o),
        alike(g, sc, o),
        is_simple(c),
        sc.bonds.len() == c.bonds.len(),
        forall|j: int| 0 <= j < c.bonds.len() ==> (#[trigger] c.bonds[j]).begin < c.bonds[j].end,
        forall|j: int|
            0 <= j < c.bonds.len() ==> (#[trigger] sc.bonds[j]).begin == c.bonds[j].begin && sc.bonds[j].end
                == c.bonds[j].end,
    ensures
        sc == c,
{
    let n = g.atoms.len() as int;
    let id = identity(n);
    lemma_identity(n);
    assert(sc.atoms =~= c.atoms) by {
        assert forall|i: int| 0 <= i < n implies sc.atoms[i] == c.atoms[i] by {
            assert(sc.atoms[i] == g.atoms[o[i] as int]);
            assert(c.atoms[i] == g.atoms[o[i] as int]);
        }
    }
    assert(moved_bonds(c, id) =~= c.bonds) by {
        assert forall|j: int| 0 <= j < c.bonds.len() implies moved_bonds(c, id)[j] == c.bonds[j] by {
            assert(c.bonds[j].begin < c.bonds[j].end && c.bonds[j].end < n);
        }
    }
    assert(moved_bonds(sc, id) =~= sc.bonds) by {
        assert forall|j: int| 0 <= j < sc.bonds.len() implies moved_bonds(sc, id)[j] == sc.bonds[j] by {
            assert(c.bonds[j].begin < c.bonds[j].end && c.bonds[j].end < n);
            assert(sc.bonds[j].begin == c.bonds[j].begin);
        }
    }
    sc.bonds.to_multiset_ensures();
    c.bonds.to_multiset_ensures();
    assert(sc.bonds =~= c.bonds) by {
        assert forall|j: int| 0 <= j < c.bonds.len() implies sc.bonds[j] == c.bonds[j] by {
            assert(sc.bonds.contains(sc.bonds[j]));
            assert(sc.bonds.to_multiset().count(sc.bonds[j]) > 0);
            assert(c.bonds.contains(sc.bonds[j]));
            let k = c.bonds.index_of(sc.bonds[j]);
            assert(c.bonds[k].begin == c.bonds[j].begin && c.bonds[k].end == c.bonds[j].end);
            if k < j {
                assert(!c.bonds[j].joins(c.bonds[k].begin as int, c.bonds[k].end as int));
            } else if j < k {
                assert(!c.bonds[k].joins(c.bonds[j].begin as int, c.bonds[j].end as int));
            }
        }
    }
}

/// Reading gives back what was written: the canonical text of a sanitized molecule is
/// read and sanitized without an error, and what comes out is the molecule in writing
/// order. By [`lemma_relabeled_is_same_graph`], that is the molecule itself: its atoms
/// and its bonds, each once, under new indices.
pub proof fn lemma_reading_gives_the_molecule_back(g: Graph, strict: bool)
    requires
        g.wf(),
        fits(g),
        is_plain(g),
        sanitize_spec(g, strict) == Ok::<_, SanitizeError>(g),
    ensures
        is_order(writing_order(g), g.atoms.len() as int),
        molecule_of(smiles_of(g), true, strict) == Ok::<_, MolError>(canonical(g)),
        is_simple(g),
{
    let n = g.atoms.len() as int;
    let o = writing_order(g);
    let c = canonical(g);
    lemma_simple_is_no_bad_bond(g);
    lemma_writing_order(g);
    lemma_relabeled_alike(g, o);
    lemma_relabeled_is_same_graph(g, o);
    crate::canon::lemma_relabeled_ordered(g, o);
    lemma_sanitize_does_not_depend_on_order(g, c, o, strict);
    let sc = sanitized(c);
    assert(sanitized(g) == g);
    lemma_settled_in_order(g, c, sc, o);
    assert(is_plain(c)) by {
        assert forall|i: int| 0 <= i < c.atoms.len() implies (#[trigger] c.atoms[i]).hydrogens is Some by {
            assert(o[i] < n);
            assert(c.atoms[i] == g.atoms[o[i] as int]);
        }
        c.bonds.to_multiset_ensures();
        moved_bonds(g, o).to_multiset_ensures();
        assert forall|j: int| 0 <= j < c.bonds.len() implies (#[trigger] c.bonds[j]).stereo
            == BondStereo::Unspecified by {
            assert(c.bonds.contains(c.bonds[j]));
            assert(c.bonds.to_multiset().count(c.bonds[j]) > 0);
            assert(moved_bonds(g, o).contains(c.bonds[j]));
            let k = moved_bonds(g, o).index_of(c.bonds[j]);
            assert(moved(g.bonds[k], o) == c.bonds[j]);
            assert(g.bonds[k].stereo == BondStereo::Unspecified);
        }
    }
    lemma_written_is_enough(c, strict);
    lemma_canonical_text_reads_back(g);
}

/// Writing again gives the same text: where the ranking tells all atoms of a sanitized
/// molecule apart, the molecule that is read from its canonical text is written as the
/// same text.
pub proof fn lemma_writing_again_gives_the_same_text(g: Graph, strict: bool)
    requires
        g.wf(),
        fits(g),
        is_plain(g),
        sanitize_spec(g, strict) == Ok::<_, SanitizeError>(g),
        all_differ(ranks_of(g)),
    ensures
        molecule_of(smiles_of(g), true, strict) matches Ok(m) && smiles_of(m) == smiles_of(g),
{
    lemma_reading_gives_the_molecule_back(g, strict);
    lemma_writing_order_is_settled(g);
}

/// What a text is read as, from a state that holds a graph, is a graph, no larger than
/// the text, with no bond marked.
proof fn lemma_run_is_graph(st: BuildState, s: Seq<u8>, i: int)
    requires
        st.wf(),
        0 <= i <= s.len() <= usize::MAX,
        st.graph.atoms.len() <= i,
        st.graph.bonds.len() <= i,
        is_unmarked(st.graph),
    ensures
        st.run(s, i) matches Ok(g) ==> g.wf() && g.atoms.len() <= s.len() && g.bonds.len() <= s.len()
            && is_unmarked(g),
    decreases s.len() - i,
{
    if i < s.len() {
        lemma_lex_advances(s, i);
        lemma_lexed_atom_ok(s, i);
        if let Ok((t, j)) = lex_at(s, i) {
            lemma_step_wf(st, t);
            if let Ok(next) = st.step(t) {
                lemma_step_is_small(st, t);
                lemma_run_is_graph(next, s, j);
            }
        }
    }
}

proof fn lemma_step_is_small(st: BuildState, t: Token)
    requires
        is_unmarked(st.graph),
    ensures
        st.step(t) matches Ok(next) ==> next.graph.atoms.len() <= st.graph.atoms.len() + 1
            && next.graph.bonds.len() <= st.graph.bonds.len() + 1 && is_unmarked(next.graph),
{
    if let Ok(next) = st.step(t) {
        assert forall|j: int| 0 <= j < next.graph.bonds.len() implies (#[trigger] next.graph.bonds[j]).stereo
            == BondStereo::Unspecified by {
            if j < st.graph.bonds.len() {
                assert(next.graph.bonds[j] == st.graph.bonds[j]);
            }
        }
    }
}

/// What is read from a text and sanitized is a molecule that sanitization leaves as it
/// is, with the hydrogens of every atom counted and no bond marked.
pub proof fn lemma_read_molecule(s: Seq<u8>, strict: bool)
    requires
        s.len() <= usize::MAX,
        molecule_of(s, true, strict) is Ok,
    ensures
        ({
            let g = molecule_of(s, true, strict)->Ok_0;
            &&& g.wf()
            &&& fits(g)
            &&& is_plain(g)
            &&& sanitize_spec(g, strict) == Ok::<_, SanitizeError>(g)
        }),
{
    lemma_run_is_graph(BuildState::init(), s, 0);
    let raw = parse_spec(s)->Ok_0;
    let g = sanitized(raw);
    lemma_sanitized_wf(raw);
    lemma_sanitized_is_settled(raw, strict);
    assert(is_plain(g)) by {
        assert forall|j: int| 0 <= j < g.bonds.len() implies (#[trigger] g.bonds[j]).stereo
            == BondStereo::Unspecified by {
            assert(raw.bonds[j].stereo == BondStereo::Unspecified);
        }
    }
}

/// For every text that is read as a molecule: the canonical text of the molecule is read
/// as the molecule in writing order, which is the same molecule under new indices.
pub proof fn lemma_round_trip(s: Seq<u8>, strict: bool)
    requires
        s.len() <= usize::MAX,
        molecule_of(s, true, strict) is Ok,
    ensures
        ({
            let g = molecule_of(s, true, strict)->Ok_0;
            &&& is_order(writing_order(g), g.atoms.len() as int)
            &&& molecule_of(smiles_of(g), true, strict) == Ok::<_, MolError>(canonical(g))
        }),
{
    lemma_read_molecule(s, strict);
    lemma_reading_gives_the_molecule_back(molecule_of(s, true, strict)->Ok_0, strict);
}

/// For every text that is read as a molecule whose atoms the ranking tells apart:
/// writing the molecule, reading the text and writing again gives the same text.
pub proof fn lemma_canonical_text_is_settled(s: Seq<u8>, strict: bool)
    requires
        s.len() <= usize::MAX,
        molecule_of(s, true, strict) is Ok,
        all_differ(ranks_of(molecule_of(s, true, strict)->Ok_0)),
    ensures
        ({
            let g = molecule_of(s, true, strict)->Ok_0;
            molecule_of(smiles_of(g), true, strict) matches Ok(m) && smiles_of(m) == smiles_of(g)
        }),
{
    lemma_read_molecule(s, strict);
    lemma_writing_again_gives_the_same_text(molecule_of(s, true, strict)->Ok_0, strict);
}

} // verus!
