use vstd::prelude::*;
use crate::atom::{atom_ok, Atom};
use crate::bond::{Bond, BondOrder, BondStereo};
use crate::element::number_of;
use crate::error::{ParseError, ParseErrorKind};
use crate::graph::Graph;
use crate::lex::{isotope_at, lemma_lex_advances, lex_at, read_token, Token};

verus! {

/// A ring closure that the text has opened and not yet closed.
#[derive(Clone, Copy, Debug, PartialEq, Eq)]
pub struct RingOpen {
    pub label: u64,
    /// The atom at which it was opened.
    pub atom: usize,
    /// The bond symbol written before the label, if any.
    pub order: Option<BondOrder>,
}

/// What a left-to-right scan of the notation knows after some tokens.
pub ghost struct BuildState {
    /// The atoms and bonds read so far.
    pub graph: Graph,
    /// The atom that the next atom is bonded to, if any.
    pub prev: Option<usize>,
    /// The atoms at which a branch is open, innermost last.
    pub stack: Seq<usize>,
    /// The ring closures that are open.
    pub open: Seq<RingOpen>,
    /// A bond symbol that waits for its second atom.
    pub bond: Option<BondOrder>,
}

/// The order of a bond that is written without a symbol.
pub open spec fn default_order(a: Atom, b: Atom) -> BondOrder {
    if a.aromatic && b.aromatic {
        BondOrder::Aromatic
    } else {
        BondOrder::Single
    }
}

pub open spec fn new_bond(begin: usize, end: usize, order: BondOrder) -> Bond {
    Bond { begin, end, order, in_ring: false, stereo: BondStereo::Unspecified }
}

/// The index of the first open ring closure from `from` on that has the label `label`.
pub open spec fn find_label(open: Seq<RingOpen>, label: u64, from: int) -> Option<int>
    decreases open.len() - from,
{
    if from < 0 || from >= open.len() {
        None
    } else if open[from].label == label {
        Some(from)
    } else {
        find_label(open, label, from + 1)
    }
}

/// The order of a ring-closure bond, from the symbols written at its two labels.
/// `None` where the two symbols differ.
pub open spec fn closing_order(
    opened: Option<BondOrder>,
    closed: Option<BondOrder>,
    a: Atom,
    b: Atom,
) -> Option<BondOrder> {
    match (opened, closed) {
        (Some(x), Some(y)) => if x == y {
            Some(x)
        } else {
            None
        },
        (Some(x), None) => Some(x),
        (None, Some(y)) => Some(y),
        (None, None) => Some(default_order(a, b)),
    }
}

impl BuildState {
    pub open spec fn init() -> BuildState {
        BuildState {
            graph: Graph::empty(),
            prev: None,
            stack: Seq::empty(),
            open: Seq::empty(),
            bond: None,
        }
    }

    /// Every atom that the state points at is an atom of its graph.
    pub open spec fn wf(self) -> bool {
        &&& self.graph.wf()
        &&& self.prev matches Some(p) ==> p < self.graph.atoms.len()
        &&& forall|k: int| 0 <= k < self.stack.len() ==> self.stack[k] < self.graph.atoms.len()
        &&& forall|k: int|
            0 <= k < self.open.len() ==> (#[trigger] self.open[k]).atom < self.graph.atoms.len()
    }

    /// The state after an atom token.
    pub open spec fn on_atom(self, a: Atom) -> Result<BuildState, ParseErrorKind> {
        let n = self.graph.atoms.len() as usize;
        let atoms = self.graph.atoms.push(a);
        match self.prev {
            Some(p) => Ok(
                BuildState {
                    graph: Graph {
                        atoms,
                        bonds: self.graph.bonds.push(
                            new_bond(
                                p,
                                n,
                                match self.bond {
                                    Some(o) => o,
                                    None => default_order(self.graph.atoms[p as int], a),
                                },
                            ),
                        ),
                    },
                    prev: Some(n),
                    bond: None,
                    ..self
                },
            ),
            None => if self.bond is Some {
                Err(ParseErrorKind::MalformedToken)
            } else {
                Ok(
                    BuildState {
                        graph: Graph { atoms, bonds: self.graph.bonds },
                        prev: Some(n),
                        ..self
                    },
                )
            },
        }
    }

    /// The state after a ring-closure label.
    pub open spec fn on_ring(self, label: u64) -> Result<BuildState, ParseErrorKind> {
        match self.prev {
            None => Err(ParseErrorKind::MalformedToken),
            Some(p) => match find_label(self.open, label, 0) {
                None => Ok(
                    BuildState {
                        open: self.open.push(RingOpen { label, atom: p, order: self.bond }),
                        bond: None,
                        ..self
                    },
                ),
                Some(k) => {
                    let q = self.open[k].atom;
                    match closing_order(
                        self.open[k].order,
                        self.bond,
                        self.graph.atoms[q as int],
                        self.graph.atoms[p as int],
                    ) {
                        None => Err(ParseErrorKind::MalformedToken),
                        Some(order) => if q == p {
                            Err(ParseErrorKind::MalformedToken)
                        } else {
                            Ok(
                                BuildState {
                                    graph: Graph {
                                        atoms: self.graph.atoms,
                                        bonds: self.graph.bonds.push(new_bond(q, p, order)),
                                    },
                                    open: self.open.remove(k),
                                    bond: None,
                                    ..self
                                },
                            )
                        },
                    }
                },
            },
        }
    }

    /// The state after one more token, or why the token cannot stand there.
    pub open spec fn step(self, t: Token) -> Result<BuildState, ParseErrorKind> {
        match t {
            Token::Atom(a) => self.on_atom(a),
            Token::Ring(label) => self.on_ring(label),
            Token::Bond(o) => if self.bond is Some || self.prev is None {
                Err(ParseErrorKind::MalformedToken)
            } else {
                Ok(BuildState { bond: Some(o), ..self })
            },
            Token::Open => if self.bond is Some || self.prev is None {
                Err(ParseErrorKind::MalformedToken)
            } else {
                Ok(BuildState { stack: self.stack.push(self.prev->Some_0), ..self })
            },
            Token::Close => if self.bond is Some {
                Err(ParseErrorKind::MalformedToken)
            } else if self.stack.len() == 0 {
                Err(ParseErrorKind::UnmatchedBranch)
            } else {
                Ok(
                    BuildState {
                        prev: Some(self.stack.last()),
                        stack: self.stack.drop_last(),
                        ..self
                    },
                )
            },
            Token::Dot => if self.bond is Some {
                Err(ParseErrorKind::MalformedToken)
            } else {
                Ok(BuildState { prev: None, ..self })
            },
        }
    }

    /// The graph that the state holds at the end of the text, or what the text left
    /// unfinished.
    pub open spec fn finish(self) -> Result<Graph, ParseErrorKind> {
        if self.bond is Some {
            Err(ParseErrorKind::MalformedToken)
        } else if self.stack.len() > 0 {
            Err(ParseErrorKind::UnmatchedBranch)
        } else if self.open.len() > 0 {
            Err(ParseErrorKind::UnmatchedRingClosure)
        } else {
            Ok(self.graph)
        }
    }

    /// The graph that the bytes of `s` from index `i` on lead to from this state; or
    /// the first thing wrong in them, with its place.
    pub open spec fn run(self, s: Seq<u8>, i: int) -> Result<Graph, ParseError>
        decreases s.len() - i,
    {
        if i < 0 || i >= s.len() {
            match self.finish() {
                Ok(g) => Ok(g),
                Err(kind) => Err(ParseError { kind, position: s.len() as usize }),
            }
        } else {
            match lex_at(s, i) {
                Err(kind) => Err(ParseError { kind, position: i as usize }),
                Ok((t, j)) => match self.step(t) {
                    Err(kind) => Err(ParseError { kind, position: i as usize }),
                    Ok(next) => if i < j {
                        next.run(s, j)
                    } else {
                        Err(ParseError { kind: ParseErrorKind::MalformedToken, position: i as usize })
                    },
                },
            }
        }
    }
}

/// The graph that a text describes, before any chemistry is checked: the atoms in the
/// order in which they are written, and the bonds in the order in which their second
/// atom is reached. Or the first thing wrong in the text.
pub open spec fn parse_spec(s: Seq<u8>) -> Result<Graph, ParseError> {
    BuildState::init().run(s, 0)
}

/// Every atom that the notation can express is one that can stand in a graph.
pub proof fn lemma_lexed_atom_ok(s: Seq<u8>, i: int)
    requires
        0 <= i < s.len(),
    ensures
        lex_at(s, i) matches Ok((Token::Atom(a), _)) ==> atom_ok(a),
{
    if let Ok((Token::Atom(a), _)) = lex_at(s, i) {
        if s[i] == 91 {
            if let Some((_, i1)) = isotope_at(s, i + 1) {
                lemma_number_in_range(s[i1], crate::decimal::byte_at(s, i1 + 1));
                lemma_number_in_range(s[i1], 0);
            }
        }
    }
}

proof fn lemma_number_in_range(c1: u8, c2: u8)
    ensures
        number_of(c1, c2) matches Some(z) ==> 1 <= z <= 118,
{
    lemma_find_in_range(c1, c2, 1);
}

proof fn lemma_find_in_range(c1: u8, c2: u8, z: u8)
    ensures
        crate::element::find_symbol(c1, c2, z) matches Some(y) ==> 1 <= y <= 118,
    decreases 119 - z,
{
    if 1 <= z <= 118 && crate::element::symbol_of(z) != (c1, c2) {
        lemma_find_in_range(c1, c2, (z + 1) as u8);
    }
}

pub proof fn lemma_find_label(open: Seq<RingOpen>, label: u64, from: int)
    requires
        0 <= from,
    ensures
        match find_label(open, label, from) {
            Some(k) => from <= k < open.len() && open[k].label == label && forall|j: int|
                from <= j < k ==> open[j].label != label,
            None => forall|j: int| from <= j < open.len() ==> open[j].label != label,
        },
    decreases open.len() - from,
{
    if from < open.len() && open[from].label != label {
        lemma_find_label(open, label, from + 1);
    }
}

/// A step keeps a well-formed state well formed.
pub proof fn lemma_step_wf(st: BuildState, t: Token)
    requires
        st.wf(),
        t matches Token::Atom(a) ==> atom_ok(a),
        st.graph.atoms.len() < usize::MAX,
    ensures
        st.step(t) matches Ok(next) ==> next.wf(),
{
    if let Ok(next) = st.step(t) {
        match t {
            Token::Ring(label) => {
                lemma_find_label(st.open, label, 0);
            },
            _ => {},
        }
    }
}

/// What the text has left the scan with.
pub struct Builder {
    pub atoms: Vec<Atom>,
    pub bonds: Vec<Bond>,
    pub prev: Option<usize>,
    pub stack: Vec<usize>,
    pub open: Vec<RingOpen>,
    pub bond: Option<BondOrder>,
}

impl Builder {
    pub open spec fn view(&self) -> BuildState {
        BuildState {
            graph: Graph { atoms: self.atoms@, bonds: self.bonds@ },
            prev: self.prev,
            stack: self.stack@,
            open: self.open@,
            bond: self.bond,
        }
    }

    pub(crate) fn new() -> (b: Builder)
        ensures
            b@ == BuildState::init(),
    {
        Builder {
            atoms: Vec::new(),
            bonds: Vec::new(),
            prev: None,
            stack: Vec::new(),
            open: Vec::new(),
            bond: None,
        }
    }

    fn position_of(&self, label: u64) -> (r: Option<usize>)
        ensures
            match r {
                Some(k) => find_label(self.open@, label, 0) == Some(k as int) && k < self.open.len(),
                None => find_label(self.open@, label, 0) is None,
            },
    {
        let mut k: usize = 0;
        while k < self.open.len()
            invariant
                k <= self.open.len(),
                find_label(self.open@, label, 0) == find_label(self.open@, label, k as int),
            decreases self.open.len() - k,
        {
            if self.open[k].label == label {
                return Some(k);
            }
            k += 1;
        }
        None
    }

    fn atom(&mut self, a: Atom) -> (r: Result<(), ParseErrorKind>)
        requires
            old(self)@.wf(),
        ensures
            match r {
                Ok(_) => old(self)@.on_atom(a) == Ok::<_, ParseErrorKind>(final(self)@),
                Err(e) => old(self)@.on_atom(a) == Err::<BuildState, _>(e),
            },
    {
        let n = self.atoms.len();
        match self.prev {
            Some(p) => {
                let order = match self.bond {
                    Some(o) => o,
                    None => default(&self.atoms[p], &a),
                };
                self.atoms.push(a);
                self.bonds.push(bond(p, n, order));
                self.prev = Some(n);
                self.bond = None;
                Ok(())
            },
            None => {
                if self.bond.is_some() {
                    return Err(ParseErrorKind::MalformedToken);
                }
                self.atoms.push(a);
                self.prev = Some(n);
                Ok(())
            },
        }
    }

    fn ring(&mut self, label: u64) -> (r: Result<(), ParseErrorKind>)
        requires
            old(self)@.wf(),
        ensures
            match r {
                Ok(_) => old(self)@.on_ring(label) == Ok::<_, ParseErrorKind>(final(self)@),
                Err(e) => old(self)@.on_ring(label) == Err::<BuildState, _>(e),
            },
    {
        let p = match self.prev {
            Some(p) => p,
            None => {
                return Err(ParseErrorKind::MalformedToken);
            },
        };
        match self.position_of(label) {
            None => {
                self.open.push(RingOpen { label, atom: p, order: self.bond });
                self.bond = None;
                Ok(())
            },
            Some(k) => {
                let q = self.open[k].atom;
                let order = match closing(self.open[k].order, self.bond, &self.atoms[q], &self.atoms[p]) {
                    Some(o) => o,
                    None => {
                        return Err(ParseErrorKind::MalformedToken);
                    },
                };
                if q == p {
                    return Err(ParseErrorKind::MalformedToken);
                }
                self.bonds.push(bond(q, p, order));
                self.open.remove(k);
                self.bond = None;
                Ok(())
            },
        }
    }

    /// Takes one more token.
    pub(crate) fn step(&mut self, t: Token) -> (r: Result<(), ParseErrorKind>)
        requires
            old(self)@.wf(),
        ensures
            match r {
                Ok(_) => old(self)@.step(t) == Ok::<_, ParseErrorKind>(final(self)@),
                Err(e) => old(self)@.step(t) == Err::<BuildState, _>(e),
            },
    {
        match t {
            Token::Atom(a) => self.atom(a),
            Token::Ring(label) => self.ring(label),
            Token::Bond(o) => {
                if self.bond.is_some() || self.prev.is_none() {
                    return Err(ParseErrorKind::MalformedToken);
                }
                self.bond = Some(o);
                Ok(())
            },
            Token::Open => {
                if self.bond.is_some() {
                    return Err(ParseErrorKind::MalformedToken);
                }
                match self.prev {
                    None => Err(ParseErrorKind::MalformedToken),
                    Some(p) => {
                        self.stack.push(p);
                        Ok(())
                    },
                }
            },
            Token::Close => {
                if self.bond.is_some() {
                    return Err(ParseErrorKind::MalformedToken);
                }
                match self.stack.pop() {
                    None => Err(ParseErrorKind::UnmatchedBranch),
                    Some(p) => {
                        self.prev = Some(p);
                        Ok(())
                    },
                }
            },
            Token::Dot => {
                if self.bond.is_some() {
                    return Err(ParseErrorKind::MalformedToken);
                }
                self.prev = None;
                Ok(())
            },
        }
    }

    /// Whether the text may end here.
    pub(crate) fn finish(&self) -> (r: Result<(), ParseErrorKind>)
        ensures
            match r {
                Ok(_) => self@.finish() == Ok::<_, ParseErrorKind>(self@.graph),
                Err(e) => self@.finish() == Err::<Graph, _>(e),
            },
    {
        if self.bond.is_some() {
            Err(ParseErrorKind::MalformedToken)
        } else if self.stack.len() > 0 {
            Err(ParseErrorKind::UnmatchedBranch)
        } else if self.open.len() > 0 {
            Err(ParseErrorKind::UnmatchedRingClosure)
        } else {
            Ok(())
        }
    }
}

fn default(a: &Atom, b: &Atom) -> (o: BondOrder)
    ensures
        o == default_order(*a, *b),
{
    if a.aromatic && b.aromatic {
        BondOrder::Aromatic
    } else {
        BondOrder::Single
    }
}

fn bond(begin: usize, end: usize, order: BondOrder) -> (b: Bond)
    ensures
        b == new_bond(begin, end, order),
{
    Bond { begin, end, order, in_ring: false, stereo: BondStereo::Unspecified }
}

fn closing(opened: Option<BondOrder>, closed: Option<BondOrder>, a: &Atom, b: &Atom) -> (r: Option<
    BondOrder,
>)
    ensures
        r == closing_order(opened, closed, *a, *b),
{
    match (opened, closed) {
        (Some(x), Some(y)) => if x == y {
            Some(x)
        } else {
            None
        },
        (Some(x), None) => Some(x),
        (None, Some(y)) => Some(y),
        (None, None) => Some(default(a, b)),
    }
}

/// Reads a text into the atoms and bonds that it describes, checking the notation and
/// nothing else.
pub(crate) fn parse_bytes(s: &[u8]) -> (r: Result<(Vec<Atom>, Vec<Bond>), ParseError>)
    ensures
        match r {
            Ok((atoms, bonds)) => parse_spec(s@) == Ok::<_, ParseError>(
                Graph { atoms: atoms@, bonds: bonds@ },
            ) && (Graph { atoms: atoms@, bonds: bonds@ }).wf(),
            Err(e) => parse_spec(s@) == Err::<Graph, _>(e),
        },
{
    let mut b = Builder::new();
    let mut i: usize = 0;
    while i < s.len()
        invariant
            i <= s.len(),
            b@.wf(),
            b@.graph.atoms.len() <= i,
            parse_spec(s@) == b@.run(s@, i as int),
        decreases s.len() - i,
    {
        proof {
            lemma_lex_advances(s@, i as int);
            lemma_lexed_atom_ok(s@, i as int);
        }
        match read_token(s, i) {
            Err(kind) => {
                return Err(ParseError { kind, position: i });
            },
            Ok((t, j)) => {
                proof {
                    lemma_step_wf(b@, t);
                }
                match b.step(t) {
                    Err(kind) => {
                        return Err(ParseError { kind, position: i });
                    },
                    Ok(_) => {
                        i = j;
                    },
                }
            },
        }
    }
    match b.finish() {
        Err(kind) => Err(ParseError { kind, position: s.len() }),
        Ok(_) => Ok((b.atoms, b.bonds)),
    }
}

} // verus!
