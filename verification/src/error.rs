use vstd::prelude::*;

verus! {

#[derive(Clone, Copy, Debug, PartialEq, Eq, Structural)]
pub enum ParseErrorKind {
    /// A byte, or a run of bytes, that is no token of the notation, or a token in a
    /// place where the notation does not allow it.
    MalformedToken,
    /// A `)` with no `(` before it, or a `(` that the text never closes.
    UnmatchedBranch,
    /// A ring-closure label that the text opens and never closes.
    UnmatchedRingClosure,
    /// Letters in the place of an element symbol that name no element.
    UnknownElement,
}

/// Why a text is no molecule. `position` is the offset of the first byte of the token at
/// which reading stopped, or the length of the text where its end came too early.
#[derive(Clone, Copy, Debug, PartialEq, Eq, Structural)]
pub struct ParseError {
    pub kind: ParseErrorKind,
    pub position: usize,
}

#[derive(Clone, Copy, Debug, PartialEq, Eq, Structural)]
pub enum SanitizeErrorKind {
    /// A bond from an atom to itself, or a second bond between two atoms. `index` is
    /// the bond.
    RingPerception,
    /// An atom marked aromatic that lies on no aromatic ring. `index` is the atom.
    Aromaticity,
    /// An atom with more bonds than its element allows. `index` is the atom.
    Valence,
}

/// Why a graph is no molecule, with the index of the first atom or bond at fault.
#[derive(Clone, Copy, Debug, PartialEq, Eq, Structural)]
pub struct SanitizeError {
    pub kind: SanitizeErrorKind,
    pub index: usize,
}

/// Why a text could not be turned into a molecule.
#[derive(Clone, Copy, Debug, PartialEq, Eq, Structural)]
pub enum MolError {
    Parse(ParseError),
    Sanitize(SanitizeError),
}

} // verus!
