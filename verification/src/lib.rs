//! Small molecules as graphs of atoms and bonds: read from a line of text, checked and
//! completed by sanitization, written as a canonical text, edited, and summed up in
//! fingerprints.
//!
//! The types that callers hold are [`ROMol`], a molecule that cannot be changed,
//! [`RWMol`], a graph under edit, and [`Fingerprint`]. What they are is said over
//! [`graph::Graph`], the mathematical model of a molecule.
//!
//! Reading is in `lex` and `parser`, sanitization in `rings`, `chem` and `sanitize`, the
//! canonical text in `ranks`, `canon`, `plan`, `writer` and `unlex`, fingerprints in
//! `fingerprint`. What holds of them together is proved in `roundtrip` (a text that is
//! written is read back as the same molecule), `relabel` and `walks` (the canonical text
//! does not depend on the order of the atoms), `settled` and `sameorder` (sanitization
//! changes nothing the second time, and does not depend on the order of the atoms) and
//! `prints` (neither do fingerprints).

pub mod aswritten;
pub mod atom;
pub mod blocks;
pub mod bond;
pub mod canon;
pub mod chem;
pub mod decimal;
pub mod element;
pub mod error;
pub mod fingerprint;
pub mod graph;
pub mod hydrogens;
pub mod invariance;
pub mod iso;
pub mod lex;
pub mod parser;
pub mod plan;
pub mod prints;
pub mod ranks;
pub mod reach;
pub mod rebuild;
pub mod relabel;
pub mod relex;
pub mod reread;
pub mod rings;
pub mod ro_mol;
pub mod roundtrip;
pub mod rw_mol;
pub mod samechem;
pub mod sameorder;
pub mod samerings;
pub mod sanitize;
pub mod settled;
pub mod text;
pub mod unlex;
pub mod walks;
pub mod ways;
pub mod writer;

pub use atom::{Atom, Chirality};
pub use bond::{Bond, BondOrder, BondStereo};
pub use error::{MolError, ParseError, ParseErrorKind, SanitizeError, SanitizeErrorKind};
pub use fingerprint::Fingerprint;
pub use ro_mol::{ROMol, SmilesParserParams};
pub use rw_mol::RWMol;
