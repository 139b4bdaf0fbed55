use vstd::prelude::*;

verus! {

/// How the neighbours of a stereocentre wind around it, taken in the order in which
/// they are written.
#[derive(Clone, Copy, Debug, PartialEq, Eq, Structural)]
pub enum Chirality {
    Unspecified,
    Clockwise,
    CounterClockwise,
}

/// One vertex of a molecular graph.
#[derive(Clone, Copy, Debug, PartialEq, Eq)]
pub struct Atom {
    /// Atomic number, 1 to 118.
    pub element: u8,
    /// Formal charge, -15 to 15.
    pub charge: i8,
    /// Mass number, where one is given; below 1000.
    pub isotope: Option<u16>,
    /// Hydrogens attached to the atom without being vertices of their own. `None` while
    /// the count is still to be inferred from the atom's valence.
    pub hydrogens: Option<u8>,
    /// Whether the atom is part of an aromatic system.
    pub aromatic: bool,
    /// Whether the atom lies on a ring. Derived: set when a graph is sanitized.
    pub in_ring: bool,
    pub chirality: Chirality,
}

impl Atom {
    /// An atom of the given element with nothing else said of it.
    pub fn new(element: u8) -> (a: Atom)
        ensures
            a == (Atom {
                element,
                charge: 0,
                isotope: None,
                hydrogens: None,
                aromatic: false,
                in_ring: false,
                chirality: Chirality::Unspecified,
            }),
    {
        Atom {
            element,
            charge: 0,
            isotope: None,
            hydrogens: None,
            aromatic: false,
            in_ring: false,
            chirality: Chirality::Unspecified,
        }
    }
}

/// Elements that can be written without brackets.
pub open spec fn is_organic(z: u8) -> bool {
    z == 5 || z == 6 || z == 7 || z == 8 || z == 9 || z == 15 || z == 16 || z == 17 || z == 35
        || z == 53
}

/// Elements that can be written in lower case without brackets.
pub open spec fn is_bare_aromatic(z: u8) -> bool {
    z == 5 || z == 6 || z == 7 || z == 8 || z == 15 || z == 16
}

/// Elements that can take part in an aromatic system.
pub open spec fn is_aromatic_element(z: u8) -> bool {
    is_bare_aromatic(z) || z == 33 || z == 34
}

/// The records that can stand in a graph: everything in them can be written down and
/// read back.
pub open spec fn atom_ok(a: Atom) -> bool {
    &&& 1 <= a.element <= 118
    &&& -15 <= a.charge <= 15
    &&& a.isotope matches Some(m) ==> m < 1000
    &&& a.hydrogens matches Some(h) ==> h <= 9
    &&& a.aromatic ==> is_aromatic_element(a.element)
}

/// The most bonds an element can hold, `None` where this library sets no limit.
pub open spec fn max_valence(z: u8) -> Option<int> {
    match z {
        1 => Some(1),  // H
        2 => Some(0),  // He
        3 => Some(1),  // Li
        4 => Some(2),  // Be
        5 => Some(3),  // B
        6 => Some(4),  // C
        7 => Some(5),  // N
        8 => Some(2),  // O
        9 => Some(1),  // F
        10 => Some(0),  // Ne
        11 => Some(1),  // Na
        12 => Some(2),  // Mg
        13 => Some(3),  // Al
        14 => Some(4),  // Si
        15 => Some(5),  // P
        16 => Some(6),  // S
        17 => Some(7),  // Cl
        18 => Some(0),  // Ar
        19 => Some(1),  // K
        20 => Some(2),  // Ca
        35 => Some(7),  // Br
        53 => Some(7),  // I
        _ => None,
    }
}

/// The valence that an atom written without brackets is filled up to with hydrogens: the
/// lowest of the element's usual valences that is at least `used`. `None` where the
/// element has no usual valence that high.
pub open spec fn target_valence(z: u8, used: int) -> Option<int> {
    match z {
        5 => if used <= 3 { Some(3) } else { None },
        6 => if used <= 4 { Some(4) } else { None },
        7 | 15 => if used <= 3 { Some(3) } else if used <= 5 { Some(5) } else { None },
        8 => if used <= 2 { Some(2) } else { None },
        16 => if used <= 2 { Some(2) } else if used <= 4 { Some(4) } else if used <= 6 { Some(6) } else { None },
        9 | 17 | 35 | 53 => if used <= 1 { Some(1) } else { None },
        _ => None,
    }
}

/// The lowest usual valence of an element, 0 where it has none.
pub open spec fn lowest_valence(z: u8) -> int {
    match target_valence(z, 0) {
        Some(v) => v,
        None => 0,
    }
}

pub(crate) fn organic(z: u8) -> (r: bool)
    ensures
        r == is_organic(z),
{
    z == 5 || z == 6 || z == 7 || z == 8 || z == 9 || z == 15 || z == 16 || z == 17 || z == 35
        || z == 53
}

pub(crate) fn bare_aromatic(z: u8) -> (r: bool)
    ensures
        r == is_bare_aromatic(z),
{
    z == 5 || z == 6 || z == 7 || z == 8 || z == 15 || z == 16
}

pub(crate) fn aromatic_element(z: u8) -> (r: bool)
    ensures
        r == is_aromatic_element(z),
{
    bare_aromatic(z) || z == 33 || z == 34
}

/// Whether an atom record may stand in a graph.
pub(crate) fn check_atom(a: &Atom) -> (r: bool)
    ensures
        r == atom_ok(*a),
{
    let iso_ok = match a.isotope {
        Some(m) => m < 1000,
        None => true,
    };
    let h_ok = match a.hydrogens {
        Some(h) => h <= 9,
        None => true,
    };
    1 <= a.element && a.element <= 118 && -15 <= a.charge && a.charge <= 15 && iso_ok && h_ok && (
    !a.aromatic || aromatic_element(a.element))
}

pub(crate) fn element_max_valence(z: u8) -> (r: Option<u8>)
    ensures
        r is Some == max_valence(z) is Some,
        r matches Some(v) ==> max_valence(z) == Some(v as int),
{
    match z {
        1 | 3 | 9 | 11 | 19 => Some(1),
        2 | 10 | 18 => Some(0),
        4 | 8 | 12 | 20 => Some(2),
        5 | 13 => Some(3),
        6 | 14 => Some(4),
        7 | 15 => Some(5),
        16 => Some(6),
        17 | 35 | 53 => Some(7),
        _ => None,
    }
}

pub(crate) fn element_target_valence(z: u8, used: u32) -> (r: Option<u8>)
    ensures
        r is Some == target_valence(z, used as int) is Some,
        r matches Some(v) ==> target_valence(z, used as int) == Some(v as int),
{
    match z {
        5 => if used <= 3 { Some(3) } else { None },
        6 => if used <= 4 { Some(4) } else { None },
        7 | 15 => if used <= 3 { Some(3) } else if used <= 5 { Some(5) } else { None },
        8 => if used <= 2 { Some(2) } else { None },
        16 => if used <= 2 { Some(2) } else if used <= 4 { Some(4) } else if used <= 6 { Some(6) } else { None },
        9 | 17 | 35 | 53 => if used <= 1 { Some(1) } else { None },
        _ => None,
    }
}

} // verus!
