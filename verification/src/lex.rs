use vstd::prelude::*;
use crate::atom::{Atom, Chirality};
use crate::bond::BondOrder;
use crate::decimal::{byte_at, digit, is_digit, read_number, scan_digits, lemma_scan_grows};
use crate::element::{element_number, number_of};
use crate::error::ParseErrorKind;

verus! {

/// One token of the notation.
#[derive(Clone, Copy, Debug, PartialEq, Eq)]
pub enum Token {
    /// An atom, as the text gives it. `hydrogens` is `None` for an atom written without
    /// brackets.
    Atom(Atom),
    /// `-`, `=`, `#` or `:`.
    Bond(BondOrder),
    /// `(`.
    Open,
    /// `)`.
    Close,
    /// A ring-closure label: a digit, `%` and two digits, or `%(` digits `)`.
    Ring(u64),
    /// `.`, which parts two atoms that no bond joins.
    Dot,
}

pub open spec fn is_upper(c: u8) -> bool {
    65 <= c <= 90
}

pub open spec fn is_lower(c: u8) -> bool {
    97 <= c <= 122
}

/// An atom as it stands after its symbol has been read.
pub open spec fn plain_atom(element: u8, aromatic: bool) -> Atom {
    Atom {
        element,
        charge: 0,
        isotope: None,
        hydrogens: None,
        aromatic,
        in_ring: false,
        chirality: Chirality::Unspecified,
    }
}

/// The element that a lower-case letter stands for outside brackets.
pub open spec fn bare_aromatic_of(c: u8) -> Option<u8> {
    if c == 98 {
        Some(5u8)  // b
    } else if c == 99 {
        Some(6u8)  // c
    } else if c == 110 {
        Some(7u8)  // n
    } else if c == 111 {
        Some(8u8)  // o
    } else if c == 112 {
        Some(15u8)  // p
    } else if c == 115 {
        Some(16u8)  // s
    } else {
        None
    }
}

/// The element that an upper-case letter stands for outside brackets, where it is not
/// the first letter of `Cl` or `Br`.
pub open spec fn bare_upper_of(c: u8) -> Option<u8> {
    if c == 66 {
        Some(5u8)  // B
    } else if c == 67 {
        Some(6u8)  // C
    } else if c == 78 {
        Some(7u8)  // N
    } else if c == 79 {
        Some(8u8)  // O
    } else if c == 80 {
        Some(15u8)  // P
    } else if c == 83 {
        Some(16u8)  // S
    } else if c == 70 {
        Some(9u8)  // F
    } else if c == 73 {
        Some(53u8)  // I
    } else {
        None
    }
}

/// The element symbol at index `i` inside brackets: the element, whether it is written
/// as aromatic, and the index behind the symbol.
pub open spec fn symbol_at(s: Seq<u8>, i: int) -> Result<(u8, bool, int), ParseErrorKind> {
    let c = byte_at(s, i);
    let d = byte_at(s, i + 1);
    if is_upper(c) {
        if is_lower(d) {
            match number_of(c, d) {
                Some(z) => Ok((z, false, i + 2)),
                None => Err(ParseErrorKind::UnknownElement),
            }
        } else {
            match number_of(c, 0) {
                Some(z) => Ok((z, false, i + 1)),
                None => Err(ParseErrorKind::UnknownElement),
            }
        }
    } else if is_lower(c) {
        if c == 115 && d == 101 {
            Ok((34u8, true, i + 2))  // se
        } else if c == 97 && d == 115 {
            Ok((33u8, true, i + 2))  // as
        } else {
            match bare_aromatic_of(c) {
                Some(z) => Ok((z, true, i + 1)),
                None => Err(ParseErrorKind::UnknownElement),
            }
        }
    } else {
        Err(ParseErrorKind::MalformedToken)
    }
}

/// The chirality mark at index `i`, if there is one, and the index behind it.
pub open spec fn chirality_at(s: Seq<u8>, i: int) -> (Chirality, int) {
    if byte_at(s, i) == 64 {
        if byte_at(s, i + 1) == 64 {
            (Chirality::Clockwise, i + 2)
        } else {
            (Chirality::CounterClockwise, i + 1)
        }
    } else {
        (Chirality::Unspecified, i)
    }
}

/// The hydrogen count at index `i` (`H`, or `H` and one digit), 0 where none is
/// written, and the index behind it.
pub open spec fn hcount_at(s: Seq<u8>, i: int) -> (u8, int) {
    if byte_at(s, i) == 72 {
        if is_digit(byte_at(s, i + 1)) {
            ((byte_at(s, i + 1) - 48) as u8, i + 2)
        } else {
            (1u8, i + 1)
        }
    } else {
        (0u8, i)
    }
}

/// The charge at index `i` (a sign, or a sign and a number up to 15), 0 where none is
/// written, and the index behind it. `None` where the number is too large.
pub open spec fn charge_at(s: Seq<u8>, i: int) -> Option<(i8, int)> {
    let c = byte_at(s, i);
    if c == 43 || c == 45 {
        if is_digit(byte_at(s, i + 1)) {
            let (n, j) = scan_digits(s, i + 1, 0);
            if n <= 15 {
                Some(
                    (
                        if c == 43 {
                            n as i8
                        } else {
                            (-(n as int)) as i8
                        },
                        j,
                    ),
                )
            } else {
                None
            }
        } else {
            Some(
                (
                    if c == 43 {
                        1i8
                    } else {
                        -1i8
                    },
                    i + 1,
                ),
            )
        }
    } else {
        Some((0i8, i))
    }
}

/// The isotope at index `i`, if one is written, and the index behind it. `None` where
/// the number is 1000 or more.
pub open spec fn isotope_at(s: Seq<u8>, i: int) -> Option<(Option<u16>, int)> {
    if is_digit(byte_at(s, i)) {
        let (n, j) = scan_digits(s, i, 0);
        if n < 1000 {
            Some((Some(n as u16), j))
        } else {
            None
        }
    } else {
        Some((None, i))
    }
}

/// The atom in brackets whose first byte behind `[` has index `i`, and the index behind
/// its `]`.
pub open spec fn bracket_at(s: Seq<u8>, i: int) -> Result<(Atom, int), ParseErrorKind> {
    match isotope_at(s, i) {
        None => Err(ParseErrorKind::MalformedToken),
        Some((isotope, i1)) => match symbol_at(s, i1) {
            Err(e) => Err(e),
            Ok((element, aromatic, i2)) => {
                let (chirality, i3) = chirality_at(s, i2);
                let (h, i4) = hcount_at(s, i3);
                match charge_at(s, i4) {
                    None => Err(ParseErrorKind::MalformedToken),
                    Some((charge, i5)) => if byte_at(s, i5) == 93 {
                        Ok(
                            (
                                Atom {
                                    element,
                                    charge,
                                    isotope,
                                    hydrogens: Some(h),
                                    aromatic,
                                    in_ring: false,
                                    chirality,
                                },
                                i5 + 1,
                            ),
                        )
                    } else {
                        Err(ParseErrorKind::MalformedToken)
                    },
                }
            },
        },
    }
}

/// The ring-closure label behind a `%` at index `i - 1`, and the index behind the label.
pub open spec fn label_at(s: Seq<u8>, i: int) -> Option<(u64, int)> {
    if byte_at(s, i) == 40 {
        let (n, j) = scan_digits(s, i + 1, 0);
        if is_digit(byte_at(s, i + 1)) && n <= u64::MAX && byte_at(s, j) == 41 {
            Some((n as u64, j + 1))
        } else {
            None
        }
    } else if is_digit(byte_at(s, i)) && is_digit(byte_at(s, i + 1)) {
        Some((((byte_at(s, i) - 48) * 10 + (byte_at(s, i + 1) - 48)) as u64, i + 2))
    } else {
        None
    }
}

/// The token that starts at index `i` of `s`, and the index of the first byte behind
/// it; or why there is no token there.
pub open spec fn lex_at(s: Seq<u8>, i: int) -> Result<(Token, int), ParseErrorKind> {
    let c = byte_at(s, i);
    let d = byte_at(s, i + 1);
    if c == 40 {
        Ok((Token::Open, i + 1))
    } else if c == 41 {
        Ok((Token::Close, i + 1))
    } else if c == 46 {
        Ok((Token::Dot, i + 1))
    } else if c == 45 {
        Ok((Token::Bond(BondOrder::Single), i + 1))
    } else if c == 61 {
        Ok((Token::Bond(BondOrder::Double), i + 1))
    } else if c == 35 {
        Ok((Token::Bond(BondOrder::Triple), i + 1))
    } else if c == 58 {
        Ok((Token::Bond(BondOrder::Aromatic), i + 1))
    } else if is_digit(c) {
        Ok((Token::Ring((c - 48) as u64), i + 1))
    } else if c == 37 {
        match label_at(s, i + 1) {
            Some((n, j)) => Ok((Token::Ring(n), j)),
            None => Err(ParseErrorKind::MalformedToken),
        }
    } else if c == 91 {
        match bracket_at(s, i + 1) {
            Ok((a, j)) => Ok((Token::Atom(a), j)),
            Err(e) => Err(e),
        }
    } else if c == 67 && d == 108 {
        Ok((Token::Atom(plain_atom(17, false)), i + 2))  // Cl
    } else if c == 66 && d == 114 {
        Ok((Token::Atom(plain_atom(35, false)), i + 2))  // Br
    } else if is_upper(c) {
        match bare_upper_of(c) {
            Some(z) => Ok((Token::Atom(plain_atom(z, false)), i + 1)),
            None => Err(ParseErrorKind::UnknownElement),
        }
    } else if is_lower(c) {
        match bare_aromatic_of(c) {
            Some(z) => Ok((Token::Atom(plain_atom(z, true)), i + 1)),
            None => Err(ParseErrorKind::UnknownElement),
        }
    } else {
        Err(ParseErrorKind::MalformedToken)
    }
}

/// A token ends behind its first byte, and within the text.
pub proof fn lemma_lex_advances(s: Seq<u8>, i: int)
    requires
        0 <= i < s.len(),
    ensures
        lex_at(s, i) matches Ok((_, j)) ==> i < j <= s.len(),
{
    lemma_scan_grows(s, i + 1, 0);
    lemma_scan_grows(s, i + 2, 0);
    if i + 1 < s.len() {
        lemma_scan_grows(s, i + 1, 0);
    }
    let c = byte_at(s, i);
    if c == 37 {
        lemma_scan_grows(s, i + 2, 0);
    } else if c == 91 {
        lemma_bracket_advances(s, i + 1);
    }
}

proof fn lemma_bracket_advances(s: Seq<u8>, i: int)
    requires
        0 <= i,
    ensures
        bracket_at(s, i) matches Ok((_, j)) ==> i < j <= s.len(),
{
    lemma_scan_grows(s, i, 0);
    if let Some((_, i1)) = isotope_at(s, i) {
        if let Ok((_, _, i2)) = symbol_at(s, i1) {
            let (_, i3) = chirality_at(s, i2);
            let (_, i4) = hcount_at(s, i3);
            lemma_scan_grows(s, i4 + 1, 0);
        }
    }
}

fn peek(s: &[u8], i: usize) -> (c: u8)
    ensures
        c == byte_at(s@, i as int),
{
    if i < s.len() {
        s[i]
    } else {
        0
    }
}

fn upper(c: u8) -> (r: bool)
    ensures
        r == is_upper(c),
{
    65 <= c && c <= 90
}

fn lower(c: u8) -> (r: bool)
    ensures
        r == is_lower(c),
{
    97 <= c && c <= 122
}

fn plain(element: u8, aromatic: bool) -> (a: Atom)
    ensures
        a == plain_atom(element, aromatic),
{
    Atom {
        element,
        charge: 0,
        isotope: None,
        hydrogens: None,
        aromatic,
        in_ring: false,
        chirality: Chirality::Unspecified,
    }
}

fn bare_aromatic_letter(c: u8) -> (r: Option<u8>)
    ensures
        r == bare_aromatic_of(c),
{
    if c == 98 {
        Some(5)
    } else if c == 99 {
        Some(6)
    } else if c == 110 {
        Some(7)
    } else if c == 111 {
        Some(8)
    } else if c == 112 {
        Some(15)
    } else if c == 115 {
        Some(16)
    } else {
        None
    }
}

fn bare_upper_letter(c: u8) -> (r: Option<u8>)
    ensures
        r == bare_upper_of(c),
{
    if c == 66 {
        Some(5)
    } else if c == 67 {
        Some(6)
    } else if c == 78 {
        Some(7)
    } else if c == 79 {
        Some(8)
    } else if c == 80 {
        Some(15)
    } else if c == 83 {
        Some(16)
    } else if c == 70 {
        Some(9)
    } else if c == 73 {
        Some(53)
    } else {
        None
    }
}

fn read_symbol(s: &[u8], i: usize) -> (r: Result<(u8, bool, usize), ParseErrorKind>)
    requires
        i <= s.len(),
    ensures
        match r {
            Ok((z, ar, j)) => symbol_at(s@, i as int) == Ok::<_, ParseErrorKind>((z, ar, j as int))
                && i < j <= s.len(),
            Err(e) => symbol_at(s@, i as int) == Err::<(u8, bool, int), _>(e),
        },
{
    let c = peek(s, i);
    if i >= s.len() {
        return Err(ParseErrorKind::MalformedToken);
    }
    let d = peek(s, i + 1);
    if upper(c) {
        if lower(d) {
            match element_number(c, d) {
                Some(z) => Ok((z, false, i + 2)),
                None => Err(ParseErrorKind::UnknownElement),
            }
        } else {
            match element_number(c, 0) {
                Some(z) => Ok((z, false, i + 1)),
                None => Err(ParseErrorKind::UnknownElement),
            }
        }
    } else if lower(c) {
        if c == 115 && d == 101 {
            Ok((34, true, i + 2))
        } else if c == 97 && d == 115 {
            Ok((33, true, i + 2))
        } else {
            match bare_aromatic_letter(c) {
                Some(z) => Ok((z, true, i + 1)),
                None => Err(ParseErrorKind::UnknownElement),
            }
        }
    } else {
        Err(ParseErrorKind::MalformedToken)
    }
}

fn read_chirality(s: &[u8], i: usize) -> (r: (Chirality, usize))
    requires
        i <= s.len(),
    ensures
        chirality_at(s@, i as int) == (r.0, r.1 as int),
        i <= r.1 <= s.len(),
{
    if peek(s, i) == 64 {
        if peek(s, i + 1) == 64 {
            (Chirality::Clockwise, i + 2)
        } else {
            (Chirality::CounterClockwise, i + 1)
        }
    } else {
        (Chirality::Unspecified, i)
    }
}

fn read_hcount(s: &[u8], i: usize) -> (r: (u8, usize))
    requires
        i <= s.len(),
    ensures
        hcount_at(s@, i as int) == (r.0, r.1 as int),
        i <= r.1 <= s.len(),
        r.0 <= 9,
{
    if peek(s, i) == 72 {
        let d = peek(s, i + 1);
        if digit(d) {
            (d - 48, i + 2)
        } else {
            (1, i + 1)
        }
    } else {
        (0, i)
    }
}

fn read_charge(s: &[u8], i: usize) -> (r: Option<(i8, usize)>)
    requires
        i <= s.len(),
    ensures
        match r {
            Some((q, j)) => charge_at(s@, i as int) == Some((q, j as int)) && i <= j <= s.len()
                && -15 <= q <= 15,
            None => charge_at(s@, i as int) is None,
        },
{
    let c = peek(s, i);
    if c == 43 || c == 45 {
        if digit(peek(s, i + 1)) {
            let (n, j) = read_number(s, i + 1, 15);
            match n {
                Some(n) => {
                    let m: i8 = n as i8;
                    Some((if c == 43 { m } else { -m }, j))
                },
                None => None,
            }
        } else {
            Some((if c == 43 { 1 } else { -1 }, i + 1))
        }
    } else {
        Some((0, i))
    }
}

fn read_isotope(s: &[u8], i: usize) -> (r: Option<(Option<u16>, usize)>)
    requires
        i <= s.len(),
    ensures
        match r {
            Some((m, j)) => isotope_at(s@, i as int) == Some((m, j as int)) && i <= j <= s.len()
                && (m matches Some(v) ==> v < 1000),
            None => isotope_at(s@, i as int) is None,
        },
{
    if digit(peek(s, i)) {
        let (n, j) = read_number(s, i, 999);
        match n {
            Some(n) => Some((Some(n as u16), j)),
            None => None,
        }
    } else {
        Some((None, i))
    }
}

fn read_bracket(s: &[u8], i: usize) -> (r: Result<(Atom, usize), ParseErrorKind>)
    requires
        i <= s.len(),
    ensures
        match r {
            Ok((a, j)) => bracket_at(s@, i as int) == Ok::<_, ParseErrorKind>((a, j as int)) && i
                < j <= s.len(),
            Err(e) => bracket_at(s@, i as int) == Err::<(Atom, int), _>(e),
        },
{
    let (isotope, i1) = match read_isotope(s, i) {
        Some(x) => x,
        None => {
            return Err(ParseErrorKind::MalformedToken);
        },
    };
    let (element, aromatic, i2) = match read_symbol(s, i1) {
        Ok(x) => x,
        Err(e) => {
            return Err(e);
        },
    };
    let (chirality, i3) = read_chirality(s, i2);
    let (h, i4) = read_hcount(s, i3);
    let (charge, i5) = match read_charge(s, i4) {
        Some(x) => x,
        None => {
            return Err(ParseErrorKind::MalformedToken);
        },
    };
    if peek(s, i5) == 93 {
        Ok(
            (
                Atom {
                    element,
                    charge,
                    isotope,
                    hydrogens: Some(h),
                    aromatic,
                    in_ring: false,
                    chirality,
                },
                i5 + 1,
            ),
        )
    } else {
        Err(ParseErrorKind::MalformedToken)
    }
}

fn read_label(s: &[u8], i: usize) -> (r: Option<(u64, usize)>)
    requires
        i <= s.len(),
    ensures
        match r {
            Some((n, j)) => label_at(s@, i as int) == Some((n, j as int)) && i < j <= s.len(),
            None => label_at(s@, i as int) is None,
        },
{
    let c = peek(s, i);
    if c == 40 {
        if !digit(peek(s, i + 1)) {
            return None;
        }
        let (n, j) = read_number(s, i + 1, u64::MAX);
        match n {
            Some(n) => if peek(s, j) == 41 {
                Some((n, j + 1))
            } else {
                None
            },
            None => None,
        }
    } else if digit(c) && digit(peek(s, i + 1)) {
        Some((((c - 48) * 10 + (peek(s, i + 1) - 48)) as u64, i + 2))
    } else {
        None
    }
}

/// Reads the token that starts at index `i`.
pub(crate) fn read_token(s: &[u8], i: usize) -> (r: Result<(Token, usize), ParseErrorKind>)
    requires
        i < s.len(),
    ensures
        match r {
            Ok((t, j)) => lex_at(s@, i as int) == Ok::<_, ParseErrorKind>((t, j as int)) && i < j
                <= s.len(),
            Err(e) => lex_at(s@, i as int) == Err::<(Token, int), _>(e),
        },
{
    proof {
        lemma_lex_advances(s@, i as int);
    }
    let c = s[i];
    let d = peek(s, i + 1);
    if c == 40 {
        Ok((Token::Open, i + 1))
    } else if c == 41 {
        Ok((Token::Close, i + 1))
    } else if c == 46 {
        Ok((Token::Dot, i + 1))
    } else if c == 45 {
        Ok((Token::Bond(BondOrder::Single), i + 1))
    } else if c == 61 {
        Ok((Token::Bond(BondOrder::Double), i + 1))
    } else if c == 35 {
        Ok((Token::Bond(BondOrder::Triple), i + 1))
    } else if c == 58 {
        Ok((Token::Bond(BondOrder::Aromatic), i + 1))
    } else if digit(c) {
        Ok((Token::Ring((c - 48) as u64), i + 1))
    } else if c == 37 {
        match read_label(s, i + 1) {
            Some((n, j)) => Ok((Token::Ring(n), j)),
            None => Err(ParseErrorKind::MalformedToken),
        }
    } else if c == 91 {
        match read_bracket(s, i + 1) {
            Ok((a, j)) => Ok((Token::Atom(a), j)),
            Err(e) => Err(e),
        }
    } else if c == 67 && d == 108 {
        Ok((Token::Atom(plain(17, false)), i + 2))
    } else if c == 66 && d == 114 {
        Ok((Token::Atom(plain(35, false)), i + 2))
    } else if upper(c) {
        match bare_upper_letter(c) {
            Some(z) => Ok((Token::Atom(plain(z, false)), i + 1)),
            None => Err(ParseErrorKind::UnknownElement),
        }
    } else if lower(c) {
        match bare_aromatic_letter(c) {
            Some(z) => Ok((Token::Atom(plain(z, true)), i + 1)),
            None => Err(ParseErrorKind::UnknownElement),
        }
    } else {
        Err(ParseErrorKind::MalformedToken)
    }
}

} // verus!
