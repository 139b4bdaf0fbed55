use vstd::prelude::*;
use crate::atom::{Atom, Chirality};
use crate::bond::BondOrder;
use crate::decimal::{decimal, write_number};
use crate::element::{element_symbol, symbol_of};
use crate::lex::Token;

verus! {

/// The letters of an element, the first in lower case where the atom is aromatic.
pub open spec fn symbol_text(z: u8, aromatic: bool) -> Seq<u8> {
    let (c1, c2) = symbol_of(z);
    let first = if aromatic {
        (c1 + 32) as u8
    } else {
        c1
    };
    if c2 == 0 {
        seq![first]
    } else {
        seq![first, c2]
    }
}

pub open spec fn isotope_text(m: Option<u16>) -> Seq<u8> {
    match m {
        Some(v) => decimal(v as nat),
        None => Seq::empty(),
    }
}

pub open spec fn chirality_text(c: Chirality) -> Seq<u8> {
    match c {
        Chirality::Unspecified => Seq::empty(),
        Chirality::CounterClockwise => seq![64u8],
        Chirality::Clockwise => seq![64u8, 64u8],
    }
}

pub open spec fn hcount_text(h: u8) -> Seq<u8> {
    if h == 0 {
        Seq::empty()
    } else if h == 1 {
        seq![72u8]
    } else {
        seq![72u8, (48 + h % 10) as u8]
    }
}

pub open spec fn charge_text(q: i8) -> Seq<u8> {
    if q == 0 {
        Seq::empty()
    } else if q == 1 {
        seq![43u8]
    } else if q == -1 {
        seq![45u8]
    } else if q > 0 {
        seq![43u8] + decimal(q as nat)
    } else {
        seq![45u8] + decimal((-q) as nat)
    }
}

/// What stands behind the symbol in brackets: chirality, hydrogens, charge and the
/// closing bracket.
pub open spec fn bracket_tail(c: Chirality, h: u8, q: i8) -> Seq<u8> {
    chirality_text(c) + (hcount_text(h) + (charge_text(q) + seq![93u8]))
}

/// An atom as text: its symbol alone where its record gives no hydrogen count, else in
/// brackets with everything that the record holds.
pub open spec fn atom_text(a: Atom) -> Seq<u8> {
    match a.hydrogens {
        None => symbol_text(a.element, a.aromatic),
        Some(h) => seq![91u8] + (isotope_text(a.isotope) + (symbol_text(a.element, a.aromatic)
            + bracket_tail(a.chirality, h, a.charge))),
    }
}

/// A ring-closure label as text: one digit, `%` and two digits, or `%(` digits `)`.
pub open spec fn label_text(n: u64) -> Seq<u8> {
    if n < 10 {
        seq![(48 + n) as u8]
    } else if n < 100 {
        seq![37u8, (48 + n / 10) as u8, (48 + n % 10) as u8]
    } else {
        seq![37u8, 40u8] + decimal(n as nat) + seq![41u8]
    }
}

pub open spec fn order_text(o: BondOrder) -> Seq<u8> {
    match o {
        BondOrder::Single => seq![45u8],
        BondOrder::Double => seq![61u8],
        BondOrder::Triple => seq![35u8],
        BondOrder::Aromatic => seq![58u8],
    }
}

/// A token as text.
pub open spec fn unlex(t: Token) -> Seq<u8> {
    match t {
        Token::Atom(a) => atom_text(a),
        Token::Bond(o) => order_text(o),
        Token::Open => seq![40u8],
        Token::Close => seq![41u8],
        Token::Ring(n) => label_text(n),
        Token::Dot => seq![46u8],
    }
}

/// The tokens as text, one behind the other.
pub open spec fn unlex_all(ts: Seq<Token>) -> Seq<u8>
    decreases ts.len(),
{
    if ts.len() == 0 {
        Seq::empty()
    } else {
        unlex_all(ts.drop_last()) + unlex(ts.last())
    }
}

fn write_symbol(z: u8, aromatic: bool, out: &mut Vec<u8>)
    ensures
        final(out)@ == old(out)@ + symbol_text(z, aromatic),
{
    let (c1, c2) = element_symbol(z);
    let first = if aromatic {
        c1 + 32
    } else {
        c1
    };
    out.push(first);
    if c2 != 0 {
        out.push(c2);
    }
    assert(out@ =~= old(out)@ + symbol_text(z, aromatic));
}

fn write_isotope(m: Option<u16>, out: &mut Vec<u8>)
    ensures
        final(out)@ == old(out)@ + isotope_text(m),
{
    if let Some(v) = m {
        write_number(v as u64, out);
    }
    assert(out@ =~= old(out)@ + isotope_text(m));
}

fn write_chirality(c: Chirality, out: &mut Vec<u8>)
    ensures
        final(out)@ == old(out)@ + chirality_text(c),
{
    match c {
        Chirality::Unspecified => {},
        Chirality::CounterClockwise => {
            out.push(64);
        },
        Chirality::Clockwise => {
            out.push(64);
            out.push(64);
        },
    }
    assert(out@ =~= old(out)@ + chirality_text(c));
}

fn write_hcount(h: u8, out: &mut Vec<u8>)
    ensures
        final(out)@ == old(out)@ + hcount_text(h),
{
    if h == 1 {
        out.push(72);
    } else if h != 0 {
        out.push(72);
        out.push(48 + h % 10);
    }
    assert(out@ =~= old(out)@ + hcount_text(h));
}

fn write_charge(q: i8, out: &mut Vec<u8>)
    ensures
        final(out)@ == old(out)@ + charge_text(q),
{
    if q == 1 {
        out.push(43);
    } else if q == -1 {
        out.push(45);
    } else if q > 0 {
        out.push(43);
        write_number(q as u64, out);
    } else if q < 0 {
        out.push(45);
        write_number((-(q as i16)) as u64, out);
    }
    assert(out@ =~= old(out)@ + charge_text(q));
}

proof fn lemma_joined(
    o: Seq<u8>,
    a: Seq<u8>,
    b: Seq<u8>,
    c: Seq<u8>,
    d: Seq<u8>,
    e: Seq<u8>,
    f: Seq<u8>,
    g: Seq<u8>,
)
    ensures
        o + a + b + c + d + e + f + g == o + (a + (b + (c + (d + (e + (f + g)))))),
{
    assert(o + a + b + c + d + e + f + g =~= o + (a + (b + (c + (d + (e + (f + g)))))));
}

fn write_atom(a: &Atom, out: &mut Vec<u8>)
    ensures
        final(out)@ == old(out)@ + atom_text(*a),
{
    match a.hydrogens {
        None => {
            write_symbol(a.element, a.aromatic, out);
        },
        Some(h) => {
            out.push(91);
            let ghost s1 = out@;
            write_isotope(a.isotope, out);
            let ghost s2 = out@;
            write_symbol(a.element, a.aromatic, out);
            let ghost s3 = out@;
            write_chirality(a.chirality, out);
            let ghost s4 = out@;
            write_hcount(h, out);
            let ghost s5 = out@;
            write_charge(a.charge, out);
            let ghost s6 = out@;
            out.push(93);
            proof {
                assert(s1 == old(out)@ + seq![91u8]);
                assert(out@ == s6 + seq![93u8]);
                lemma_joined(
                    old(out)@,
                    seq![91u8],
                    isotope_text(a.isotope),
                    symbol_text(a.element, a.aromatic),
                    chirality_text(a.chirality),
                    hcount_text(h),
                    charge_text(a.charge),
                    seq![93u8],
                );
            }
        },
    }
}

fn write_label(n: u64, out: &mut Vec<u8>)
    ensures
        final(out)@ == old(out)@ + label_text(n),
{
    if n < 10 {
        out.push(48 + n as u8);
    } else if n < 100 {
        out.push(37);
        out.push(48 + (n / 10) as u8);
        out.push(48 + (n % 10) as u8);
    } else {
        out.push(37);
        out.push(40);
        write_number(n, out);
        out.push(41);
    }
    assert(out@ =~= old(out)@ + label_text(n));
}

/// Appends a token as text.
pub(crate) fn write_token(t: &Token, out: &mut Vec<u8>)
    ensures
        final(out)@ == old(out)@ + unlex(*t),
{
    match t {
        Token::Atom(a) => {
            write_atom(a, out);
        },
        Token::Bond(o) => {
            let c: u8 = match o {
                BondOrder::Single => 45,
                BondOrder::Double => 61,
                BondOrder::Triple => 35,
                BondOrder::Aromatic => 58,
            };
            out.push(c);
            assert(out@ =~= old(out)@ + unlex(*t));
        },
        Token::Open => {
            out.push(40);
            assert(out@ =~= old(out)@ + unlex(*t));
        },
        Token::Close => {
            out.push(41);
            assert(out@ =~= old(out)@ + unlex(*t));
        },
        Token::Ring(n) => {
            write_label(*n, out);
        },
        Token::Dot => {
            out.push(46);
            assert(out@ =~= old(out)@ + unlex(*t));
        },
    }
}

} // verus!
