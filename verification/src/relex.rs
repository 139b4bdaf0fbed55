use vstd::prelude::*;
use crate::atom::{atom_ok, is_aromatic_element, is_bare_aromatic, is_organic, Atom, Chirality};
use crate::decimal::{byte_at, decimal, is_digit, scan_digits};
use crate::element::lemma_symbol_found;
use crate::error::ParseErrorKind;
use crate::lex::{
    charge_at,
    chirality_at,
    hcount_at,
    is_lower,
    isotope_at,
    label_at,
    lex_at,
    plain_atom,
    symbol_at,
    Token,
};
use crate::unlex::{
    atom_text,
    bracket_tail,
    charge_text,
    chirality_text,
    hcount_text,
    isotope_text,
    label_text,
    symbol_text,
    unlex,
};

verus! {

/// The bytes `piece` stand in `s` from index `i` on.
pub open spec fn stands_at(s: Seq<u8>, i: int, piece: Seq<u8>) -> bool {
    0 <= i && i + piece.len() <= s.len() && s.subrange(i, i + piece.len()) == piece
}

pub proof fn lemma_stands_split(s: Seq<u8>, i: int, x: Seq<u8>, y: Seq<u8>)
    requires
        stands_at(s, i, x + y),
    ensures
        stands_at(s, i, x),
        stands_at(s, i + x.len(), y),
{
    let whole = s.subrange(i, i + (x + y).len());
    assert(s.subrange(i, i + x.len()) =~= x) by {
        assert forall|k: int| 0 <= k < x.len() implies s.subrange(i, i + x.len())[k] == x[k] by {
            assert(whole[k] == (x + y)[k]);
        }
    }
    assert(s.subrange(i + x.len(), i + x.len() + y.len()) =~= y) by {
        assert forall|k: int| 0 <= k < y.len() implies s.subrange(i + x.len(), i + x.len() + y.len())[k]
            == y[k] by {
            assert(whole[x.len() + k] == (x + y)[x.len() + k]);
        }
    }
}

pub proof fn lemma_stands_byte(s: Seq<u8>, i: int, piece: Seq<u8>, k: int)
    requires
        stands_at(s, i, piece),
        0 <= k < piece.len(),
    ensures
        byte_at(s, i + k) == piece[k],
{
    assert(s.subrange(i, i + piece.len())[k] == s[i + k]);
}

/// The number that a run of digits stands for.
pub open spec fn digits_value(d: Seq<u8>) -> nat
    decreases d.len(),
{
    if d.len() == 0 {
        0
    } else {
        (digits_value(d.drop_last()) * 10 + (d.last() - 48)) as nat
    }
}

pub proof fn lemma_decimal_digits(n: nat)
    ensures
        decimal(n).len() >= 1,
        forall|k: int| 0 <= k < decimal(n).len() ==> is_digit(#[trigger] decimal(n)[k]),
        digits_value(decimal(n)) == n,
    decreases n,
{
    if n < 10 {
        assert(decimal(n).drop_last() =~= Seq::<u8>::empty());
        assert(digits_value(decimal(n).drop_last()) == 0);
    } else {
        lemma_decimal_digits(n / 10);
        assert(decimal(n).drop_last() =~= decimal(n / 10));
    }
}

proof fn lemma_scan_block(s: Seq<u8>, i: int, d: Seq<u8>, k: int)
    requires
        stands_at(s, i, d),
        forall|x: int| 0 <= x < d.len() ==> is_digit(#[trigger] d[x]),
        0 <= k <= d.len(),
        !is_digit(byte_at(s, i + d.len())),
    ensures
        scan_digits(s, i + k, digits_value(d.take(k))) == (digits_value(d), i + d.len()),
    decreases d.len() - k,
{
    if k < d.len() {
        lemma_stands_byte(s, i, d, k);
        assert(d.take(k + 1).drop_last() =~= d.take(k));
        assert(d.take(k + 1).last() == d[k]);
        lemma_scan_block(s, i, d, k + 1);
    } else {
        assert(d.take(k) =~= d);
    }
}

/// Reading a number where its decimal digits stand gives the number.
pub proof fn lemma_scan_decimal(s: Seq<u8>, i: int, n: nat)
    requires
        stands_at(s, i, decimal(n)),
        !is_digit(byte_at(s, i + decimal(n).len())),
    ensures
        scan_digits(s, i, 0) == (n, i + decimal(n).len()),
        is_digit(byte_at(s, i)),
{
    lemma_decimal_digits(n);
    let d = decimal(n);
    assert(d.take(0) =~= Seq::<u8>::empty());
    lemma_scan_block(s, i, d, 0);
    lemma_stands_byte(s, i, d, 0);
}

proof fn lemma_isotope(s: Seq<u8>, i: int, m: Option<u16>)
    requires
        stands_at(s, i, isotope_text(m)),
        m matches Some(v) ==> v < 1000,
        !is_digit(byte_at(s, i + isotope_text(m).len())),
    ensures
        isotope_at(s, i) == Some((m, i + isotope_text(m).len())),
{
    if let Some(v) = m {
        lemma_scan_decimal(s, i, v as nat);
    }
}

proof fn lemma_symbol(s: Seq<u8>, i: int, z: u8, aromatic: bool)
    requires
        stands_at(s, i, symbol_text(z, aromatic)),
        1 <= z <= 118,
        aromatic ==> is_aromatic_element(z),
        !is_lower(byte_at(s, i + symbol_text(z, aromatic).len())),
    ensures
        symbol_at(s, i) == Ok::<_, ParseErrorKind>((z, aromatic, i + symbol_text(z, aromatic).len())),
        !is_digit(byte_at(s, i)),
{
    lemma_symbol_found(z);
    let t = symbol_text(z, aromatic);
    lemma_stands_byte(s, i, t, 0);
    if t.len() == 2 {
        lemma_stands_byte(s, i, t, 1);
    }
}

proof fn lemma_chirality(s: Seq<u8>, i: int, c: Chirality)
    requires
        stands_at(s, i, chirality_text(c)),
        byte_at(s, i + chirality_text(c).len()) != 64,
    ensures
        chirality_at(s, i) == (c, i + chirality_text(c).len()),
{
    let t = chirality_text(c);
    if t.len() >= 1 {
        lemma_stands_byte(s, i, t, 0);
    }
    if t.len() == 2 {
        lemma_stands_byte(s, i, t, 1);
    }
}

proof fn lemma_hcount(s: Seq<u8>, i: int, h: u8)
    requires
        stands_at(s, i, hcount_text(h)),
        h <= 9,
        byte_at(s, i + hcount_text(h).len()) != 72,
        !is_digit(byte_at(s, i + hcount_text(h).len())),
    ensures
        hcount_at(s, i) == (h, i + hcount_text(h).len()),
{
    let t = hcount_text(h);
    if t.len() >= 1 {
        lemma_stands_byte(s, i, t, 0);
    }
    if t.len() == 2 {
        lemma_stands_byte(s, i, t, 1);
    }
}

proof fn lemma_charge(s: Seq<u8>, i: int, q: i8)
    requires
        stands_at(s, i, charge_text(q)),
        -15 <= q <= 15,
        byte_at(s, i + charge_text(q).len()) == 93,
    ensures
        charge_at(s, i) == Some((q, i + charge_text(q).len())),
{
    let t = charge_text(q);
    if t.len() >= 1 {
        lemma_stands_byte(s, i, t, 0);
    }
    if q > 1 {
        lemma_stands_split(s, i, seq![43u8], decimal(q as nat));
        lemma_scan_decimal(s, i + 1, q as nat);
    } else if q < -1 {
        lemma_stands_split(s, i, seq![45u8], decimal((-q) as nat));
        lemma_scan_decimal(s, i + 1, (-q) as nat);
    }
}

/// The first byte of what follows the symbol in brackets.
proof fn lemma_tail_starts(s: Seq<u8>, i: int, c: Chirality, h: u8, q: i8)
    requires
        stands_at(s, i, bracket_tail(c, h, q)),
    ensures
        ({
            let b = byte_at(s, i);
            b == 64 || b == 72 || b == 43 || b == 45 || b == 93
        }),
        stands_at(s, i, chirality_text(c)),
        stands_at(s, i + chirality_text(c).len(), hcount_text(h)),
        stands_at(s, i + chirality_text(c).len() + hcount_text(h).len(), charge_text(q)),
        byte_at(s, i + chirality_text(c).len() + hcount_text(h).len() + charge_text(q).len()) == 93,
        ({
            let b = byte_at(s, i + chirality_text(c).len());
            b == 72 || b == 43 || b == 45 || b == 93
        }),
        ({
            let b = byte_at(s, i + chirality_text(c).len() + hcount_text(h).len());
            b == 43 || b == 45 || b == 93
        }),
        bracket_tail(c, h, q).len() == chirality_text(c).len() + hcount_text(h).len() + charge_text(
            q,
        ).len() + 1,
{
    let x = chirality_text(c);
    let y = hcount_text(h);
    let z = charge_text(q);
    let e = seq![93u8];
    lemma_stands_split(s, i, x, y + (z + e));
    lemma_stands_split(s, i + x.len(), y, z + e);
    lemma_stands_split(s, i + x.len() + y.len(), z, e);
    lemma_stands_byte(s, i + x.len() + y.len() + z.len(), e, 0);
    if z.len() > 0 {
        lemma_stands_byte(s, i + x.len() + y.len(), z, 0);
    }
    if y.len() > 0 {
        lemma_stands_byte(s, i + x.len(), y, 0);
    }
    if x.len() > 0 {
        lemma_stands_byte(s, i, x, 0);
    }
}

/// What each part of an atom in brackets is read as.
proof fn lemma_bracket_parts(s: Seq<u8>, i: int, a: Atom, h: u8)
    requires
        atom_ok(a),
        a.hydrogens == Some(h),
        stands_at(
            s,
            i,
            isotope_text(a.isotope) + (symbol_text(a.element, a.aromatic) + bracket_tail(
                a.chirality,
                h,
                a.charge,
            )),
        ),
    ensures
        ({
            let p1 = i + isotope_text(a.isotope).len();
            let p2 = p1 + symbol_text(a.element, a.aromatic).len();
            let p3 = p2 + chirality_text(a.chirality).len();
            let p4 = p3 + hcount_text(h).len();
            let p5 = p4 + charge_text(a.charge).len();
            &&& isotope_at(s, i) == Some((a.isotope, p1))
            &&& symbol_at(s, p1) == Ok::<_, ParseErrorKind>((a.element, a.aromatic, p2))
            &&& chirality_at(s, p2) == (a.chirality, p3)
            &&& hcount_at(s, p3) == (h, p4)
            &&& charge_at(s, p4) == Some((a.charge, p5))
            &&& byte_at(s, p5) == 93
            &&& p5 + 1 == i + (isotope_text(a.isotope) + (symbol_text(a.element, a.aromatic)
                + bracket_tail(a.chirality, h, a.charge))).len()
        }),
{
    let iso = isotope_text(a.isotope);
    let sym = symbol_text(a.element, a.aromatic);
    let tail = bracket_tail(a.chirality, h, a.charge);
    lemma_stands_split(s, i, iso, sym + tail);
    let p1 = i + iso.len();
    lemma_stands_split(s, p1, sym, tail);
    let p2 = p1 + sym.len();
    lemma_tail_starts(s, p2, a.chirality, h, a.charge);
    lemma_symbol(s, p1, a.element, a.aromatic);
    lemma_isotope(s, i, a.isotope);
    let p3 = p2 + chirality_text(a.chirality).len();
    lemma_chirality(s, p2, a.chirality);
    let p4 = p3 + hcount_text(h).len();
    lemma_hcount(s, p3, h);
    lemma_charge(s, p4, a.charge);
}

proof fn lemma_bracket(s: Seq<u8>, i: int, a: Atom)
    requires
        atom_ok(a),
        !a.in_ring,
        a.hydrogens is Some,
        stands_at(s, i, atom_text(a)),
    ensures
        lex_at(s, i) == Ok::<_, ParseErrorKind>((Token::Atom(a), i + atom_text(a).len())),
{
    let h = a.hydrogens.unwrap();
    let rest = isotope_text(a.isotope) + (symbol_text(a.element, a.aromatic) + bracket_tail(
        a.chirality,
        h,
        a.charge,
    ));
    lemma_stands_split(s, i, seq![91u8], rest);
    lemma_stands_byte(s, i, seq![91u8], 0);
    lemma_bracket_parts(s, i + 1, a, h);
}

/// An atom that can be written without brackets.
pub open spec fn bare_ok(a: Atom) -> bool {
    &&& a.hydrogens is None
    &&& is_organic(a.element)
    &&& a.charge == 0
    &&& a.isotope is None
    &&& a.chirality == Chirality::Unspecified
    &&& !a.in_ring
    &&& a.aromatic ==> is_bare_aromatic(a.element)
}

/// The tokens that can be written and read back.
pub open spec fn token_ok(t: Token) -> bool {
    match t {
        Token::Atom(a) => if a.hydrogens is None {
            bare_ok(a)
        } else {
            atom_ok(a) && !a.in_ring
        },
        _ => true,
    }
}

proof fn lemma_bare(s: Seq<u8>, i: int, a: Atom)
    requires
        bare_ok(a),
        stands_at(s, i, atom_text(a)),
        byte_at(s, i + atom_text(a).len()) != 108,
        byte_at(s, i + atom_text(a).len()) != 114,
    ensures
        lex_at(s, i) == Ok::<_, ParseErrorKind>((Token::Atom(a), i + atom_text(a).len())),
{
    let t = atom_text(a);
    lemma_stands_byte(s, i, t, 0);
    if t.len() == 2 {
        lemma_stands_byte(s, i, t, 1);
    }
    assert(a == plain_atom(a.element, a.aromatic));
}

proof fn lemma_label(s: Seq<u8>, i: int, n: u64)
    requires
        stands_at(s, i, label_text(n)),
    ensures
        lex_at(s, i) == Ok::<_, ParseErrorKind>((Token::Ring(n), i + label_text(n).len())),
{
    let t = label_text(n);
    lemma_stands_byte(s, i, t, 0);
    if n >= 100 {
        let d = decimal(n as nat);
        assert(t =~= seq![37u8, 40u8] + (d + seq![41u8]));
        lemma_stands_split(s, i, seq![37u8, 40u8], d + seq![41u8]);
        lemma_stands_byte(s, i, seq![37u8, 40u8], 1);
        lemma_stands_split(s, i + 2, d, seq![41u8]);
        lemma_stands_byte(s, i + 2 + d.len(), seq![41u8], 0);
        lemma_scan_decimal(s, i + 2, n as nat);
        assert(label_at(s, i + 1) == Some((n, i + 2 + d.len() + 1)));
    } else if n >= 10 {
        lemma_stands_byte(s, i, t, 1);
        lemma_stands_byte(s, i, t, 2);
        assert(label_at(s, i + 1) == Some((n, i + 3)));
    }
}

/// A token that stands in a text is read from it, whatever follows, so long as it is
/// not one of the letters that would lengthen a symbol.
pub proof fn lemma_relex(s: Seq<u8>, i: int, t: Token)
    requires
        token_ok(t),
        stands_at(s, i, unlex(t)),
        byte_at(s, i + unlex(t).len()) != 108,
        byte_at(s, i + unlex(t).len()) != 114,
    ensures
        lex_at(s, i) == Ok::<_, ParseErrorKind>((t, i + unlex(t).len())),
        unlex(t).len() > 0,
        unlex(t)[0] != 108 && unlex(t)[0] != 114,
{
    match t {
        Token::Atom(a) => {
            if a.hydrogens is None {
                lemma_bare(s, i, a);
            } else {
                lemma_bracket(s, i, a);
            }
        },
        Token::Ring(n) => {
            lemma_label(s, i, n);
        },
        Token::Bond(o) => {
            lemma_stands_byte(s, i, unlex(t), 0);
        },
        _ => {
            lemma_stands_byte(s, i, unlex(t), 0);
        },
    }
}

} // verus!
