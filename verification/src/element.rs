use vstd::prelude::*;

verus! {

/// The highest atomic number that has a symbol.
pub const MAX_ELEMENT: u8 = 118;

/// The symbol of the element with atomic number `z`, as two ASCII bytes: an upper-case
/// letter, then a lower-case letter or 0 where the symbol has one letter. `(0, 0)` where
/// `z` is no atomic number.
pub open spec fn symbol_of(z: u8) -> (u8, u8) {
    match z {
        1 => (72, 0),  // H
        2 => (72, 101),  // He
        3 => (76, 105),  // Li
        4 => (66, 101),  // Be
        5 => (66, 0),  // B
        6 => (67, 0),  // C
        7 => (78, 0),  // N
        8 => (79, 0),  // O
        9 => (70, 0),  // F
        10 => (78, 101),  // Ne
        11 => (78, 97),  // Na
        12 => (77, 103),  // Mg
        13 => (65, 108),  // Al
        14 => (83, 105),  // Si
        15 => (80, 0),  // P
        16 => (83, 0),  // S
        17 => (67, 108),  // Cl
        18 => (65, 114),  // Ar
        19 => (75, 0),  // K
        20 => (67, 97),  // Ca
        21 => (83, 99),  // Sc
        22 => (84, 105),  // Ti
        23 => (86, 0),  // V
        24 => (67, 114),  // Cr
        25 => (77, 110),  // Mn
        26 => (70, 101),  // Fe
        27 => (67, 111),  // Co
        28 => (78, 105),  // Ni
        29 => (67, 117),  // Cu
        30 => (90, 110),  // Zn
        31 => (71, 97),  // Ga
        32 => (71, 101),  // Ge
        33 => (65, 115),  // As
        34 => (83, 101),  // Se
        35 => (66, 114),  // Br
        36 => (75, 114),  // Kr
        37 => (82, 98),  // Rb
        38 => (83, 114),  // Sr
        39 => (89, 0),  // Y
        40 => (90, 114),  // Zr
        41 => (78, 98),  // Nb
        42 => (77, 111),  // Mo
        43 => (84, 99),  // Tc
        44 => (82, 117),  // Ru
        45 => (82, 104),  // Rh
        46 => (80, 100),  // Pd
        47 => (65, 103),  // Ag
        48 => (67, 100),  // Cd
        49 => (73, 110),  // In
        50 => (83, 110),  // Sn
        51 => (83, 98),  // Sb
        52 => (84, 101),  // Te
        53 => (73, 0),  // I
        54 => (88, 101),  // Xe
        55 => (67, 115),  // Cs
        56 => (66, 97),  // Ba
        57 => (76, 97),  // La
        58 => (67, 101),  // Ce
        59 => (80, 114),  // Pr
        60 => (78, 100),  // Nd
        61 => (80, 109),  // Pm
        62 => (83, 109),  // Sm
        63 => (69, 117),  // Eu
        64 => (71, 100),  // Gd
        65 => (84, 98),  // Tb
        66 => (68, 121),  // Dy
        67 => (72, 111),  // Ho
        68 => (69, 114),  // Er
        69 => (84, 109),  // Tm
        70 => (89, 98),  // Yb
        71 => (76, 117),  // Lu
        72 => (72, 102),  // Hf
        73 => (84, 97),  // Ta
        74 => (87, 0),  // W
        75 => (82, 101),  // Re
        76 => (79, 115),  // Os
        77 => (73, 114),  // Ir
        78 => (80, 116),  // Pt
        79 => (65, 117),  // Au
        80 => (72, 103),  // Hg
        81 => (84, 108),  // Tl
        82 => (80, 98),  // Pb
        83 => (66, 105),  // Bi
        84 => (80, 111),  // Po
        85 => (65, 116),  // At
        86 => (82, 110),  // Rn
        87 => (70, 114),  // Fr
        88 => (82, 97),  // Ra
        89 => (65, 99),  // Ac
        90 => (84, 104),  // Th
        91 => (80, 97),  // Pa
        92 => (85, 0),  // U
        93 => (78, 112),  // Np
        94 => (80, 117),  // Pu
        95 => (65, 109),  // Am
        96 => (67, 109),  // Cm
        97 => (66, 107),  // Bk
        98 => (67, 102),  // Cf
        99 => (69, 115),  // Es
        100 => (70, 109),  // Fm
        101 => (77, 100),  // Md
        102 => (78, 111),  // No
        103 => (76, 114),  // Lr
        104 => (82, 102),  // Rf
        105 => (68, 98),  // Db
        106 => (83, 103),  // Sg
        107 => (66, 104),  // Bh
        108 => (72, 115),  // Hs
        109 => (77, 116),  // Mt
        110 => (68, 115),  // Ds
        111 => (82, 103),  // Rg
        112 => (67, 110),  // Cn
        113 => (78, 104),  // Nh
        114 => (70, 108),  // Fl
        115 => (77, 99),  // Mc
        116 => (76, 118),  // Lv
        117 => (84, 115),  // Ts
        118 => (79, 103),  // Og
        _ => (0, 0),
    }
}

/// The lowest atomic number from `z` upward whose symbol is `(c1, c2)`.
pub open spec fn find_symbol(c1: u8, c2: u8, z: u8) -> Option<u8>
    decreases 119 - z,
{
    if z < 1 || z > 118 {
        None
    } else if symbol_of(z) == (c1, c2) {
        Some(z)
    } else {
        find_symbol(c1, c2, (z + 1) as u8)
    }
}

/// The atomic number of the element whose symbol is `(c1, c2)`, if there is one.
pub open spec fn number_of(c1: u8, c2: u8) -> Option<u8> {
    find_symbol(c1, c2, 1)
}

pub(crate) fn element_symbol(z: u8) -> (r: (u8, u8))
    ensures
        r == symbol_of(z),
{
    match z {
        1 => (72, 0),  // H
        2 => (72, 101),  // He
        3 => (76, 105),  // Li
        4 => (66, 101),  // Be
        5 => (66, 0),  // B
        6 => (67, 0),  // C
        7 => (78, 0),  // N
        8 => (79, 0),  // O
        9 => (70, 0),  // F
        10 => (78, 101),  // Ne
        11 => (78, 97),  // Na
        12 => (77, 103),  // Mg
        13 => (65, 108),  // Al
        14 => (83, 105),  // Si
        15 => (80, 0),  // P
        16 => (83, 0),  // S
        17 => (67, 108),  // Cl
        18 => (65, 114),  // Ar
        19 => (75, 0),  // K
        20 => (67, 97),  // Ca
        21 => (83, 99),  // Sc
        22 => (84, 105),  // Ti
        23 => (86, 0),  // V
        24 => (67, 114),  // Cr
        25 => (77, 110),  // Mn
        26 => (70, 101),  // Fe
        27 => (67, 111),  // Co
        28 => (78, 105),  // Ni
        29 => (67, 117),  // Cu
        30 => (90, 110),  // Zn
        31 => (71, 97),  // Ga
        32 => (71, 101),  // Ge
        33 => (65, 115),  // As
        34 => (83, 101),  // Se
        35 => (66, 114),  // Br
        36 => (75, 114),  // Kr
        37 => (82, 98),  // Rb
        38 => (83, 114),  // Sr
        39 => (89, 0),  // Y
        40 => (90, 114),  // Zr
        41 => (78, 98),  // Nb
        42 => (77, 111),  // Mo
        43 => (84, 99),  // Tc
        44 => (82, 117),  // Ru
        45 => (82, 104),  // Rh
        46 => (80, 100),  // Pd
        47 => (65, 103),  // Ag
        48 => (67, 100),  // Cd
        49 => (73, 110),  // In
        50 => (83, 110),  // Sn
        51 => (83, 98),  // Sb
        52 => (84, 101),  // Te
        53 => (73, 0),  // I
        54 => (88, 101),  // Xe
        55 => (67, 115),  // Cs
        56 => (66, 97),  // Ba
        57 => (76, 97),  // La
        58 => (67, 101),  // Ce
        59 => (80, 114),  // Pr
        60 => (78, 100),  // Nd
        61 => (80, 109),  // Pm
        62 => (83, 109),  // Sm
        63 => (69, 117),  // Eu
        64 => (71, 100),  // Gd
        65 => (84, 98),  // Tb
        66 => (68, 121),  // Dy
        67 => (72, 111),  // Ho
        68 => (69, 114),  // Er
        69 => (84, 109),  // Tm
        70 => (89, 98),  // Yb
        71 => (76, 117),  // Lu
        72 => (72, 102),  // Hf
        73 => (84, 97),  // Ta
        74 => (87, 0),  // W
        75 => (82, 101),  // Re
        76 => (79, 115),  // Os
        77 => (73, 114),  // Ir
        78 => (80, 116),  // Pt
        79 => (65, 117),  // Au
        80 => (72, 103),  // Hg
        81 => (84, 108),  // Tl
        82 => (80, 98),  // Pb
        83 => (66, 105),  // Bi
        84 => (80, 111),  // Po
        85 => (65, 116),  // At
        86 => (82, 110),  // Rn
        87 => (70, 114),  // Fr
        88 => (82, 97),  // Ra
        89 => (65, 99),  // Ac
        90 => (84, 104),  // Th
        91 => (80, 97),  // Pa
        92 => (85, 0),  // U
        93 => (78, 112),  // Np
        94 => (80, 117),  // Pu
        95 => (65, 109),  // Am
        96 => (67, 109),  // Cm
        97 => (66, 107),  // Bk
        98 => (67, 102),  // Cf
        99 => (69, 115),  // Es
        100 => (70, 109),  // Fm
        101 => (77, 100),  // Md
        102 => (78, 111),  // No
        103 => (76, 114),  // Lr
        104 => (82, 102),  // Rf
        105 => (68, 98),  // Db
        106 => (83, 103),  // Sg
        107 => (66, 104),  // Bh
        108 => (72, 115),  // Hs
        109 => (77, 116),  // Mt
        110 => (68, 115),  // Ds
        111 => (82, 103),  // Rg
        112 => (67, 110),  // Cn
        113 => (78, 104),  // Nh
        114 => (70, 108),  // Fl
        115 => (77, 99),  // Mc
        116 => (76, 118),  // Lv
        117 => (84, 115),  // Ts
        118 => (79, 103),  // Og
        _ => (0, 0),
    }
}

pub(crate) fn element_number(c1: u8, c2: u8) -> (r: Option<u8>)
    ensures
        r == number_of(c1, c2),
{
    let mut z: u8 = 1;
    while z <= 118
        invariant
            1 <= z <= 119,
            number_of(c1, c2) == find_symbol(c1, c2, z),
        decreases 119 - z,
    {
        let s = element_symbol(z);
        if s.0 == c1 && s.1 == c2 {
            return Some(z);
        }
        z = z + 1;
    }
    None
}

/// No two elements share a symbol, so looking a symbol up gives its element back.
pub proof fn lemma_symbol_found(z: u8)
    requires
        1 <= z <= 118,
    ensures
        number_of(symbol_of(z).0, symbol_of(z).1) == Some(z),
        65 <= symbol_of(z).0 <= 90,
        symbol_of(z).1 == 0 || 97 <= symbol_of(z).1 <= 122,
{
    lemma_symbols_differ(z);
    lemma_find_symbol(symbol_of(z).0, symbol_of(z).1, 1, z);
}

proof fn lemma_symbols_differ(z: u8)
    requires
        1 <= z <= 118,
    ensures
        forall|y: u8| 1 <= y < z ==> symbol_of(y) != symbol_of(z),
        65 <= symbol_of(z).0 <= 90,
        symbol_of(z).1 == 0 || 97 <= symbol_of(z).1 <= 122,
{
}

proof fn lemma_find_symbol(c1: u8, c2: u8, from: u8, z: u8)
    requires
        1 <= from <= z <= 118,
        symbol_of(z) == (c1, c2),
        forall|y: u8| from <= y < z ==> symbol_of(y) != (c1, c2),
    ensures
        find_symbol(c1, c2, from) == Some(z),
    decreases z - from,
{
    if from < z {
        lemma_find_symbol(c1, c2, (from + 1) as u8, z);
    }
}

} // verus!
