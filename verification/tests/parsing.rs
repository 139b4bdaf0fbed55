use rdkit::{
    Atom, BondOrder, Chirality, MolError, ParseErrorKind, ROMol, SanitizeErrorKind, SmilesParserParams,
};

fn parse_error(text: &str) -> (ParseErrorKind, usize) {
    match ROMol::from_smile(text) {
        Err(MolError::Parse(e)) => (e.kind, e.position),
        other => panic!("{} gave {:?}", text, other),
    }
}

fn sanitize_error(text: &str) -> (SanitizeErrorKind, usize) {
    match ROMol::from_smile(text) {
        Err(MolError::Sanitize(e)) => (e.kind, e.index),
        other => panic!("{} gave {:?}", text, other),
    }
}

#[test]
fn test_name() {
    let mol = ROMol::from_smile("c1ccccc1C(=O)NC").unwrap();
    assert_eq!(mol.num_atoms(false), 19);
}

#[test]
fn benzene_is_one_aromatic_ring() {
    let mol = ROMol::from_smile("c1ccccc1").unwrap();
    assert_eq!(mol.num_atoms(true), 6);
    assert_eq!(mol.num_bonds(), 6);
    for i in 0..6 {
        let a = mol.atom(i).unwrap();
        assert_eq!(a.element, 6);
        assert!(a.aromatic);
        assert!(a.in_ring);
        assert_eq!(a.hydrogens, Some(1));
    }
    for j in 0..6 {
        let b = mol.bond(j).unwrap();
        assert_eq!(b.order, BondOrder::Aromatic);
        assert!(b.in_ring);
    }
    assert_eq!(mol.rings().len(), 1);
    assert_eq!(mol.rings()[0].len(), 6);
    assert_eq!(mol.num_atoms(false), 12);
}

#[test]
fn amide_has_five_heavy_atoms() {
    let mol = ROMol::from_smile("CC(=O)NC").unwrap();
    let elements: Vec<u8> = (0..5).map(|i| mol.atom(i).unwrap().element).collect();
    assert_eq!(elements, vec![6, 6, 8, 7, 6]);
    let hydrogens: Vec<Option<u8>> = (0..5).map(|i| mol.atom(i).unwrap().hydrogens).collect();
    assert_eq!(hydrogens, vec![Some(3), Some(0), Some(0), Some(1), Some(3)]);
    let doubles: Vec<(usize, usize)> = (0..mol.num_bonds())
        .map(|j| mol.bond(j).unwrap())
        .filter(|b| b.order == BondOrder::Double)
        .map(|b| (b.begin, b.end))
        .collect();
    assert_eq!(doubles, vec![(1, 2)]);
    assert_eq!(mol.num_atoms(true), 5);
    assert_eq!(mol.num_atoms(false), 12);
    assert!(mol.rings().is_empty());
    assert_eq!(mol.atom(5), None);
    assert_eq!(mol.bond(4), None);
}

#[test]
fn open_ring_closure_is_an_error() {
    assert_eq!(parse_error("C1CC"), (ParseErrorKind::UnmatchedRingClosure, 4));
    assert_eq!(parse_error("C1CC11"), (ParseErrorKind::UnmatchedRingClosure, 6));
}

#[test]
fn five_bonds_on_carbon_is_a_valence_error() {
    assert_eq!(sanitize_error("C(C)(C)(C)(C)C"), (SanitizeErrorKind::Valence, 0));
    assert_eq!(sanitize_error("CC(C)(C)(C)(C)C"), (SanitizeErrorKind::Valence, 1));
}

#[test]
fn valence_counts_the_charge() {
    assert!(ROMol::from_smile("[NH4+]").is_ok());
    assert!(ROMol::from_smile("C[N+](C)(C)C").is_ok());
    assert_eq!(sanitize_error("[CH4+]"), (SanitizeErrorKind::Valence, 0));
    assert_eq!(sanitize_error("[OH3+]"), (SanitizeErrorKind::Valence, 0));
    assert!(ROMol::from_smile("[Fe](C)(C)(C)(C)(C)(C)(C)C").is_ok());
}

#[test]
fn valence_check_can_be_switched_off() {
    let mut params = SmilesParserParams::default();
    assert!(params.sanitize);
    assert!(params.strict_valence);
    params.strict_valence(false);
    assert!(params.sanitize);
    let mol = ROMol::from_smile_with_params("C(C)(C)(C)(C)C", &params).unwrap();
    assert_eq!(mol.atom(0).unwrap().hydrogens, Some(0));
    assert_eq!(mol.atom(1).unwrap().hydrogens, Some(3));
}

#[test]
fn sanitization_can_be_switched_off() {
    let mut params = SmilesParserParams::default();
    params.sanitize(false);
    assert!(!params.sanitize);
    assert!(params.strict_valence);
    let mol = ROMol::from_smile_with_params("c1cccc1", &params).unwrap();
    assert_eq!(mol.num_atoms(true), 5);
    let a = mol.atom(0).unwrap();
    assert!(a.aromatic);
    assert!(!a.in_ring);
    assert_eq!(a.hydrogens, None);
    assert!(ROMol::from_smile_with_params("C(C)(C)(C)(C)C", &params).is_ok());
    assert!(matches!(ROMol::from_smile_with_params("C1CC", &params), Err(MolError::Parse(_))));
    params.sanitize(true);
    assert!(matches!(ROMol::from_smile_with_params("c1cccc1", &params), Err(MolError::Sanitize(_))));
}

#[test]
fn malformed_tokens() {
    assert_eq!(parse_error("C$C"), (ParseErrorKind::MalformedToken, 1));
    assert_eq!(parse_error("C="), (ParseErrorKind::MalformedToken, 2));
    assert_eq!(parse_error("=C"), (ParseErrorKind::MalformedToken, 0));
    assert_eq!(parse_error("C==C"), (ParseErrorKind::MalformedToken, 2));
    assert_eq!(parse_error("[C"), (ParseErrorKind::MalformedToken, 0));
    assert_eq!(parse_error("C[1000C]"), (ParseErrorKind::MalformedToken, 1));
    assert_eq!(parse_error("[C+16]"), (ParseErrorKind::MalformedToken, 0));
    assert_eq!(parse_error("C%1"), (ParseErrorKind::MalformedToken, 1));
    assert_eq!(parse_error("C11"), (ParseErrorKind::MalformedToken, 2));
    assert_eq!(parse_error("C=1CCC#1"), (ParseErrorKind::MalformedToken, 7));
    assert_eq!(parse_error("(C)"), (ParseErrorKind::MalformedToken, 0));
    assert_eq!(parse_error("1C"), (ParseErrorKind::MalformedToken, 0));
    assert_eq!(parse_error("C/C"), (ParseErrorKind::MalformedToken, 1));
    assert_eq!(parse_error("C\u{e9}"), (ParseErrorKind::MalformedToken, 1));
}

#[test]
fn unmatched_branches() {
    assert_eq!(parse_error("C)"), (ParseErrorKind::UnmatchedBranch, 1));
    assert_eq!(parse_error("C("), (ParseErrorKind::UnmatchedBranch, 2));
    assert_eq!(parse_error("C(C(C)"), (ParseErrorKind::UnmatchedBranch, 6));
    assert_eq!(parse_error("CC(C))C"), (ParseErrorKind::UnmatchedBranch, 5));
}

#[test]
fn unknown_elements() {
    assert_eq!(parse_error("Xx"), (ParseErrorKind::UnknownElement, 0));
    assert_eq!(parse_error("C[Qq]"), (ParseErrorKind::UnknownElement, 1));
    assert_eq!(parse_error("CH"), (ParseErrorKind::UnknownElement, 1));
    assert_eq!(parse_error("[x]"), (ParseErrorKind::UnknownElement, 0));
}

#[test]
fn the_first_error_in_the_text_is_reported() {
    assert_eq!(parse_error("C)C$"), (ParseErrorKind::UnmatchedBranch, 1));
    assert_eq!(parse_error("C$C)"), (ParseErrorKind::MalformedToken, 1));
    assert_eq!(parse_error("C1C(C$"), (ParseErrorKind::MalformedToken, 5));
}

#[test]
fn ring_perception_errors() {
    assert_eq!(sanitize_error("C1C1"), (SanitizeErrorKind::RingPerception, 1));
    assert_eq!(sanitize_error("CC12CC12"), (SanitizeErrorKind::RingPerception, 4));
}

#[test]
fn aromaticity_errors() {
    assert_eq!(sanitize_error("c1cccc1"), (SanitizeErrorKind::Aromaticity, 0));
    assert_eq!(sanitize_error("C:C"), (SanitizeErrorKind::Aromaticity, 0));
    assert_eq!(sanitize_error("Ccc"), (SanitizeErrorKind::Aromaticity, 1));
    assert_eq!(sanitize_error("c1ccccc1C(=O)c"), (SanitizeErrorKind::Aromaticity, 8));
}

#[test]
fn errors_come_in_the_order_of_the_stages() {
    assert_eq!(sanitize_error("C(C)(C)(C)(C)C1C1"), (SanitizeErrorKind::RingPerception, 6));
    assert_eq!(sanitize_error("C(C)(C)(C)(C)cc"), (SanitizeErrorKind::Aromaticity, 5));
}

#[test]
fn bracket_atoms_carry_what_is_written() {
    let mol = ROMol::from_smile("[13CH4]").unwrap();
    let a = mol.atom(0).unwrap();
    assert_eq!(
        a,
        Atom {
            element: 6,
            charge: 0,
            isotope: Some(13),
            hydrogens: Some(4),
            aromatic: false,
            in_ring: false,
            chirality: Chirality::Unspecified,
        }
    );
    let mol = ROMol::from_smile("[Fe+2]").unwrap();
    assert_eq!(mol.atom(0).unwrap().element, 26);
    assert_eq!(mol.atom(0).unwrap().charge, 2);
    assert_eq!(mol.atom(0).unwrap().hydrogens, Some(0));
    let mol = ROMol::from_smile("[O-]C").unwrap();
    assert_eq!(mol.atom(0).unwrap().charge, -1);
    let mol = ROMol::from_smile("[Cl-15]").unwrap();
    assert_eq!(mol.atom(0).unwrap().charge, -15);
    let mol = ROMol::from_smile("N[C@@H](C)O").unwrap();
    assert_eq!(mol.atom(1).unwrap().chirality, Chirality::Clockwise);
    assert_eq!(mol.atom(1).unwrap().hydrogens, Some(1));
    let mol = ROMol::from_smile("N[C@H](C)O").unwrap();
    assert_eq!(mol.atom(1).unwrap().chirality, Chirality::CounterClockwise);
    let mol = ROMol::from_smile("[Og]").unwrap();
    assert_eq!(mol.atom(0).unwrap().element, 118);
    let mol = ROMol::from_smile("[se]1cccc1").unwrap();
    assert_eq!(mol.atom(0).unwrap().element, 34);
    assert!(mol.atom(0).unwrap().aromatic);
}

#[test]
fn two_letter_symbols_outside_brackets() {
    let mol = ROMol::from_smile("ClCCBr").unwrap();
    let elements: Vec<u8> = (0..4).map(|i| mol.atom(i).unwrap().element).collect();
    assert_eq!(elements, vec![17, 6, 6, 35]);
    let mol = ROMol::from_smile("CBC").unwrap();
    assert_eq!(mol.atom(1).unwrap().element, 5);
}

#[test]
fn ring_closure_labels() {
    for text in ["C1CC1", "C%12CC%12", "C%(100)CC%(100)", "C%(7)CC7", "C0CC0"] {
        let mol = ROMol::from_smile(text).unwrap();
        assert_eq!(mol.num_bonds(), 3);
        let b = mol.bond(2).unwrap();
        assert_eq!((b.begin, b.end), (0, 2));
        assert_eq!(mol.rings(), vec![vec![1, 2, 0]]);
    }
    let mol = ROMol::from_smile("C=1CCCCC1").unwrap();
    assert_eq!(mol.bond(5).unwrap().order, BondOrder::Double);
    let mol = ROMol::from_smile("C1CCCCC=1").unwrap();
    assert_eq!(mol.bond(5).unwrap().order, BondOrder::Double);
    let mol = ROMol::from_smile("C=1CCCCC=1").unwrap();
    assert_eq!(mol.bond(5).unwrap().order, BondOrder::Double);
    let mol = ROMol::from_smile("C1CC1C1CC1").unwrap();
    assert_eq!(mol.rings().len(), 2);
}

#[test]
fn bonds_stand_in_the_order_in_which_they_close() {
    let mol = ROMol::from_smile("C1CC(C)C1").unwrap();
    let ends: Vec<(usize, usize)> = (0..5).map(|j| mol.bond(j).unwrap()).map(|b| (b.begin, b.end)).collect();
    assert_eq!(ends, vec![(0, 1), (1, 2), (2, 3), (2, 4), (0, 4)]);
}

#[test]
fn dots_part_molecules() {
    let mol = ROMol::from_smile("[Na+].[Cl-]").unwrap();
    assert_eq!(mol.num_atoms(true), 2);
    assert_eq!(mol.num_bonds(), 0);
    let mol = ROMol::from_smile("C1.C1").unwrap();
    assert_eq!(mol.num_bonds(), 1);
    assert_eq!(parse_error("C=.C"), (ParseErrorKind::MalformedToken, 2));
}

#[test]
fn the_empty_text_is_the_empty_molecule() {
    let mol = ROMol::from_smile("").unwrap();
    assert_eq!(mol.num_atoms(false), 0);
    assert_eq!(mol.num_bonds(), 0);
    assert_eq!(mol.as_smile(), "");
}

#[test]
fn kekule_rings_become_aromatic() {
    let mol = ROMol::from_smile("C1=CC=CC=C1").unwrap();
    for i in 0..6 {
        assert!(mol.atom(i).unwrap().aromatic);
        assert_eq!(mol.bond(i).unwrap().order, BondOrder::Aromatic);
    }
    let mol = ROMol::from_smile("C1=CNC=C1").unwrap();
    assert!(mol.atom(2).unwrap().aromatic);
    assert_eq!(mol.atom(2).unwrap().hydrogens, Some(1));
    let mol = ROMol::from_smile("C1=CCC=C1").unwrap();
    assert!(!mol.atom(0).unwrap().aromatic);
    assert_eq!(mol.bond(0).unwrap().order, BondOrder::Double);
    let mol = ROMol::from_smile("O=C1C=CC(=O)C=C1").unwrap();
    assert!(!mol.atom(1).unwrap().aromatic);
    let mol = ROMol::from_smile("C1=CC=CN=C1").unwrap();
    assert!(mol.atom(4).unwrap().aromatic);
    assert_eq!(mol.atom(4).unwrap().hydrogens, Some(0));
}

#[test]
fn bonds_between_aromatic_rings_are_single() {
    let mol = ROMol::from_smile("c1ccccc1c1ccccc1").unwrap();
    let link = mol.bond(6).unwrap();
    assert_eq!((link.begin, link.end), (5, 6));
    assert_eq!(link.order, BondOrder::Single);
    assert!(!link.in_ring);
    assert_eq!(mol.rings().len(), 2);
}

#[test]
fn hydrogens_fill_the_usual_valence() {
    let counts = |text: &str| -> Vec<u8> {
        let mol = ROMol::from_smile(text).unwrap();
        (0..mol.num_atoms(true)).map(|i| mol.atom(i).unwrap().hydrogens.unwrap()).collect()
    };
    assert_eq!(counts("C"), vec![4]);
    assert_eq!(counts("N"), vec![3]);
    assert_eq!(counts("O"), vec![2]);
    assert_eq!(counts("B"), vec![3]);
    assert_eq!(counts("P"), vec![3]);
    assert_eq!(counts("S"), vec![2]);
    assert_eq!(counts("Cl"), vec![1]);
    assert_eq!(counts("C=O"), vec![2, 0]);
    assert_eq!(counts("C#N"), vec![1, 0]);
    assert_eq!(counts("CS(=O)(=O)C"), vec![3, 0, 0, 0, 3]);
    assert_eq!(counts("CP(C)(C)=O"), vec![3, 0, 3, 3, 0]);
    assert_eq!(counts("[CH2]"), vec![2]);
    assert_eq!(counts("c1ccncc1"), vec![1, 1, 1, 0, 1, 1]);
    assert_eq!(counts("c1ccoc1"), vec![1, 1, 1, 0, 1]);
    assert_eq!(counts("Cn1cccc1"), vec![3, 0, 1, 1, 1, 1]);
}

#[test]
fn fused_rings() {
    let mol = ROMol::from_smile("c1ccc2ccccc2c1").unwrap();
    assert_eq!(mol.rings().len(), 2);
    assert_eq!(mol.num_atoms(false), 18);
    let mol = ROMol::from_smile("C12CC1C2").unwrap();
    assert_eq!(mol.rings(), vec![vec![1, 2, 0], vec![2, 3, 0]]);
    let mol = ROMol::from_smile("CC1CC1").unwrap();
    assert!(!mol.atom(0).unwrap().in_ring);
    assert!(mol.atom(1).unwrap().in_ring);
    assert!(!mol.bond(0).unwrap().in_ring);
    assert!(mol.bond(1).unwrap().in_ring);
}

#[test]
fn a_ring_is_found_whatever_the_order_of_the_atoms() {
    // A benzene ring each of whose bonds lies on a saturated six-ring as well, with its
    // atoms and bonds in several orders.
    let texts = [
        "C%(1)%(7)%(24).C%(2)%(9)%(10).C%(3)%(12)%(13).C%(4)%(15)%(16).C%(5)%(18)%(19).C%(6)%(21)%(22).C%(7)%(8).C%(10)%(11).C%(13)%(14).C%(16)%(17).C%(19)%(20).C%(22)%(23).C%(8)%(9).C%(11)%(12).C%(14)%(15).C%(17)%(18).C%(20)%(21).C%(23)%(24).c%(1)%(25)%(30).c%(2)%(25)%(26).c%(3)%(26)%(27).c%(4)%(27)%(28).c%(5)%(28)%(29).c%(6)%(29)%(30)",
        "C%(1)%(7)%(24).C%(2)%(9)%(10).C%(3)%(12)%(13).C%(4)%(15)%(16).C%(5)%(18)%(19).C%(6)%(21)%(22).C%(7)%(8).C%(10)%(11).C%(13)%(14).C%(16)%(17).C%(19)%(20).C%(22)%(23).C%(8)%(9).C%(11)%(12).C%(14)%(15).C%(17)%(18).C%(20)%(21).C%(23)%(24).c%(1)%(25)%(30).c%(3)%(26)%(27).c%(5)%(28)%(29).c%(2)%(25)%(26).c%(4)%(27)%(28).c%(6)%(29)%(30)",
        "c%(1)%(25)%(30).c%(3)%(26)%(27).c%(5)%(28)%(29).C%(1)%(7)%(24).C%(2)%(9)%(10).C%(3)%(12)%(13).C%(4)%(15)%(16).C%(5)%(18)%(19).C%(6)%(21)%(22).C%(7)%(8).C%(10)%(11).C%(13)%(14).C%(16)%(17).C%(19)%(20).C%(22)%(23).C%(8)%(9).C%(11)%(12).C%(14)%(15).C%(17)%(18).C%(20)%(21).C%(23)%(24).c%(2)%(25)%(26).c%(4)%(27)%(28).c%(6)%(29)%(30)",
        "C%(1)%(18)%(19).C%(3)%(4)%(20).C%(6)%(7)%(21).C%(9)%(10)%(22).C%(12)%(13)%(23).C%(15)%(16)%(24).C%(1)%(2).C%(4)%(5).C%(7)%(8).C%(10)%(11).C%(13)%(14).C%(16)%(17).C%(2)%(3).C%(5)%(6).C%(8)%(9).C%(11)%(12).C%(14)%(15).C%(17)%(18).c%(19)%(25)%(30).c%(20)%(25)%(26).c%(21)%(26)%(27).c%(22)%(27)%(28).c%(23)%(28)%(29).c%(24)%(29)%(30)",
        "c%(1)%(2)%(26).c%(1)%(6)%(7).c%(6)%(11)%(12).c%(11)%(16)%(17).c%(16)%(21)%(22).c%(21)%(26)%(27).C%(2)%(3)%(30).C%(5)%(7)%(8).C%(10)%(12)%(13).C%(15)%(17)%(18).C%(20)%(22)%(23).C%(25)%(27)%(28).C%(3)%(4).C%(8)%(9).C%(13)%(14).C%(18)%(19).C%(23)%(24).C%(28)%(29).C%(4)%(5).C%(9)%(10).C%(14)%(15).C%(19)%(20).C%(24)%(25).C%(29)%(30)",
        "C%(16)%(20).C%(4)%(26)%(27).C%(10)%(30).C%(27)%(30).C%(5)%(7).C%(14)%(17).c%(23)%(25)%(26).C%(5)%(11)%(19).C%(16)%(18)%(24).C%(1)%(2)%(10).c%(2)%(23)%(28).C%(8)%(17)%(21).c%(12)%(21)%(28).C%(6)%(14).C%(15)%(19).C%(1)%(13).C%(4)%(15).C%(20)%(22).C%(7)%(24).c%(9)%(18)%(29).C%(3)%(6)%(22).c%(3)%(12)%(29).C%(8)%(13).c%(9)%(11)%(25)",
        "C%(4)%(25).c%(15)%(20)%(28).C%(12)%(23)%(25).c%(2)%(21)%(24).c%(10)%(19)%(24).c%(1)%(15)%(23).C%(14)%(22).C%(26)%(30).C%(9)%(11).C%(3)%(7)%(10).c%(1)%(17)%(19).C%(8)%(16).C%(7)%(26).C%(16)%(21)%(22).C%(14)%(29).C%(5)%(13).C%(11)%(12).C%(13)%(27)%(29).C%(9)%(17)%(30).C%(5)%(18).C%(3)%(8).C%(4)%(6).C%(6)%(18)%(28).c%(2)%(20)%(27)",
    ];
    for text in texts.iter() {
        let mol = ROMol::from_smile(text).unwrap();
        assert_eq!(mol.num_atoms(true), 24);
        assert_eq!(mol.num_bonds(), 30);
        let aromatic = (0..24).filter(|i| mol.atom(*i).unwrap().aromatic).count();
        assert_eq!(aromatic, 6);
        let aromatic_bonds = (0..30).filter(|j| mol.bond(*j).unwrap().order == BondOrder::Aromatic).count();
        assert_eq!(aromatic_bonds, 6);
        assert_eq!(mol.rings().len(), 7);
        assert_eq!(mol.num_atoms(false), 24 + 30);
        let again = ROMol::from_smile(&mol.as_smile()).unwrap();
        assert_eq!(again.rings().len(), 7);
    }
}

#[test]
fn every_smallest_ring_through_a_bond_is_found() {
    let cubane = ROMol::from_smile("C12C3C4C1C5C2C3C45").unwrap();
    assert_eq!(cubane.rings().len(), 6);
    for ring in cubane.rings() {
        assert_eq!(ring.len(), 4);
    }
    let spiro = ROMol::from_smile("C1CC12CC2").unwrap();
    assert_eq!(spiro.rings().len(), 2);
    let norbornane = ROMol::from_smile("C1CC2CCC1C2").unwrap();
    assert_eq!(norbornane.rings().len(), 2);
}
