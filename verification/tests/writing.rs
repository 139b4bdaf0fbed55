use rdkit::{MolError, ROMol, SmilesParserParams};

fn canonical(text: &str) -> String {
    ROMol::from_smile(text).unwrap().as_smile()
}

#[test]
fn canonical_texts() {
    assert_eq!(canonical("C"), "C");
    assert_eq!(canonical("CCO"), "CCO");
    assert_eq!(canonical("C=C"), "C=C");
    assert_eq!(canonical("C#N"), "C#N");
    assert_eq!(canonical("CC(C)C"), "CC(C)C");
    assert_eq!(canonical("CC(=O)NC"), "CC(NC)=O");
    assert_eq!(canonical("c1ccccc1"), "c1ccccc1");
    assert_eq!(canonical("C1CC1"), "C1CC1");
    assert_eq!(canonical("c1ccccc1C(=O)NC"), "CNC(c1ccccc1)=O");
    assert_eq!(canonical("FC(F)(F)F"), "C(F)(F)(F)F");
    assert_eq!(canonical("ClCCBr"), "C(CBr)Cl");
    assert_eq!(canonical("c1ccc2ccccc2c1"), "c2ccc1ccccc1c2");
}

#[test]
fn brackets_only_where_they_are_needed() {
    assert_eq!(canonical("[CH4]"), "C");
    assert_eq!(canonical("[CH3][CH2][OH]"), "CCO");
    assert_eq!(canonical("[CH2]"), "[CH2]");
    assert_eq!(canonical("[NH4+]"), "[NH4+]");
    assert_eq!(canonical("[13CH4]"), "[13CH4]");
    assert_eq!(canonical("[Fe+2]"), "[Fe+2]");
    assert_eq!(canonical("[Cl-15]"), "[Cl-15]");
    assert_eq!(canonical("[O-]C(=O)C"), "CC([O-])=O");
    assert_eq!(canonical("C[C@@H](F)Cl"), "C[C@@H](F)Cl");
    assert_eq!(canonical("C[C@H](F)Cl"), "C[C@H](F)Cl");
    assert_eq!(canonical("c1cc[nH]c1"), "c1cc[nH]c1");
    assert_eq!(canonical("[se]1cccc1"), "c1cc[se]c1");
    assert_eq!(canonical("[2H]O[2H]"), "[2H]O[2H]");
}

#[test]
fn the_way_of_writing_does_not_matter() {
    assert_eq!(canonical("OCC"), canonical("CCO"));
    assert_eq!(canonical("C(O)C"), canonical("CCO"));
    assert_eq!(canonical("C1=CC=CC=C1"), canonical("c1ccccc1"));
    assert_eq!(canonical("c1ccccc1c1ccccc1"), canonical("c1ccccc1-c1ccccc1"));
    assert_eq!(canonical("CNC(=O)c1ccccc1"), canonical("c1ccccc1C(=O)NC"));
    assert_eq!(canonical("O=C(C)NC"), canonical("CC(=O)NC"));
    assert_eq!(canonical("C(C)(C)C"), canonical("CC(C)C"));
    assert_eq!(canonical("[Cl-].[Na+]"), canonical("[Na+].[Cl-]"));
    assert_eq!(canonical("C%12CC%12"), canonical("C1CC1"));
    assert_eq!(canonical("N1C=CC=C1"), canonical("c1cc[nH]c1"));
    assert_eq!(canonical("OC(=O)c1ccccc1"), canonical("c1ccccc1C(O)=O"));
}

const SAMPLES: [&str; 30] = [
    "C",
    "CCO",
    "CC(=O)NC",
    "c1ccccc1",
    "C1=CC=CC=C1",
    "c1ccccc1C(=O)NC",
    "[NH4+]",
    "[13CH4]",
    "C[C@@H](F)Cl",
    "[O-]C(=O)C",
    "[Na+].[Cl-]",
    "c1ccc2ccccc2c1",
    "c1cc[nH]c1",
    "C1=CNC=C1",
    "c1ccncc1",
    "C1CC1",
    "CC(C)C",
    "N#N",
    "c1ccccc1-c1ccccc1",
    "ClCCBr",
    "O=C1C=CC(=O)C=C1",
    "c1ccoc1",
    "O=c1cc[nH]cc1",
    "C12CC1C2",
    "C1CC2CC1C2",
    "c1ccc2c(c1)Cc1ccccc12",
    "C1CCC2CCCCC2C1",
    "CS(=O)(=O)C",
    "CC(C)(C)c1ccc(O)cc1",
    "OC(=O)CC(O)(CC(O)=O)C(O)=O",
];

fn sorted_atoms(m: &ROMol) -> Vec<(u8, i8, Option<u16>, Option<u8>, bool, bool)> {
    let mut v: Vec<_> = (0..m.num_atoms(true))
        .map(|i| m.atom(i).unwrap())
        .map(|a| (a.element, a.charge, a.isotope, a.hydrogens, a.aromatic, a.in_ring))
        .collect();
    v.sort();
    v
}

fn sorted_bonds(m: &ROMol) -> Vec<(u8, u8, u8, bool)> {
    let order = |o| match o {
        rdkit::BondOrder::Single => 1,
        rdkit::BondOrder::Double => 2,
        rdkit::BondOrder::Triple => 3,
        rdkit::BondOrder::Aromatic => 4,
    };
    let mut v: Vec<_> = (0..m.num_bonds())
        .map(|j| m.bond(j).unwrap())
        .map(|b| {
            let x = m.atom(b.begin).unwrap().element;
            let y = m.atom(b.end).unwrap().element;
            (x.min(y), x.max(y), order(b.order), b.in_ring)
        })
        .collect();
    v.sort();
    v
}

#[test]
fn reading_the_canonical_text_gives_the_molecule_back() {
    for text in SAMPLES.iter() {
        let first = ROMol::from_smile(text).unwrap();
        let second = ROMol::from_smile(&first.as_smile()).unwrap();
        assert_eq!(sorted_atoms(&first), sorted_atoms(&second), "{}", text);
        assert_eq!(sorted_bonds(&first), sorted_bonds(&second), "{}", text);
        assert_eq!(first.rings().len(), second.rings().len(), "{}", text);
    }
}

#[test]
fn writing_the_canonical_text_again_changes_nothing() {
    for text in SAMPLES.iter() {
        let once = canonical(text);
        let twice = canonical(&once);
        assert_eq!(once, twice, "{}", text);
    }
}

#[test]
fn text_as_bytes_and_as_string_agree() {
    for text in SAMPLES.iter() {
        let m = ROMol::from_smile(text).unwrap();
        assert_eq!(m.as_smile().into_bytes(), m.as_smile_bytes());
        assert!(!m.as_smile().is_empty());
    }
}

#[test]
fn from_bytes_reads_what_from_smile_reads() {
    let a = ROMol::from_bytes(b"CC(=O)NC", true, true).unwrap();
    let b = ROMol::from_smile("CC(=O)NC").unwrap();
    assert_eq!(a.as_smile(), b.as_smile());
    assert!(matches!(ROMol::from_bytes(b"C1CC", false, false), Err(MolError::Parse(_))));
}

#[test]
fn unsanitized_molecules_are_written_as_they_were_read() {
    let mut params = SmilesParserParams::default();
    params.sanitize(false);
    let m = ROMol::from_smile_with_params("C1=CC=CC=C1", &params).unwrap();
    assert_eq!(m.as_smile(), "C1=CC=CC=C1");
    let m = ROMol::from_smile_with_params("[CH4]", &params).unwrap();
    assert_eq!(m.as_smile(), "C");
    let m = ROMol::from_smile_with_params("[CH3]", &params).unwrap();
    assert_eq!(m.as_smile(), "[CH3]");
    let m = ROMol::from_smile_with_params("C1C1", &params).unwrap();
    let again = ROMol::from_smile_with_params(&m.as_smile(), &params).unwrap();
    assert_eq!(again.num_bonds(), 2);
}

#[test]
fn many_open_rings_get_long_labels() {
    let mut text = String::from("C");
    for i in 1..=120 {
        text.push_str(&format!("%({})", i));
    }
    for i in 1..=120 {
        text.push_str(&format!("C%({})", i));
    }
    let mut params = SmilesParserParams::default();
    params.sanitize(false);
    let m = ROMol::from_smile_with_params(&text, &params).unwrap();
    assert_eq!(m.num_atoms(true), 121);
    assert_eq!(m.num_bonds(), 240);
    let written = m.as_smile();
    assert!(written.contains("%(100)"));
    let again = ROMol::from_smile_with_params(&written, &params).unwrap();
    assert_eq!(again.num_atoms(true), 121);
    assert_eq!(again.num_bonds(), 240);
    assert_eq!(again.as_smile(), written);
}

fn same_text(expected: &str, texts: &[&str]) {
    for text in texts {
        assert_eq!(canonical(text), expected, "{}", text);
    }
}

#[test]
fn the_order_of_atoms_and_bonds_does_not_matter() {
    // Each molecule with its atoms and bonds in several orders, every bond written as a
    // ring closure between atoms that stand apart.
    same_text(
        "C1CC2CCC3CCC4CCC5CCC7CCC1c6c2c3c4c5c67",
        &[
            "c12%26.c167.c6%11%12.c%11%16%17.c%16%21%22.c%21%26%27.C23%30.C578.C%10%12%13.C%15%17%18.C%20%22%23.C%25%27%28.C34.C89.C%13%14.C%18%19.C%23%24.C%28%29.C45.C9%10.C%14%15.C%19%20.C%24%25.C%29%30",
            "c%22%25%29.C2%18.C%11%24.C%19%27.C6%18%30.C%16%23.C%21%28.C%13%27.C%15%21%26.C%14%17.C%14%30.C8%11.C4%17%23.c3%22%26.C9%12%19.C5%24%25.c7%10%12.C5%28.c147.c136.C9%16.C2%15.c%10%20%29.C8%13%20",
            "C%14%22.C1%25.C5%19.c68%28.c3%15%27.C1%13.c4%15%20.C9%18%27.C%18%29.C%22%23%26.C6%12%16.C2%13%30.c2%20%28.C%11%30.C4%19%25.c3%17%26.C%14%24.C59.C7%21%24.C%10%16.c78%17.C%10%21.C%23%29.C%11%12",
            "C%11%16%30.C%27%29.c%18%19%21.C5%26.C%23%30.C7%23.C36.C7%18%28.C3%11.c14%24.C%12%17.C%13%14%17.C%13%26.C2%12.C26%20.C89%29.c%16%21%25.C8%15.C15%10.c%20%22%25.C%10%15.c4%14%22.C%27%28.c9%19%24",
            "C%20%23.C%24%30.c%11%16%27.c%15%22%26.C1%14%21.C3%19%28.C6%14.C%18%29.C4%29.C78%25.C2%25.c58%16.C%17%23.C%15%17%24.C1%10.C7%10.c%13%26%27.C%19%30.C9%11%18.C29.c3%12%22.c5%12%21.C6%28.C4%13%20",
        ],
    );
    same_text(
        "c2ccc1ccccc1c2",
        &[
            "c1%10.c12.c23.c34%11.c45.c56.c67.c78.c89%11.c9%10",
            "c38.c35.c56.c26.c1%11.c79.c9%10.c247.c1%10.c48%11",
            "c2%11.c38.c89.c56.c15.c127.c479.c6%10.c3%11.c4%10",
            "c3%10.c18.c57.c9%11.c89.c2%10%11.c16.c267.c34.c45",
            "c39.c9%11.c25.c178.c4%10.c156.c36.c8%11.c24.c7%10",
        ],
    );
    same_text(
        "C12C3C5C1C4C2C3C45",
        &[
            "C149.C12%10.C23%11.C34%12.C589.C56%10.C67%11.C78%12",
            "C35%12.C69%12.C26%10.C23%11.C47%11.C145.C189.C78%10",
            "C348.C157.C1%10%12.C29%12.C367.C6%10%11.C245.C89%11",
            "C257.C7%10%12.C69%12.C149.C58%11.C236.C18%10.C34%11",
            "C348.C279.C18%10.C49%12.C23%11.C567.C6%10%11.C15%12",
        ],
    );
    same_text(
        "C1C2CC3CC1CC(C2)C3",
        &[
            "C135.C27%12.C489.C6%10%11.C12.C34.C56.C78.C9%10.C%11%12",
            "C6%11.C4%12.C9%10%11.C378.C17.C26%12.C59.C28.C145.C3%10",
            "C23.C48.C6%10.C678.C14%11.C5%11.C7%12.C25%12.C39%10.C19",
            "C68.C9%10.C14%11.C3%10%12.C1%12.C258.C679.C23.C45.C7%11",
            "C36.C48.C137.C68%12.C%10%12.C59%10.C9%11.C15.C27.C24%11",
        ],
    );
    same_text(
        "Cc1ccc(C)cc1",
        &[
            "c167.c12.c23.c348.c45.c56.C7.C8",
            "c26.C1.c34.c48.c136.c27.c578.C5",
            "c456.C5.C7.c18.c48.c26.c137.c23",
            "c47.c578.c236.c46.C5.C2.c13.c18",
            "C8.c34.c13.C2.c56.c57.c468.c127",
        ],
    );
    same_text(
        "CC(C)(C)C",
        &[
            "C1234.C1.C2.C3.C4",
            "C3.C2.C1.C4.C1234",
            "C3.C1.C4.C1234.C2",
            "C1234.C1.C3.C2.C4",
            "C2.C1234.C4.C1.C3",
        ],
    );
    same_text(
        "CC(NCc1ccccc1)O",
        &[
            "C1.C123.O2.N34.C45.c56%11.c67.c78.c89.c9%10.c%10%11",
            "c79.c28.C%11.O5.N16.c34%10.c27.C36.C15%11.c9%10.c48",
            "c237.O5.c16.c1%11.c2%11.C58%10.C34.C8.c79.c69.N4%10",
            "N79.C39.c5%10.c25.c6%10.c18.C4.C47%11.O%11.c68.c123",
            "c7%10.N15.c6%11.O3.c24.c78%11.c2%10.C18.C9.C359.c46",
        ],
    );
}

#[test]
fn what_is_read_back_stands_in_writing_order() {
    for text in ["CC(=O)NC", "c1ccccc1C(=O)NC", "OC(=O)CC(O)(CC(O)=O)C(O)=O", "CS(=O)(=O)Nc1ccc(F)cc1"] {
        let first = ROMol::from_smile(text).unwrap();
        let second = ROMol::from_smile(&first.as_smile()).unwrap();
        let third = ROMol::from_smile(&second.as_smile()).unwrap();
        assert_eq!(second.num_atoms(true), first.num_atoms(true));
        assert_eq!(second.num_bonds(), first.num_bonds());
        for i in 0..second.num_atoms(true) {
            assert_eq!(second.atom(i), third.atom(i), "{} atom {}", text, i);
        }
        for j in 0..second.num_bonds() {
            assert_eq!(second.bond(j), third.bond(j), "{} bond {}", text, j);
            let b = second.bond(j).unwrap();
            assert!(b.begin < b.end);
            if j > 0 {
                assert!(second.bond(j - 1).unwrap().end <= b.end);
            }
        }
    }
}
