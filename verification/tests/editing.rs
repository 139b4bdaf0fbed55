use rdkit::{Atom, BondOrder, ROMol, RWMol, SanitizeErrorKind, SmilesParserParams};

fn ethanol() -> RWMol {
    RWMol::new()
        .add_atom(Atom::new(6))
        .add_atom(Atom::new(6))
        .add_atom(Atom::new(8))
        .add_bond(0, 1, BondOrder::Single)
        .add_bond(1, 2, BondOrder::Single)
}

#[test]
fn a_molecule_can_be_built_by_hand() {
    let m = ethanol();
    assert_eq!(m.num_atoms(), 3);
    assert_eq!(m.num_bonds(), 2);
    let mol = m.commit().unwrap();
    assert_eq!(mol.as_smile(), "CCO");
    assert_eq!(mol.num_atoms(false), 9);
    assert_eq!(mol.as_smile(), ROMol::from_smile("OCC").unwrap().as_smile());
}

#[test]
fn atoms_and_bonds_that_cannot_stand_are_not_added() {
    let m = ethanol();
    let m = m.add_atom(Atom::new(0));
    assert_eq!(m.num_atoms(), 3);
    let m = m.add_atom(Atom::new(119));
    assert_eq!(m.num_atoms(), 3);
    let mut heavy = Atom::new(6);
    heavy.hydrogens = Some(10);
    let m = m.add_atom(heavy);
    assert_eq!(m.num_atoms(), 3);
    let mut aromatic_iron = Atom::new(26);
    aromatic_iron.aromatic = true;
    let m = m.add_atom(aromatic_iron);
    assert_eq!(m.num_atoms(), 3);
    let m = m.add_bond(0, 3, BondOrder::Single);
    assert_eq!(m.num_bonds(), 2);
    let m = m.add_bond(1, 1, BondOrder::Single);
    assert_eq!(m.num_bonds(), 2);
    let m = m.add_bond(0, 2, BondOrder::Double);
    assert_eq!(m.num_bonds(), 3);
    assert_eq!(m.bond(2).unwrap().order, BondOrder::Double);
    assert_eq!(m.atom(3), None);
    assert_eq!(m.bond(3), None);
}

#[test]
fn removing_an_atom_removes_its_bonds() {
    let m = ROMol::from_smile("CC(=O)NC").unwrap().as_rw_mol(false, -1);
    let m = m.remove_atom(1);
    assert_eq!(m.num_atoms(), 4);
    assert_eq!(m.num_bonds(), 1);
    let b = m.bond(0).unwrap();
    assert_eq!((b.begin, b.end), (2, 3));
    assert_eq!(m.atom(1).unwrap().element, 8);
    let m = m.remove_atom(9);
    assert_eq!(m.num_atoms(), 4);
}

#[test]
fn removing_a_bond() {
    let m = ethanol().remove_bond(2, 1);
    assert_eq!(m.num_bonds(), 1);
    assert_eq!(m.num_atoms(), 3);
    let m = m.remove_bond(0, 2);
    assert_eq!(m.num_bonds(), 1);
    let mol = m.commit().unwrap();
    assert_eq!(mol.as_smile(), "CC.O");
}

#[test]
fn edits_are_not_seen_before_they_are_committed() {
    let mol = ROMol::from_smile("CCO").unwrap();
    let before = mol.as_smile();
    let edit = mol.as_rw_mol(false, -1);
    let edit = edit.add_atom(Atom::new(7)).add_bond(2, 3, BondOrder::Single);
    assert_eq!(mol.num_atoms(true), 3);
    assert_eq!(mol.as_smile(), before);
    let after = edit.commit().unwrap();
    assert_eq!(after.num_atoms(true), 4);
    assert_eq!(mol.as_smile(), before);
    assert_ne!(after.as_smile(), before);
    let quick = mol.as_rw_mol(true, 3);
    assert_eq!(quick.commit().unwrap().as_smile(), before);
}

#[test]
fn hydrogen_counts_follow_the_edits_unless_they_were_written() {
    let m = ROMol::from_smile("CC[NH3+]").unwrap().as_rw_mol(false, -1);
    assert_eq!(m.atom(0).unwrap().hydrogens, None);
    assert_eq!(m.atom(1).unwrap().hydrogens, None);
    assert_eq!(m.atom(2).unwrap().hydrogens, Some(3));
    let m = ROMol::from_smile("c1cc[nH]c1").unwrap().as_rw_mol(false, -1);
    assert_eq!(m.atom(0).unwrap().hydrogens, None);
    assert_eq!(m.atom(3).unwrap().hydrogens, Some(1));
    let mol = ROMol::from_smile("CC").unwrap();
    let grown = mol.as_rw_mol(false, -1).add_atom(Atom::new(9)).add_bond(1, 2, BondOrder::Single);
    let grown = grown.commit().unwrap();
    assert_eq!(grown.atom(1).unwrap().hydrogens, Some(2));
    assert_eq!(grown.as_smile(), "CCF");
}

#[test]
fn a_clone_is_a_molecule_of_its_own() {
    let mol = ROMol::from_smile("c1ccccc1C(=O)NC").unwrap();
    let copy = mol.clone();
    assert_eq!(copy.as_smile(), mol.as_smile());
    let edited = copy.as_rw_mol(false, -1).remove_atom(9).commit().unwrap();
    assert_eq!(edited.num_atoms(true), 9);
    assert_eq!(mol.num_atoms(true), 10);
    assert_eq!(copy.num_atoms(true), 10);
    drop(mol);
    assert_eq!(copy.num_atoms(false), 19);
}

#[test]
fn a_graph_that_fails_can_be_mended() {
    let m = ROMol::from_smile("CC(C)(C)C").unwrap().as_rw_mol(false, -1);
    let m = m.add_atom(Atom::new(6)).add_bond(1, 5, BondOrder::Single);
    let e = m.commit().unwrap_err();
    assert_eq!(e.kind, SanitizeErrorKind::Valence);
    assert_eq!(e.index, 1);
    assert_eq!(m.num_atoms(), 6);
    let m = m.remove_bond(1, 5).add_bond(0, 5, BondOrder::Single);
    let mol = m.commit().unwrap();
    assert_eq!(mol.num_atoms(true), 6);
}

#[test]
fn sanitizing_twice_changes_nothing() {
    for text in ["c1ccccc1C(=O)NC", "C1=CC=CC=C1", "C1=CNC=C1", "O=c1cc[nH]cc1", "c1ccc2ccccc2c1", "CS(=O)(=O)C"] {
        let once = ROMol::from_smile(text).unwrap();
        let twice = once.as_rw_mol(false, -1).commit().unwrap();
        assert_eq!(once.num_atoms(true), twice.num_atoms(true));
        for i in 0..once.num_atoms(true) {
            assert_eq!(once.atom(i), twice.atom(i), "{} atom {}", text, i);
        }
        for j in 0..once.num_bonds() {
            assert_eq!(once.bond(j), twice.bond(j), "{} bond {}", text, j);
        }
    }
}

#[test]
fn hydrogens_written_as_atoms_can_be_removed() {
    let mol = ROMol::from_smile("[H]C([H])([H])[H]").unwrap();
    assert_eq!(mol.num_atoms(true), 5);
    let bare = mol.remove_hs();
    assert_eq!(bare.num_atoms(true), 1);
    assert_eq!(bare.num_bonds(), 0);
    assert_eq!(bare.atom(0).unwrap().hydrogens, Some(4));
    assert_eq!(bare.as_smile(), "C");
    assert_eq!(mol.num_atoms(true), 5);

    let mol = ROMol::from_smile("[H]OC([H])C").unwrap();
    let bare = mol.remove_hs();
    assert_eq!(bare.num_atoms(true), 3);
    let ends: Vec<(usize, usize)> = (0..2).map(|j| bare.bond(j).unwrap()).map(|b| (b.begin, b.end)).collect();
    assert_eq!(ends, vec![(0, 1), (1, 2)]);
    assert_eq!(bare.as_smile(), ROMol::from_smile("OCC").unwrap().as_smile());
}

#[test]
fn hydrogens_that_are_more_than_a_count_stay() {
    let h2 = ROMol::from_smile("[H][H]").unwrap().remove_hs();
    assert_eq!(h2.num_atoms(true), 2);
    let heavy_water = ROMol::from_smile("[2H]O[2H]").unwrap().remove_hs();
    assert_eq!(heavy_water.num_atoms(true), 3);
    let proton = ROMol::from_smile("[H+]").unwrap().remove_hs();
    assert_eq!(proton.num_atoms(true), 1);
    let mut params = SmilesParserParams::default();
    params.sanitize(false);
    let bridge = ROMol::from_smile_with_params("B[H]B", &params).unwrap().remove_hs();
    assert_eq!(bridge.num_atoms(true), 3);
    let double = ROMol::from_smile_with_params("[H]=C", &params).unwrap().remove_hs();
    assert_eq!(double.num_atoms(true), 2);
    let full = ROMol::from_smile_with_params("[H][CH9]", &params).unwrap().remove_hs();
    assert_eq!(full.num_atoms(true), 2);
    let raw = ROMol::from_smile_with_params("[H]C[H]", &params).unwrap().remove_hs();
    assert_eq!(raw.num_atoms(true), 1);
    assert_eq!(raw.atom(0).unwrap().hydrogens, None);
    let plain = ROMol::from_smile("CCO").unwrap().remove_hs();
    assert_eq!(plain.as_smile(), "CCO");
}
