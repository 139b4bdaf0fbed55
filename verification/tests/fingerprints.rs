use rdkit::ROMol;

fn ones(bits: &[bool]) -> Vec<usize> {
    bits.iter().enumerate().filter(|(_, b)| **b).map(|(i, _)| i).collect()
}

#[test]
fn fingerprint_of_methane() {
    let f = ROMol::from_smile("C").unwrap().fingerprint();
    assert_eq!(f.bits.len(), 2048);
    assert_eq!(f.hashes, vec![7056470401028845651, 8513599704279035836, 14462338987805334358]);
    assert_eq!(ones(&f.bits), vec![83, 854, 1980]);
}

#[test]
fn fingerprint_of_ethanol() {
    let m = ROMol::from_smile("CCO").unwrap();
    let f = m.fingerprint();
    assert_eq!(
        f.hashes,
        vec![
            1301835822464499622,
            3104821825957548609,
            6391572637843674811,
            7056469301517217440,
            7056472600052102073,
            7136478819487693560,
            11653158339402746954,
            12661348980176225292,
            12876895639614281664
        ]
    );
    assert_eq!(ones(&f.bits), vec![577, 760, 953, 1036, 1098, 1696, 1723, 1958, 1984]);
    let zero = m.fingerprint_with(0, 2048);
    assert_eq!(zero.hashes, vec![7056469301517217440, 7056472600052102073, 11653158339402746954]);
}

#[test]
fn fingerprint_as_decimal_strings() {
    let m = ROMol::from_smile("CCO").unwrap();
    let strings = m.fingerprint_2_vec();
    assert_eq!(strings.len(), 9);
    assert_eq!(strings[0], "1301835822464499622");
    assert_eq!(strings[8], "12876895639614281664");
    let f = m.fingerprint();
    let back: Vec<u64> = strings.iter().map(|s| s.parse().unwrap()).collect();
    assert_eq!(back, f.hashes);
}

#[test]
fn fingerprints_do_not_change_between_calls() {
    for text in ["c1ccccc1C(=O)NC", "CCO", "C1CC2CC1C2", "[Na+].[Cl-]"] {
        let m = ROMol::from_smile(text).unwrap();
        assert_eq!(m.fingerprint(), m.fingerprint());
        assert_eq!(m.fingerprint_with(3, 1024), m.fingerprint_with(3, 1024));
        assert_eq!(m.fingerprint(), m.fingerprint_with(2, 2048));
        assert_eq!(m.fingerprint(), m.clone().fingerprint());
        assert_eq!(m.fingerprint(), ROMol::from_smile(text).unwrap().fingerprint());
    }
}

#[test]
fn fingerprints_do_not_depend_on_the_order_of_the_atoms() {
    let pairs = [
        ("CCO", "OCC"),
        ("CC(=O)NC", "CNC(C)=O"),
        ("c1ccccc1C(=O)NC", "CNC(=O)c1ccccc1"),
        ("C1=CC=CC=C1", "c1ccccc1"),
        ("OC(=O)c1ccccc1", "c1ccccc1C(O)=O"),
    ];
    for (a, b) in pairs.iter() {
        let x = ROMol::from_smile(a).unwrap().fingerprint();
        let y = ROMol::from_smile(b).unwrap().fingerprint();
        assert_eq!(x, y, "{} {}", a, b);
    }
}

#[test]
fn fingerprints_tell_small_molecules_apart() {
    let of = |text: &str| ROMol::from_smile(text).unwrap().fingerprint().bits;
    assert_ne!(of("CCO"), of("CCN"));
    assert_ne!(of("CCO"), of("CCS"));
    assert_ne!(of("CC"), of("C=C"));
    assert_ne!(of("C=C"), of("C#C"));
    assert_ne!(of("CC=O"), of("CCO"));
    assert_ne!(of("c1ccccc1"), of("C1CCCCC1"));
    assert_ne!(of("c1ccccc1"), of("c1ccncc1"));
    assert_ne!(of("[NH4+]"), of("N"));
    assert_ne!(of("CCCC"), of("CC(C)C"));
}

#[test]
fn the_size_sets_the_number_of_bits() {
    let m = ROMol::from_smile("CCO").unwrap();
    assert_eq!(m.fingerprint_with(2, 64).bits.len(), 64);
    assert_eq!(m.fingerprint_with(2, 1).bits, vec![true]);
    assert!(m.fingerprint_with(2, 0).bits.is_empty());
    assert_eq!(m.fingerprint_with(2, 0).hashes.len(), 9);
    let f = m.fingerprint_with(2, 64);
    for h in f.hashes.iter() {
        assert!(f.bits[(h % 64) as usize]);
    }
    assert!(ones(&f.bits).len() <= f.hashes.len());
    let empty = ROMol::from_smile("").unwrap().fingerprint();
    assert!(empty.hashes.is_empty());
    assert!(ones(&empty.bits).is_empty());
}

#[test]
fn a_larger_radius_sees_more() {
    let m = ROMol::from_smile("CCCCCC").unwrap();
    let r0 = m.fingerprint_with(0, 2048).hashes.len();
    let r1 = m.fingerprint_with(1, 2048).hashes.len();
    let r2 = m.fingerprint_with(2, 2048).hashes.len();
    assert_eq!(r0, 2);
    assert!(r0 < r1 && r1 < r2);
}
