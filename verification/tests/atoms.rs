use porecrusher::atoms::{
    matching_records, parse_force_field, parse_xyz, Element, XyzError,
};

const WATER: &str = "3\nwater molecule\nO 0.000 0.000 0.000\nH 0.757 0.586 0.000\nH -0.757 0.586 0.000\n";

#[test]
fn reads_a_water_molecule() {
    let r = parse_xyz(WATER);
    assert_eq!(r.outcome, Ok(3));
    assert_eq!(r.atoms.len(), 3);
    let names: Vec<&str> = r.atoms.iter().map(|a| a.element.name()).collect();
    assert_eq!(names, vec!["O", "H", "H"]);
    let types: Vec<u8> = r.atoms.iter().map(|a| a.atom_type.index()).collect();
    assert_eq!(types, vec![0, 1, 1]);
    assert_eq!(r.atoms[1].x, "0.757");
    assert_eq!(r.atoms[2].x, "-0.757");
    assert_eq!(r.atoms[2].y, "0.586");
    assert_eq!(r.atoms[2].z, "0.000");
    let elements: Vec<&str> = r.elements.iter().map(|e| e.name()).collect();
    assert_eq!(elements, vec!["O", "H"]);
}

#[test]
fn atoms_share_a_type_exactly_when_they_share_an_element() {
    let r = parse_xyz("5\n\nC 0 0 0\nN 1 0 0\nC 2 0 0\nO 3 0 0\nN 4 0 0");
    assert_eq!(r.outcome, Ok(5));
    for a in &r.atoms {
        for b in &r.atoms {
            assert_eq!(a.atom_type == b.atom_type, a.element == b.element);
        }
    }
    let types: Vec<u8> = r.atoms.iter().map(|a| a.atom_type.index()).collect();
    assert_eq!(types, vec![0, 1, 0, 2, 1]);
}

#[test]
fn windows_line_ends_and_a_plus_sign_are_accepted() {
    let r = parse_xyz("+1\r\ncomment\r\nAr\t1.0  2.0 3.0\r\n");
    assert_eq!(r.outcome, Ok(1));
    assert_eq!(r.atoms[0].element.name(), "Ar");
    assert_eq!(r.atoms[0].z, "3.0");
}

#[test]
fn missing_header() {
    assert_eq!(parse_xyz("").outcome, Err(XyzError::MissingHeader));
    assert_eq!(parse_xyz("3\n").outcome, Err(XyzError::MissingHeader));
}

#[test]
fn invalid_atom_count() {
    assert_eq!(parse_xyz("three\ncomment\n").outcome, Err(XyzError::InvalidAtomCount));
    assert_eq!(parse_xyz(" 3\ncomment\n").outcome, Err(XyzError::InvalidAtomCount));
    assert_eq!(parse_xyz("-1\ncomment\n").outcome, Err(XyzError::InvalidAtomCount));
}

#[test]
fn invalid_entry_stops_the_reading() {
    let r = parse_xyz("2\nc\nO 1 2 3\nH 1 2\n");
    assert_eq!(r.outcome, Err(XyzError::InvalidEntry { line: 3 }));
    assert_eq!(r.atoms.len(), 1);
    let r = parse_xyz("2\nc\nO 1 2 3\n\nH 1 2 3\n");
    assert_eq!(r.outcome, Err(XyzError::InvalidEntry { line: 3 }));
    let r = parse_xyz("1\nc\nO 1 2 3 4\n");
    assert_eq!(r.outcome, Err(XyzError::InvalidEntry { line: 2 }));
    assert!(r.atoms.is_empty());
}

#[test]
fn count_mismatch() {
    let r = parse_xyz("5\nc\nO 1 2 3\n");
    assert_eq!(r.outcome, Err(XyzError::CountMismatch { expected: 5, found: 1 }));
    assert_eq!(r.atoms.len(), 1);
    let r = parse_xyz("0\nc\nO 1 2 3\nO 1 2 3\n");
    assert_eq!(r.outcome, Err(XyzError::CountMismatch { expected: 0, found: 2 }));
}

#[test]
fn too_many_elements() {
    let mut text = String::from("300\nmany\n");
    for e in 0..256 {
        text.push_str(&format!("E{e} 0 0 0\n"));
    }
    let r = parse_xyz(&text);
    assert_eq!(r.outcome, Err(XyzError::TooManyElements { line: 257 }));
    assert_eq!(r.atoms.len(), 255);
    assert_eq!(r.elements.len(), 255);
    assert_eq!(r.atoms[254].atom_type.index(), 254);

    // A known element is still welcome after 255 distinct ones.
    let mut text = String::from("256\nmany\n");
    for e in 0..255 {
        text.push_str(&format!("E{e} 0 0 0\n"));
    }
    text.push_str("E7 1 1 1\n");
    let r = parse_xyz(&text);
    assert_eq!(r.outcome, Ok(256));
    assert_eq!(r.atoms[255].atom_type.index(), 7);
}

const FORCE_FIELD: &str = "H 1.008 2.571 0.044\nO 15.999 3.118 0.06\nH 1.1 2.6 0.05\nbad line\nC 12.011 3.431 0.105\n";

#[test]
fn force_field_stops_at_the_first_malformed_line() {
    let ff = parse_force_field(FORCE_FIELD);
    assert_eq!(ff.records.len(), 3);
    assert_eq!(ff.records[1].element.name(), "O");
    assert_eq!(ff.records[1].mass, "15.999");
    assert_eq!(ff.records[1].sigma, "3.118");
    assert_eq!(ff.records[1].epsilon, "0.06");
    let bad = ff.malformed.expect("a malformed line");
    assert_eq!(bad.fields, 2);
    assert_eq!(bad.line, "bad line");
}

#[test]
fn well_formed_force_field() {
    let ff = parse_force_field("He 4.0026 2.104 0.056\r\nNe 20.18 2.889 0.042");
    assert_eq!(ff.records.len(), 2);
    assert_eq!(ff.records[1].element.name(), "Ne");
    assert_eq!(ff.records[1].epsilon, "0.042");
    assert!(ff.malformed.is_none());
}

#[test]
fn records_of_an_element() {
    let ff = parse_force_field(FORCE_FIELD);
    assert_eq!(matching_records(&ff.records, &Element::from(String::from("H"))), vec![0, 2]);
    assert_eq!(matching_records(&ff.records, &Element::from(String::from("O"))), vec![1]);
    assert!(matching_records(&ff.records, &Element::from(String::from("C"))).is_empty());
}

#[test]
fn element_names() {
    let e = Element::from(String::from("Zn"));
    assert_eq!(e.name(), "Zn");
    assert_eq!(e.clone(), e);
}
