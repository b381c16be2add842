use molecule::atom::Atom;

#[test]
fn atom_element_number_bound_checks() {
    assert!(Atom::new(0).is_none());
    assert!(Atom::new(1).is_some());
    assert!(Atom::new(118).is_some());
    assert!(Atom::new(119).is_none());
    assert!(Atom::new(u8::MAX).is_none());
}

#[test]
fn atom_to_string() {
    assert_eq!(Atom::new_unchecked(1).to_string(), "H");
    assert_eq!(Atom::new_unchecked(2).to_string(), "He");
    assert_eq!(Atom::new_unchecked(3).to_string(), "Li");
    assert_eq!(Atom::new_unchecked(118).to_string(), "Og");
}

#[test]
fn atom_isotopes_compare_by_element() {
    let h = Atom::hydrogen();
    let d = Atom::deuterium();
    let t = Atom::tritium();
    assert_eq!(h.neutrons, 0);
    assert_eq!(d.neutrons, 1);
    assert_eq!(t.neutrons, 2);
    assert!(h == d);
    assert!(d == t);
    assert!(Atom::carbon() != Atom::nitrogen());
    assert_eq!(Atom::carbon().isotope(8).neutrons, 8);
    assert_eq!(Atom::carbon().isotope(8).get_element_num(), 6);
}

#[test]
fn atom_named_constructors() {
    assert_eq!(Atom::bromine().get_element_num(), 35);
    assert_eq!(Atom::chlorine().get_element_num(), 17);
    assert_eq!(Atom::nitrogen().get_element_num(), 7);
    assert_eq!(Atom::carbon().electrons, 6);
    assert_eq!(Atom::bromine().to_string(), "Br");
}

#[test]
fn atom_from_symbol() {
    let cr = Atom::from_str("Cr").expect("chromium");
    assert_eq!(cr.get_element_num(), 24);
    assert_eq!(cr.electrons, 24);
    assert!(Atom::from_str("Qq").is_none());
    assert_eq!(Atom::from_str_unchecked("Cl").get_element_num(), 17);
}
