use molecule::element::Element;

#[test]
fn element_number_bound_checks() {
    assert!(Element::new(0).is_none());
    assert!(Element::new(1).is_some());
    assert!(Element::new(118).is_some());
    assert!(Element::new(119).is_none());
    assert!(Element::new(u8::MAX).is_none());
}

#[test]
fn element_as_str() {
    assert_eq!(Element::new_unchecked(1).as_str(), "H");
    assert_eq!(Element::new_unchecked(2).as_str(), "He");
    assert_eq!(Element::new_unchecked(3).as_str(), "Li");
    assert_eq!(Element::new_unchecked(118).as_str(), "Og");
}

#[test]
fn element_from_symbol() {
    assert_eq!(Element::from_str("H").map(|e| e.number), Some(1));
    assert_eq!(Element::from_str("Fe").map(|e| e.number), Some(26));
    assert_eq!(Element::from_str("Og").map(|e| e.number), Some(118));
    assert!(Element::from_str("Xx").is_none());
    assert!(Element::from_str("").is_none());
    assert!(Element::from_str("h").is_none());
}

#[test]
fn element_named_constructors() {
    assert_eq!(Element::hydrogen().number, 1);
    assert_eq!(Element::carbon().number, 6);
    assert_eq!(Element::carbon().as_str(), "C");
}
