use molecule::atom::Atom;
use molecule::builder::CompoundBuilder;
use molecule::chain::Chain;
use molecule::compound::{Compound, CompoundError, Token};
use molecule::location::Location;

#[test]
fn compound_to_string_simple() {
    let comp = Compound::new(
        vec![
            Atom::new_unchecked(1),
            Atom::new_unchecked(2),
            Atom::new_unchecked(2),
            Atom::new_unchecked(3),
        ],
        vec![
            Location::new(1, 2),
            Location::new(2, 3),
            Location::new(2, 2),
            Location::new(1, 3),
        ],
        vec![0, 2],
        vec![vec![1, 3], vec![], vec![], vec![]],
    );
    assert_eq!(comp.to_string(), "HHeLiHe");
}

#[test]
fn compound_queries() {
    let comp = Compound::new(
        vec![Atom::carbon(), Atom::hydrogen(), Atom::hydrogen()],
        vec![Location::new(0, 0), Location::new(-1, 0), Location::new(0, 1)],
        vec![0],
        vec![vec![1, 2], vec![], vec![]],
    );
    assert!(comp.has_side_chain(0));
    assert!(!comp.has_side_chain(1));
    assert!(!comp.has_side_chain(9));
    assert_eq!(comp.side_chain_children(0), &vec![1, 2]);
    assert_eq!(comp.atom_at(0).map(|a| a.get_element_num()), Some(6));
    assert!(comp.atom_at(3).is_none());
    assert_eq!(comp.atom_count(), 3);
    assert_eq!(comp.backbone(), &vec![0]);
    assert_eq!(comp.to_string(), "CH2");
}

#[test]
fn nested_side_chains_condense() {
    // C with side chain O, which itself carries H: C(OH)
    let comp = Compound::new(
        vec![Atom::carbon(), Atom::new_unchecked(8), Atom::hydrogen(), Atom::carbon()],
        vec![Location::new(0, 0), Location::new(0, 1), Location::new(0, 2), Location::new(1, 0)],
        vec![0, 3],
        vec![vec![1], vec![2], vec![], vec![]],
    );
    assert_eq!(comp.to_string(), "COHC");
    let chain: Chain = comp.into();
    assert_eq!(chain.to_string(), "COHC");
}

#[test]
fn parse_is_refused() {
    assert!(matches!(Compound::parse("CH4"), Err(CompoundError::Parsing(_))));
    assert!(matches!(Compound::parse(""), Err(CompoundError::Parsing(_))));
}

#[test]
fn token_starts_empty() {
    let t = Token::new("CH3".into());
    assert_eq!(t.str, "CH3");
    assert_eq!(t.count, 0);
    assert!(t.parts.is_empty());
}

#[test]
fn location_shift() {
    let l = Location::new(3, -2);
    assert_eq!(l.shift(1, 0), Location::new(4, -2));
    assert_eq!(l.shift(0, -1), Location::new(3, -3));
    assert_eq!(l.shift(-3, 2), Location::new(0, 0));
}

#[test]
fn empty_backbone_renders_empty() {
    let comp = CompoundBuilder::new().build();
    assert_eq!(comp.to_string(), "");
}
