use molecule::builder::CompoundBuilder;
use molecule::chain::Chain;
use molecule::location::Location;

#[test]
fn linear_chain_of_zero_is_empty() {
    let mut b = CompoundBuilder::new();
    let c = b.linear_chain(0).expect("empty chain").build();
    assert_eq!(c.atom_count(), 0);
    assert!(c.backbone().is_empty());
    assert_eq!(c.to_string(), "");
}

#[test]
fn methane_from_one_carbon() {
    let c = CompoundBuilder::new().linear_chain(1).expect("methane").build();
    assert_eq!(c.atom_count(), 5);
    assert_eq!(c.side_chain_children(0), &vec![1, 2, 3, 4]);
    assert_eq!(c.to_string(), "CH4");
    let chain: Chain = c.into();
    assert_eq!(chain.reversed().to_string(), "H4C");
}

#[test]
fn hexane_structure() {
    let c = CompoundBuilder::new().linear_chain(6).expect("hexane").build();
    assert_eq!(c.atom_count(), 20);
    assert_eq!(c.backbone(), &vec![0, 1, 2, 3, 4, 5]);
    assert_eq!(c.side_chain_children(0), &vec![6, 7, 8]);
    assert_eq!(c.side_chain_children(1), &vec![9, 10]);
    assert_eq!(c.side_chain_children(5), &vec![17, 18, 19]);
    assert!(c.side_chain_children(6).is_empty());
    for i in 0..6 {
        assert_eq!(c.atom_at(i).map(|a| a.get_element_num()), Some(6));
    }
    for i in 6..20 {
        assert_eq!(c.atom_at(i).map(|a| a.get_element_num()), Some(1));
    }
}

#[test]
fn ethane_and_propane_condense() {
    let ethane = CompoundBuilder::new().linear_chain(2).expect("ethane").build();
    assert_eq!(ethane.to_string(), "(CH3)2");
    let propane = CompoundBuilder::new().linear_chain(3).expect("propane").build();
    assert_eq!(propane.to_string(), "CH3CH2CH3");
}

#[test]
fn builder_is_reusable() {
    let mut b = CompoundBuilder::new();
    let first = b.linear_chain(4).expect("butane").build();
    let second = b.linear_chain(2).expect("ethane").build();
    assert_eq!(first.to_string(), "CH3(CH2)2CH3");
    assert_eq!(second.atom_count(), 8);
    assert_eq!(second.to_string(), "(CH3)2");
}

#[test]
fn hydrogens_take_first_free_neighbour() {
    let c = CompoundBuilder::new().linear_chain(3).expect("propane").build();
    assert_eq!(c.atom_count(), 11);
    for i in 0..3 {
        assert_eq!(c.location_at(i), Some(Location::new(i as i16, 0)));
    }
    // first carbon: left, up, down
    assert_eq!(c.location_at(3), Some(Location::new(-1, 0)));
    assert_eq!(c.location_at(4), Some(Location::new(0, 1)));
    assert_eq!(c.location_at(5), Some(Location::new(0, -1)));
    // middle carbon: up, down
    assert_eq!(c.location_at(6), Some(Location::new(1, 1)));
    assert_eq!(c.location_at(7), Some(Location::new(1, -1)));
    // last carbon: right, up, down
    assert_eq!(c.location_at(8), Some(Location::new(3, 0)));
    assert_eq!(c.location_at(9), Some(Location::new(2, 1)));
    assert_eq!(c.location_at(10), Some(Location::new(2, -1)));
    assert_eq!(c.location_at(11), None);
}

#[test]
fn methane_takes_all_four_neighbours() {
    let c = CompoundBuilder::new().linear_chain(1).expect("methane").build();
    assert_eq!(c.location_at(1), Some(Location::new(-1, 0)));
    assert_eq!(c.location_at(2), Some(Location::new(1, 0)));
    assert_eq!(c.location_at(3), Some(Location::new(0, 1)));
    assert_eq!(c.location_at(4), Some(Location::new(0, -1)));
}

#[test]
fn long_chain_condenses() {
    let c = CompoundBuilder::new().linear_chain(40).expect("long chain").build();
    assert_eq!(c.atom_count(), 122);
    assert_eq!(c.to_string(), "CH3(CH2)38CH3");
}
