use molecule::atom::Atom;
use molecule::configuration::{Configuration, Orbital, Subshell};

fn config_of(electrons: u32) -> String {
    Configuration::from_electrons(electrons).build().to_string()
}

#[test]
fn light_elements_fill_in_order() {
    assert_eq!(config_of(0), "1s0");
    assert_eq!(config_of(1), "1s1");
    assert_eq!(config_of(2), "1s2");
    assert_eq!(config_of(6), "1s2 2s2 2p2");
    assert_eq!(config_of(18), "1s2 2s2 2p6 3s2 3p6");
    assert_eq!(config_of(21), "1s2 2s2 2p6 3s2 3p6 4s2 3d1");
}

#[test]
fn chromium_and_copper_exceptions() {
    assert_eq!(config_of(24), "1s2 2s2 2p6 3s2 3p6 4s1 3d5");
    assert_eq!(config_of(29), "1s2 2s2 2p6 3s2 3p6 4s1 3d10");
}

#[test]
fn palladium_and_platinum_exceptions() {
    assert_eq!(
        config_of(46),
        "1s2 2s2 2p6 3s2 3p6 4s2 3d10 4p6 5s0 4d10"
    );
    assert_eq!(
        config_of(78),
        "1s2 2s2 2p6 3s2 3p6 4s2 3d10 4p6 5s2 4d10 5p6 6s1 4f14 5d9"
    );
}

#[test]
fn heaviest_element_fills_to_7p() {
    assert_eq!(
        config_of(118),
        "1s2 2s2 2p6 3s2 3p6 4s2 3d10 4p6 5s2 4d10 5p6 6s2 4f14 5d10 6p6 7s2 5f14 6d10 7p6"
    );
    assert_eq!(
        config_of(120),
        "1s2 2s2 2p6 3s2 3p6 4s2 3d10 4p6 5s2 4d10 5p6 6s2 4f14 5d10 6p6 7s2 5f14 6d10 7p6 8s2"
    );
}

#[test]
fn build_keeps_result_in_place() {
    let mut cfg = Configuration::from_electrons(8);
    let copy = cfg.build();
    assert_eq!(cfg.electrons, 8);
    assert_eq!(copy.vec, cfg.vec);
    assert_eq!(cfg.vec.len(), 3);
    assert_eq!(cfg.vec[2].current, 4);
    assert_eq!(cfg.vec[2].l_name, Orbital::P);
}

#[test]
fn atom_configuration() {
    let cr = Atom::from_str_unchecked("Cr");
    assert_eq!(Configuration::from_atom(&cr).electrons, 24);
    assert_eq!(cr.get_config(), "1s2 2s2 2p6 3s2 3p6 4s1 3d5");
    assert_eq!(Atom::carbon().get_config(), "1s2 2s2 2p2");
}

#[test]
fn subshells() {
    let s = Subshell::one_s();
    assert_eq!((s.n, s.l, s.capacity, s.current), (1, 0, 2, 0));
    let d = Subshell::generate_subshell(3, 2).expect("3d");
    assert_eq!(d.capacity, 10);
    assert_eq!(d.l_name, Orbital::D);
    assert!(Subshell::generate_subshell(5, 4).is_none());
    // 1s -> 2s, 2s -> 2p, 2p -> 3p, 3p -> 3d, 4f -> 5f, 5f -> none
    assert_eq!(s.get_next().map(|x| (x.n, x.l)), Some((2, 0)));
    let two_s = Subshell::generate_subshell(2, 0).unwrap();
    assert_eq!(two_s.get_next().map(|x| (x.n, x.l)), Some((2, 1)));
    let two_p = Subshell::generate_subshell(2, 1).unwrap();
    assert_eq!(two_p.get_next().map(|x| (x.n, x.l)), Some((3, 1)));
    let three_p = Subshell::generate_subshell(3, 1).unwrap();
    assert_eq!(three_p.get_next().map(|x| (x.n, x.l)), Some((3, 2)));
    let four_f = Subshell::generate_subshell(4, 3).unwrap();
    assert_eq!(four_f.get_next().map(|x| (x.n, x.l)), Some((5, 3)));
    let five_f = Subshell::generate_subshell(5, 3).unwrap();
    assert!(five_f.get_next().is_none());
    assert_eq!(five_f.to_string(), "5f0");
}

#[test]
fn orbital_letters() {
    assert_eq!(Orbital::S.letter(), "s");
    assert_eq!(Orbital::F.letter(), "f");
    assert_eq!(Orbital::D.angular(), 2);
}
