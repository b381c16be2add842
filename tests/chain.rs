use molecule::builder::CompoundBuilder;
use molecule::chain::Chain;
use molecule::compound::Compound;

fn kv(s: &str, c: usize) -> Chain {
    Chain::KV(s.into(), c)
}

fn group(v: Vec<Chain>, c: usize) -> Chain {
    Chain::Vec(v, c)
}

#[test]
fn simple_grouping_and_minimize_test() {
    // ((H5H5)(H5H5)) => H20
    let inner = Chain::Vec(
        Vec::from([Chain::KV("H".into(), 5), Chain::KV("H".into(), 5)]),
        1,
    );
    let outer = Vec::from([inner.clone(), inner]);
    let lhs = Chain::Vec(outer, 1).group().minimize(1);
    let rhs = Chain::KV("H".into(), 20);
    assert_eq!(
        lhs, rhs,
        "Grouping & minimizing aren't functioning correctly."
    )
}

#[test]
fn condensed_formula_grouping_test() {
    // (H20H33I2I5)2 => (H53I7)2
    let chain = Chain::Vec(
        Vec::from([
            Chain::KV("H".into(), 20),
            Chain::KV("H".into(), 33),
            Chain::KV("I".into(), 2),
            Chain::KV("I".into(), 5),
        ]),
        2,
    );
    assert_eq!(
        chain.to_string(),
        "(H53I7)2",
        "Formula is not properly condensed."
    );
}

#[test]
fn condense_tert_butanol() {
    // HOC((CH3)(CH3)(CH3)) => HOC(CH3)3
    let chain = Chain::Vec(
        Vec::from([
            Chain::Vec(
                Vec::from([Chain::KV("H".into(), 1), Chain::KV("O".into(), 1)]),
                1,
            ),
            Chain::KV("C".into(), 1),
            Chain::Vec(
                Vec::from([
                    Chain::Vec(
                        Vec::from([Chain::KV("C".into(), 1), Chain::KV("H".into(), 3)]),
                        1,
                    ),
                    Chain::Vec(
                        Vec::from([Chain::KV("C".into(), 1), Chain::KV("H".into(), 3)]),
                        1,
                    ),
                    Chain::Vec(
                        Vec::from([Chain::KV("C".into(), 1), Chain::KV("H".into(), 3)]),
                        1,
                    ),
                ]),
                1,
            ),
        ]),
        1,
    );
    assert_eq!(
        chain.to_string(),
        "HOC(CH3)3",
        "Tert-butanol doesn't condense correctly"
    );
}

#[test]
fn condense_butane() {
    // CH3(CH2)(CH2)CH3 => CH3(CH2)2CH3
    let terminal_cs = Chain::Vec(
        Vec::from([Chain::KV("C".into(), 1), Chain::KV("H".into(), 3)]),
        1,
    );
    let middle_cs = Chain::Vec(
        Vec::from([Chain::KV("C".into(), 1), Chain::KV("H".into(), 2)]),
        1,
    );
    let chain = Chain::Vec(
        Vec::from([
            terminal_cs.clone(),
            middle_cs.clone(),
            middle_cs,
            terminal_cs,
        ]),
        1,
    );
    assert_eq!(chain.to_string(), "CH3(CH2)2CH3", "Failed to condense butane")
}

#[test]
fn condense_1_4_butanediol() {
    // HOCH2CH2CH2CH2OH => HO(CH2)4OH
    let hydroxyl_1 = Chain::Vec(
        Vec::from([Chain::KV("H".into(), 1), Chain::KV("O".into(), 1)]),
        1,
    );
    let hydroxyl_4 = Chain::Vec(
        Vec::from([Chain::KV("O".into(), 1), Chain::KV("H".into(), 1)]),
        1,
    );
    let methylene = Chain::Vec(
        Vec::from([Chain::KV("C".into(), 1), Chain::KV("H".into(), 2)]),
        1,
    );
    let chain = Chain::Vec(
        Vec::from([
            hydroxyl_1,
            methylene.clone(),
            methylene.clone(),
            methylene.clone(),
            methylene,
            hydroxyl_4,
        ]),
        1,
    );
    assert_eq!(
        chain.to_string(),
        "HO(CH2)4OH",
        "Could not condense 1,4-butanediol into chemical formula"
    )
}

#[test]
fn test_reverse_with_methane() {
    let methane = Chain::Vec(
        Vec::from([Chain::KV("C".into(), 1), Chain::KV("H".into(), 4)]),
        1,
    )
    .reversed();
    assert_eq!(methane.to_string(), "H4C", "Compound reversing doesn't work");
}

#[test]
fn test_compound_to_string() {
    let hexane: Compound = CompoundBuilder::new()
        .linear_chain(6)
        .expect(
            "Linear chain expected while evaluating
            Deserialize functionality",
        )
        .build();
    let hexane_deserialized: Chain = hexane.into();
    assert_eq!(hexane_deserialized.to_string(), "CH3(CH2)4CH3")
}

#[test]
fn group_twice_equals_group_once() {
    let c = group(
        vec![
            kv("H", 2),
            kv("H", 3),
            group(vec![kv("C", 1), kv("H", 2)], 1),
            group(vec![kv("C", 1), kv("H", 2)], 2),
            group(vec![kv("O", 1)], 1),
            kv("O", 1),
        ],
        1,
    );
    let once = c.group();
    let twice = once.group();
    assert_eq!(once, twice);
    assert_eq!(
        once,
        group(
            vec![
                kv("H", 5),
                group(vec![kv("C", 1), kv("H", 2)], 3),
                group(vec![kv("O", 1)], 1),
                kv("O", 1),
            ],
            1
        )
    );
}

#[test]
fn minimize_twice_equals_minimize_once() {
    let c = group(vec![group(vec![group(vec![kv("N", 2)], 3)], 2), kv("H", 1)], 1);
    let once = c.minimize(1);
    assert_eq!(once.minimize(1), once);
    assert_eq!(once, group(vec![kv("N", 12), kv("H", 1)], 1));
}

#[test]
fn minimize_collapses_single_child_and_scales() {
    let c = group(vec![group(vec![kv("C", 1), kv("H", 2)], 1)], 4);
    assert_eq!(c.minimize(1), group(vec![kv("C", 1), kv("H", 2)], 4));
    assert_eq!(c.minimize(3), group(vec![kv("C", 1), kv("H", 2)], 12));
    assert_eq!(kv("H", 2).minimize(5), kv("H", 10));
}

#[test]
fn weight_is_kept_by_group_minimize_reverse() {
    let c = group(
        vec![
            group(vec![kv("C", 1), kv("H", 3)], 1),
            group(vec![kv("C", 1), kv("H", 2)], 1),
            group(vec![kv("C", 1), kv("H", 2)], 1),
            group(vec![kv("C", 1), kv("H", 3)], 1),
        ],
        2,
    );
    assert_eq!(c.checked_weight(), Some(28));
    assert_eq!(c.group().checked_weight(), Some(28));
    assert_eq!(c.minimize(1).checked_weight(), Some(28));
    assert_eq!(c.reversed().checked_weight(), Some(28));
}

#[test]
fn reverse_twice_gives_canonical_chain_back() {
    let c = group(
        vec![
            kv("H", 1),
            kv("O", 1),
            group(vec![kv("C", 1), kv("H", 2)], 3),
            kv("Cl", 1),
        ],
        1,
    );
    assert_eq!(c.canonical(), c);
    let r = c.reversed();
    assert_eq!(r.to_string(), "Cl(H2C)3OH");
    assert_eq!(r.reversed(), c);
}

#[test]
fn canonical_form_has_no_small_groups() {
    let c = group(
        vec![group(vec![kv("H", 1)], 1), group(vec![group(vec![kv("O", 1), kv("H", 1)], 1)], 2)],
        1,
    );
    assert_eq!(
        c.group().minimize(1),
        group(vec![kv("H", 1), group(vec![kv("O", 1), kv("H", 1)], 2)], 1)
    );
    assert_eq!(c.to_string(), "H(OH)2");
}

#[test]
fn leaf_rendering() {
    assert_eq!(kv("C", 1).to_string(), "C");
    assert_eq!(kv("C", 10).to_string(), "C10");
    assert_eq!(kv("He", 123).to_string(), "He123");
    assert_eq!(group(vec![kv("C", 1), kv("H", 4)], 1).to_string(), "CH4");
}

#[test]
fn mismatched_groups_do_not_merge() {
    let c = group(
        vec![group(vec![kv("C", 1), kv("H", 2)], 1), group(vec![kv("H", 2), kv("C", 1)], 1)],
        1,
    );
    assert_eq!(c.to_string(), "CH2H2C");
}

#[test]
fn weight_overflow_is_reported() {
    let c = group(vec![kv("H", usize::MAX), kv("H", 1)], 1);
    assert_eq!(c.checked_weight(), None);
    assert_eq!(kv("H", 7).checked_weight(), Some(7));
}
