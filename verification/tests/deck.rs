use world_learn::deck::{Card, Deck, Entity};

fn entity(labelrank: u32, pop_est: u64) -> Entity {
    Entity {
        name: "Test".to_string(),
        name_long: "Test Republic".to_string(),
        d: "M0,0Z".to_string(),
        bbox: [0, 0, 100, 100],
        labelrank,
        pop_est,
        centroid: [50, 50],
    }
}

fn order(deck: &Deck) -> Vec<&str> {
    deck.cards().iter().map(|c| c.code.as_str()).collect()
}

/// Position of `code` in the Deck's intro order.
fn pos(deck: &Deck, code: &str) -> usize {
    deck.cards()
        .iter()
        .position(|c| c.code == code)
        .unwrap_or_else(|| panic!("{code} missing from deck"))
}

#[test]
fn ordered_by_labelrank_then_pop_desc() {
    let entities = vec![
        // Same labelrank, differing pop → higher pop first.
        ("AAA".to_string(), entity(2, 100)),
        ("BBB".to_string(), entity(2, 900)),
        // Lower labelrank leads regardless of pop.
        ("CCC".to_string(), entity(1, 1)),
        // Higher labelrank trails regardless of pop.
        ("DDD".to_string(), entity(5, 9_999)),
    ];
    let deck = Deck::build(entities);
    assert_eq!(order(&deck), ["CCC", "BBB", "AAA", "DDD"]);
}

#[test]
fn full_ties_break_alphabetically_by_code() {
    let entities = vec![
        ("ZZZ".to_string(), entity(3, 50)),
        ("AAA".to_string(), entity(3, 50)),
        ("MMM".to_string(), entity(3, 50)),
    ];
    let deck = Deck::build(entities);
    assert_eq!(order(&deck), ["AAA", "MMM", "ZZZ"]);
}

#[test]
fn build_order_does_not_depend_on_input_order() {
    let make = |codes: &[(&str, u32, u64)]| {
        Deck::build(
            codes
                .iter()
                .map(|(c, lr, pop)| (c.to_string(), entity(*lr, *pop)))
                .collect(),
        )
    };
    let a = make(&[("CHN", 2, 1_400), ("IND", 2, 1_300), ("ISL", 3, 1), ("FRA", 2, 67)]);
    let b = make(&[("FRA", 2, 67), ("ISL", 3, 1), ("IND", 2, 1_300), ("CHN", 2, 1_400)]);
    assert_eq!(order(&a), ["CHN", "IND", "FRA", "ISL"]);
    assert_eq!(order(&a), order(&b));
}

#[test]
fn build_keeps_every_card_once() {
    let deck = Deck::build(vec![
        ("B".to_string(), entity(1, 5)),
        ("A".to_string(), entity(1, 5)),
        ("C".to_string(), entity(0, 0)),
    ]);
    assert_eq!(deck.len(), 3);
    assert!(!deck.is_empty());
    let mut codes = order(&deck);
    codes.sort();
    assert_eq!(codes, ["A", "B", "C"]);
}

#[test]
fn empty_build_is_an_empty_deck() {
    let deck = Deck::build(Vec::new());
    assert!(deck.is_empty());
    assert_eq!(deck.len(), 0);
    assert!(deck.get("FRA").is_none());
}

#[test]
fn lookup_resolves_every_card_to_its_own_position() {
    let mut france = entity(2, 67_000_000);
    france.name = "France".to_string();
    let deck = Deck::build(vec![
        ("FRA".to_string(), france),
        ("DEU".to_string(), entity(2, 83_000_000)),
        ("ISL".to_string(), entity(3, 340_000)),
        ("NIU".to_string(), entity(6, 1_600)),
    ]);
    assert_eq!(deck.get("FRA").unwrap().entity.name, "France");
    assert!(deck.contains("FRA"));
    assert!(deck.get("ZZZ").is_none());
    assert!(!deck.contains("ZZZ"));

    // Every code resolves back to the same Card (no collisions, no code owned
    // by two positions).
    for (i, card) in deck.cards().iter().enumerate() {
        assert_eq!(pos(&deck, &card.code), i, "{} indexed twice", card.code);
        let found: &Card = deck.get(&card.code).unwrap();
        assert_eq!(found, card);
    }
}

#[test]
fn byte_order_breaks_ties_like_str_ord() {
    let deck = Deck::build(vec![
        ("b".to_string(), entity(1, 1)),
        ("B".to_string(), entity(1, 1)),
        ("Ba".to_string(), entity(1, 1)),
        ("\u{e9}".to_string(), entity(1, 1)),
    ]);
    let mut expected = vec!["b", "B", "Ba", "\u{e9}"];
    expected.sort();
    assert_eq!(order(&deck), expected);
}
