use world_learn::deck::{Deck, Entity};
use world_learn::map::{fill_for, trim_fraction, BASE_FILL, HIGHLIGHT_FILL, WORLD_VIEW_BOX};

fn entity(labelrank: u32) -> Entity {
    Entity {
        name: "Test".to_string(),
        name_long: "Test Republic".to_string(),
        d: "M0,0Z".to_string(),
        bbox: [0, 0, 100, 100],
        labelrank,
        pop_est: 1,
        centroid: [50, 50],
    }
}

#[test]
fn fill_for_marks_only_the_matching_code() {
    assert_eq!(fill_for("FRA", "FRA"), HIGHLIGHT_FILL);
    assert_eq!(fill_for("DEU", "FRA"), BASE_FILL);
    // Unknown highlight code → nothing highlighted.
    assert_eq!(fill_for("FRA", "ZZZ"), BASE_FILL);
}

#[test]
fn world_view_box_spans_the_full_projection() {
    let nums: Vec<f64> = WORLD_VIEW_BOX
        .split_whitespace()
        .map(|n| n.parse().unwrap())
        .collect();
    assert_eq!(nums, [-180.0, -90.0, 360.0, 180.0]);
}

#[test]
fn exactly_one_entity_highlighted_over_the_real_deck() {
    let deck = Deck::build(vec![
        ("FRA".to_string(), entity(2)),
        ("RUS".to_string(), entity(2)),
        ("DEU".to_string(), entity(2)),
        ("NIU".to_string(), entity(6)),
    ]);
    let highlit = |target: &str| {
        deck.cards()
            .iter()
            .filter(|c| fill_for(&c.code, target) == HIGHLIGHT_FILL)
            .count()
    };
    assert_eq!(highlit("FRA"), 1);
    assert_eq!(highlit("RUS"), 1);
    assert_eq!(highlit("ZZZ"), 0);
}

#[test]
fn highlight_and_base_fills_differ() {
    assert_ne!(HIGHLIGHT_FILL, BASE_FILL);
    assert_eq!(HIGHLIGHT_FILL, "#f5b301");
    assert_eq!(BASE_FILL, "#26323f");
}

#[test]
fn trim_fraction_drops_trailing_zeros_and_the_point() {
    assert_eq!(trim_fraction("10.000"), "10");
    assert_eq!(trim_fraction("0.500"), "0.5");
    assert_eq!(trim_fraction("-170.000"), "-170");
    assert_eq!(trim_fraction("1.050"), "1.05");
    assert_eq!(trim_fraction("0.000"), "0");
    assert_eq!(trim_fraction("0.707"), "0.707");
    // Without a decimal point nothing is trimmed.
    assert_eq!(trim_fraction("100"), "100");
    assert_eq!(trim_fraction(""), "");
}
