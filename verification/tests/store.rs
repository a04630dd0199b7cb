use std::path::PathBuf;
use world_learn::date::CivilDate;
use world_learn::store::{
    app_support_dir, validate_schema, APP_SUBDIR, CardMap, CardRecord, ReviewState, Settings, Store, StoreError,
    DEFAULT_NEW_CARDS_PER_DAY, SCHEMA_VERSION, STATE_FILE,
};

fn date(y: i16, m: i8, d: i8) -> CivilDate {
    CivilDate::new(y, m, d).unwrap()
}

fn sample_card() -> CardRecord {
    CardRecord {
        memory: fsrs::MemoryState {
            stability: 3.17,
            difficulty: 5.20,
        },
        due: date(2026, 8, 16),
        last_review: date(2026, 8, 14),
        introduced_on: date(2026, 8, 10),
    }
}

#[test]
fn first_launch_yields_defaults() {
    let state = ReviewState::default();
    assert_eq!(state.schema_version, SCHEMA_VERSION);
    assert_eq!(state.settings.new_cards_per_day, DEFAULT_NEW_CARDS_PER_DAY);
    assert!(state.cards.is_empty());
    assert_eq!(Settings::default().new_cards_per_day, 10);
}

#[test]
fn newer_schema_version_fails_loudly() {
    let mut state = ReviewState::default();
    state.schema_version = 2;
    assert_eq!(validate_schema(state), Err(StoreError::UnsupportedSchema(2)));
    let current = ReviewState::default();
    assert_eq!(validate_schema(current.clone()), Ok(current));
}

#[test]
fn set_new_cards_per_day_persists_and_preserves_cards() {
    let mut initial = ReviewState::default();
    initial.cards.insert("FRA".to_string(), sample_card());
    let updated = initial.clone().with_new_cards_per_day(25);
    assert_eq!(updated.settings.new_cards_per_day, 25);
    assert_eq!(updated.cards.get("FRA"), Some(&sample_card()));
    assert_eq!(updated.cards, initial.cards);
}

#[test]
fn card_map_reads_back_what_was_written() {
    let mut cards = CardMap::new();
    assert!(cards.get("USA").is_none());
    cards.insert("USA".to_string(), sample_card());
    let mut later = sample_card();
    later.due = date(2026, 9, 1);
    cards.insert("DEU".to_string(), later);
    assert_eq!(cards.len(), 2);
    assert!(cards.contains_key("USA"));
    assert!(cards.contains_key("DEU"));
    assert_eq!(cards.get("DEU"), Some(&later));
    // A second write replaces, never duplicates.
    cards.insert("USA".to_string(), later);
    assert_eq!(cards.len(), 2);
    assert_eq!(cards.get("USA"), Some(&later));
    // Entries stay in code order, as the file is written.
    assert_eq!(cards.entry_at(0).0, "DEU");
    assert_eq!(cards.entry_at(1).0, "USA");
}

#[test]
fn equal_contents_compare_equal_whatever_the_insertion_order() {
    let mut a = CardMap::new();
    a.insert("USA".to_string(), sample_card());
    a.insert("DEU".to_string(), sample_card());
    let mut b = CardMap::new();
    b.insert("DEU".to_string(), sample_card());
    b.insert("USA".to_string(), sample_card());
    assert_eq!(a, b);
}

#[test]
fn no_app_support_dir_when_the_os_lists_none() {
    assert_eq!(app_support_dir(&Vec::new()), Err(StoreError::NoAppSupportDir));
    assert_eq!(Store::open_default(&Vec::new()), Err(StoreError::NoAppSupportDir));
}

#[test]
fn app_support_dir_is_the_app_folder_in_the_first_listed_directory() {
    let base = PathBuf::from("/var/mobile/Containers/Data/Application/X/Library/Application Support");
    let other = PathBuf::from("/elsewhere");
    let dir = app_support_dir(&vec![base.clone(), other]).unwrap();
    assert_eq!(dir, base.join("WorldLearn"));
    assert_eq!(APP_SUBDIR, "WorldLearn");
    let store = Store::open_default(&vec![base.clone()]).unwrap();
    assert_eq!(store.path(), base.join("WorldLearn").join(STATE_FILE));
    assert_eq!(store, Store::in_dir(&dir));
}

#[test]
fn store_file_sits_inside_its_directory() {
    let store = Store::in_dir(std::path::Path::new("/tmp/wl"));
    assert_eq!(store.path(), std::path::Path::new("/tmp/wl").join(STATE_FILE));
    assert_eq!(store.clone(), store);
}
