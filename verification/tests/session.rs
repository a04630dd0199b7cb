use fsrs::{ItemState, FSRS};
use world_learn::date::CivilDate;
use world_learn::deck::{Deck, Entity};
use world_learn::scheduler::{Grade, NextStates, Outcome};
use world_learn::session::{
    build_queue, counts, due_cards, new_allowance, new_backlog, status, Session, SessionError,
    Status,
};
use world_learn::store::{CardMap, CardRecord, ReviewState, Settings, SCHEMA_VERSION};

fn date(y: i16, m: i8, d: i8) -> CivilDate {
    CivilDate::new(y, m, d).unwrap()
}

fn today() -> CivilDate {
    date(2026, 8, 15)
}

fn days(d: CivilDate, n: i64) -> CivilDate {
    d.checked_add_days(n).unwrap()
}

fn entity(labelrank: u32, pop_est: u64) -> Entity {
    Entity {
        name: "Test".to_string(),
        name_long: "Test Republic".to_string(),
        d: "M0,0Z".to_string(),
        bbox: [0, 0, 100, 100],
        labelrank,
        pop_est,
        centroid: [50, 50],
    }
}

/// A small Deck standing in for the shipped asset.
fn deck() -> Deck {
    Deck::build(vec![
        ("CHN".to_string(), entity(2, 1_400_000_000)),
        ("IND".to_string(), entity(2, 1_380_000_000)),
        ("USA".to_string(), entity(2, 330_000_000)),
        ("FRA".to_string(), entity(2, 67_000_000)),
        ("DEU".to_string(), entity(2, 83_000_000)),
        ("ISL".to_string(), entity(3, 340_000)),
        ("NZL".to_string(), entity(3, 5_000_000)),
        ("TWN".to_string(), entity(3, 23_000_000)),
        ("KOS".to_string(), entity(6, 1_800_000)),
        ("SAH".to_string(), entity(7, 600_000)),
    ])
}

fn first_codes(deck: &Deck, n: usize) -> Vec<String> {
    deck.cards().iter().take(n).map(|c| c.code.clone()).collect()
}

fn record(due: CivilDate, last_review: CivilDate, introduced_on: CivilDate) -> CardRecord {
    CardRecord {
        memory: fsrs::MemoryState {
            stability: 5.0,
            difficulty: 5.0,
        },
        due,
        last_review,
        introduced_on,
    }
}

fn state_with(new_cards_per_day: u32, cards: CardMap) -> ReviewState {
    ReviewState {
        schema_version: SCHEMA_VERSION,
        settings: Settings { new_cards_per_day },
        cards,
    }
}

fn outcome(s: &ItemState) -> Outcome {
    Outcome {
        memory: s.memory,
        interval_days: s.interval.round().max(1.0) as i64,
    }
}

/// Grade the current Card the way the app does: FSRS on the session's query,
/// grade, "persist", then requeue.
fn grade(session: &mut Session<'_>, g: Grade) -> Result<(), SessionError> {
    let next = match session.fsrs_query() {
        Some(q) => FSRS::default()
            .next_states(q.memory, 0.9, q.days_elapsed)
            .map(|n| NextStates {
                again: outcome(&n.again),
                hard: outcome(&n.hard),
                good: outcome(&n.good),
                easy: outcome(&n.easy),
            })
            .map_err(|e| e.to_string()),
        None => Err("empty".to_string()),
    };
    session.grade(g, next)?;
    session.finish_grade();
    Ok(())
}

#[test]
fn status_derives_new_due_scheduled() {
    let deck = deck();
    let code = &deck.cards()[0].code;
    let mut cards = CardMap::new();
    cards.insert(code.clone(), record(today(), today(), today()));
    let state = state_with(10, cards);

    assert_eq!(status(&state, code, today()), Status::Due);
    assert_eq!(status(&state, "ZZZ", today()), Status::New);
    assert_eq!(status(&state, code, days(today(), -1)), Status::Scheduled);
}

#[test]
fn new_allowance_counts_only_today_introductions() {
    let deck = deck();
    let codes = first_codes(&deck, 3);
    let mut cards = CardMap::new();
    cards.insert(codes[0].clone(), record(days(today(), 3), today(), today()));
    cards.insert(codes[1].clone(), record(days(today(), 3), today(), today()));
    cards.insert(codes[2].clone(), record(days(today(), 3), today(), days(today(), -5)));
    let state = state_with(10, cards);
    assert_eq!(new_allowance(&state, today()), 8);
}

#[test]
fn new_allowance_saturates_when_the_cap_is_lowered() {
    let deck = deck();
    let codes = first_codes(&deck, 3);
    let mut cards = CardMap::new();
    for c in &codes {
        cards.insert(c.clone(), record(days(today(), 3), today(), today()));
    }
    let state = state_with(1, cards);
    assert_eq!(new_allowance(&state, today()), 0);
    assert_eq!(new_allowance(&state, days(today(), 1)), 1);
}

#[test]
fn build_queue_is_due_then_new_capped_in_intro_order() {
    let deck = deck();
    let due_code = deck.cards()[4].code.clone();
    let mut cards = CardMap::new();
    cards.insert(due_code.clone(), record(today(), days(today(), -2), days(today(), -2)));
    let state = state_with(2, cards);

    let queue = build_queue(&state, &deck, today());

    assert_eq!(queue[0], due_code, "due set precedes new cards");
    assert_eq!(queue.len(), 3, "1 due + 2 new (cap)");
    let expected: Vec<String> = deck
        .cards()
        .iter()
        .map(|c| c.code.clone())
        .filter(|c| *c != due_code)
        .take(2)
        .collect();
    assert_eq!(queue[1..].to_vec(), expected);

    let c = counts(&state, &deck, today());
    assert_eq!((c.due, c.new_today, c.total()), (1, 2, 3));
    assert_eq!(due_cards(&state, &deck, today()).len(), 1);
    assert_eq!(new_backlog(&state, &deck).len(), deck.len() - 1);
}

#[test]
fn again_requeues_to_back_and_persists_due_today() {
    let deck = deck();
    let mut session = Session::start(&deck, state_with(2, CardMap::new()), today());
    let front = session.current().unwrap().code.clone();
    let started = session.remaining();

    grade(&mut session, Grade::Again).unwrap();

    assert_eq!(session.remaining(), started, "Again keeps the card in the queue");
    assert_ne!(session.current().unwrap().code, front, "front advanced past the re-drill");
    assert_eq!(session.queue().back().unwrap(), &front, "re-drill sits at the back");

    let saved = session.state();
    assert_eq!(saved.cards.get(&front).unwrap().due, today());
    assert_eq!(saved.cards.get(&front).unwrap().introduced_on, today());
}

#[test]
fn pass_exits_the_card_and_schedules_a_future_due() {
    let deck = deck();
    let mut session = Session::start(&deck, state_with(2, CardMap::new()), today());
    let front = session.current().unwrap().code.clone();
    let started = session.remaining();

    grade(&mut session, Grade::Good).unwrap();

    assert_eq!(session.remaining(), started - 1, "a pass drops the card from the queue");
    assert!(!session.queue().contains(&front));
    assert!(today().is_before(&session.state().cards.get(&front).unwrap().due));
    assert_eq!(session.reviewed(), 1);
    assert_eq!(session.total(), started);
}

#[test]
fn first_grade_of_a_new_card_stamps_introduced_on_today() {
    let deck = deck();
    let mut session = Session::start(&deck, state_with(1, CardMap::new()), today());
    let code = session.current().unwrap().code.clone();
    assert_eq!(status(session.state(), &code, today()), Status::New);

    grade(&mut session, Grade::Hard).unwrap();

    assert_eq!(session.state().cards.get(&code).unwrap().introduced_on, today());
}

#[test]
fn new_cap_is_enforced_within_a_day_and_resets_across_the_boundary() {
    let deck = deck();
    let mut day1 = Session::start(&deck, state_with(3, CardMap::new()), today());
    assert_eq!(day1.remaining(), 3, "cap of 3 admits 3 new cards");
    let introduced: Vec<String> = (0..3)
        .map(|_| {
            let code = day1.current().unwrap().code.clone();
            grade(&mut day1, Grade::Good).unwrap();
            code
        })
        .collect();
    let saved = day1.state().clone();

    let same_day = Session::start(&deck, saved.clone(), today());
    assert_eq!(new_allowance(same_day.state(), today()), 0);
    assert_eq!(same_day.remaining(), 0, "the day's new-card cap is exhausted");
    assert!(same_day.is_done());
    assert!(same_day.current().is_none());

    let tomorrow = days(today(), 1);
    let day2 = Session::start(&deck, saved, tomorrow);
    assert_eq!(new_allowance(day2.state(), tomorrow), 3, "the cap resets at the day boundary");
    let day2_new: Vec<String> = new_backlog(day2.state(), &deck)
        .into_iter()
        .take(3)
        .map(|c| c.code.clone())
        .collect();
    assert_eq!(day2_new.len(), 3);
    for code in &day2_new {
        assert!(!introduced.contains(code), "day 2 introduces cards not seen on day 1");
    }
}

#[test]
fn grading_an_empty_session_is_an_error() {
    let deck = deck();
    let mut session = Session::start(&deck, state_with(0, CardMap::new()), today());
    assert!(session.is_done());
    assert!(session.fsrs_query().is_none());
    assert_eq!(
        session.grade(Grade::Good, Err("no card".to_string())),
        Err(SessionError::EmptyQueue)
    );
}

#[test]
fn fsrs_failure_drops_the_card_and_keeps_the_state() {
    let deck = deck();
    let mut session = Session::start(&deck, state_with(2, CardMap::new()), today());
    let before = session.state().clone();
    assert_eq!(
        session.grade(Grade::Good, Err("boom".to_string())),
        Err(SessionError::Fsrs("boom".to_string()))
    );
    assert_eq!(session.remaining(), 1);
    assert_eq!(session.state(), &before);
}

#[test]
fn again_then_pass_finishes_the_session() {
    let deck = deck();
    let mut session = Session::start(&deck, state_with(1, CardMap::new()), today());
    grade(&mut session, Grade::Again).unwrap();
    assert_eq!(session.remaining(), 1);
    // Same-day re-drill: FSRS sees zero elapsed days.
    assert_eq!(session.fsrs_query().unwrap().days_elapsed, 0);
    grade(&mut session, Grade::Easy).unwrap();
    assert!(session.is_done());
    assert_eq!(session.reviewed(), 1);
}

#[test]
fn each_first_grade_takes_one_from_todays_allowance() {
    let deck = deck();
    let mut session = Session::start(&deck, state_with(2, CardMap::new()), today());
    assert_eq!(new_allowance(session.state(), today()), 2);
    // A first grade introduces the Card today: one fewer new Card left.
    grade(&mut session, Grade::Again).unwrap();
    assert_eq!(new_allowance(session.state(), today()), 1);
    // Another first grade.
    grade(&mut session, Grade::Good).unwrap();
    assert_eq!(new_allowance(session.state(), today()), 0);
    // Regrading the re-drilled Card (already introduced) leaves it at zero.
    grade(&mut session, Grade::Good).unwrap();
    assert_eq!(new_allowance(session.state(), today()), 0);
    assert!(session.is_done());
}
