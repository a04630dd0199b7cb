use fsrs::{ItemState, FSRS};
use world_learn::date::CivilDate;
use world_learn::scheduler::{
    days_elapsed, fsrs_query, next_record, Grade, NextStates, Outcome, ScheduleError,
};
use world_learn::store::CardRecord;

fn date(y: i16, m: i8, d: i8) -> CivilDate {
    CivilDate::new(y, m, d).unwrap()
}

fn whole_days(interval: f32) -> i64 {
    interval.round().max(1.0).min(i64::MAX as f32) as i64
}

fn outcome(s: &ItemState) -> Outcome {
    Outcome {
        memory: s.memory,
        interval_days: whole_days(s.interval),
    }
}

/// FSRS next states for `prior` graded on `today`, as the app computes them.
fn next_states(prior: Option<&CardRecord>, today: CivilDate) -> NextStates {
    let q = fsrs_query(prior, today);
    let n = FSRS::default()
        .next_states(q.memory, 0.9, q.days_elapsed)
        .unwrap();
    NextStates {
        again: outcome(&n.again),
        hard: outcome(&n.hard),
        good: outcome(&n.good),
        easy: outcome(&n.easy),
    }
}

fn review(prior: Option<&CardRecord>, grade: Grade, today: CivilDate) -> CardRecord {
    next_record(prior, grade, today, &next_states(prior, today)).unwrap()
}

fn record(stability: f32, difficulty: f32, last_review: CivilDate, due: CivilDate, intro: CivilDate) -> CardRecord {
    CardRecord {
        memory: fsrs::MemoryState {
            stability,
            difficulty,
        },
        due,
        last_review,
        introduced_on: intro,
    }
}

#[test]
fn first_grade_of_a_new_card_stamps_introduced_and_reviews_today() {
    let today = date(2026, 8, 15);
    for grade in [Grade::Again, Grade::Hard, Grade::Good, Grade::Easy] {
        let r = review(None, grade, today);
        assert_eq!(r.introduced_on, today, "{grade:?} must stamp introduced_on = today");
        assert_eq!(r.last_review, today, "{grade:?} must stamp last_review = today");
        assert!(r.memory.stability > 0.0, "{grade:?} must produce positive stability");
    }
}

#[test]
fn again_is_due_today_pass_is_due_later() {
    let today = date(2026, 8, 15);
    assert_eq!(review(None, Grade::Again, today).due, today);
    for grade in [Grade::Hard, Grade::Good, Grade::Easy] {
        let r = review(None, grade, today);
        assert!(today.is_before(&r.due), "{grade:?} must schedule due after today, got {:?}", r.due);
    }
}

#[test]
fn easy_schedules_no_sooner_than_good_than_hard() {
    let today = date(2026, 8, 15);
    let due = |g| review(None, g, today).due;
    assert!(due(Grade::Hard) <= due(Grade::Good));
    assert!(due(Grade::Good) <= due(Grade::Easy));
}

#[test]
fn later_grade_preserves_introduced_on() {
    let intro = date(2026, 8, 10);
    let prior = record(3.0, 5.0, date(2026, 8, 12), date(2026, 8, 14), intro);
    let today = date(2026, 8, 15);
    let r = review(Some(&prior), Grade::Good, today);
    assert_eq!(r.introduced_on, intro, "introduced_on is stamped once, never re-stamped");
    assert_eq!(r.last_review, today);
    assert!(today.is_before(&r.due));
}

#[test]
fn again_on_a_seen_card_pins_due_today_and_keeps_introduced_on() {
    let intro = date(2026, 8, 10);
    let prior = record(20.0, 5.0, date(2026, 8, 1), date(2026, 8, 15), intro);
    let today = date(2026, 8, 15);
    let r = review(Some(&prior), Grade::Again, today);
    assert_eq!(r.due, today, "Again pins due = today so a re-drill survives a quit");
    assert_eq!(r.last_review, today);
    assert_eq!(r.introduced_on, intro);
}

#[test]
fn days_elapsed_is_zero_for_new_cards_and_same_day_redrills() {
    let today = date(2026, 8, 15);
    assert_eq!(days_elapsed(None, today), 0);
    let prior = record(3.0, 5.0, date(2026, 8, 12), today, today);
    assert_eq!(days_elapsed(Some(&prior), today), 3);
    let redrill = review(Some(&prior), Grade::Again, today);
    assert_eq!(days_elapsed(Some(&redrill), today), 0);
    // A last review in the "future" (clock moved back) floors at zero.
    let ahead = record(3.0, 5.0, date(2026, 8, 20), today, today);
    assert_eq!(days_elapsed(Some(&ahead), today), 0);
}

#[test]
fn chosen_grade_picks_its_own_fsrs_outcome() {
    let today = date(2026, 8, 15);
    let next = next_states(None, today);
    for (grade, chosen) in [
        (Grade::Again, next.again),
        (Grade::Hard, next.hard),
        (Grade::Good, next.good),
        (Grade::Easy, next.easy),
    ] {
        let r = next_record(None, grade, today, &next).unwrap();
        assert_eq!(r.memory, chosen.memory);
        assert_eq!(next.for_grade(grade).interval_days, chosen.interval_days);
        if grade != Grade::Again {
            assert_eq!(Some(r.due), today.checked_add_days(chosen.interval_days));
        }
    }
}

#[test]
fn due_date_past_the_calendar_is_an_error() {
    let today = date(9999, 12, 30);
    let next = next_states(None, today);
    assert_eq!(
        next_record(None, Grade::Easy, today, &next),
        Err(ScheduleError::DueDateOutOfRange)
    );
    // Again never needs the interval.
    assert_eq!(next_record(None, Grade::Again, today, &next).unwrap().due, today);
    assert!(Grade::Again.is_again());
    assert!(!Grade::Good.is_again());
}

#[test]
fn same_inputs_give_the_same_record() {
    let today = date(2026, 8, 15);
    let prior = record(3.2, 5.1, date(2026, 8, 10), date(2026, 8, 15), date(2026, 8, 1));
    let next = next_states(Some(&prior), today);
    for grade in [Grade::Again, Grade::Hard, Grade::Good, Grade::Easy] {
        let a = next_record(Some(&prior), grade, today, &next).unwrap();
        let b = next_record(Some(&prior), grade, today, &next).unwrap();
        assert_eq!(a, b);
        assert_eq!(a.introduced_on, date(2026, 8, 1));
        if grade != Grade::Again {
            assert_eq!(
                i64::from(a.due.days_since(&today)),
                next.for_grade(grade).interval_days
            );
        }
    }
    // A longer interval is due later.
    let hard = next_record(Some(&prior), Grade::Hard, today, &next).unwrap();
    let easy = next_record(Some(&prior), Grade::Easy, today, &next).unwrap();
    if next.hard.interval_days < next.easy.interval_days {
        assert!(hard.due.is_before(&easy.due));
    }
}

#[test]
fn a_pass_always_lands_after_today() {
    let today = date(2026, 8, 15);
    let memory = fsrs::MemoryState {
        stability: 0.2,
        difficulty: 7.0,
    };
    for interval_days in [-5i64, 0, 1, 2] {
        let o = Outcome { memory, interval_days };
        let next = NextStates { again: o, hard: o, good: o, easy: o };
        let r = next_record(None, Grade::Hard, today, &next).unwrap();
        assert_eq!(r.due, today.checked_add_days(interval_days.max(1)).unwrap());
        assert!(today.is_before(&r.due));
    }
}
