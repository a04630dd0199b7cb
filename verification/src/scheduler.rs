//! The "advance one Card on a grade" step.
//!
//! The FSRS model itself (`fsrs::FSRS::next_states`) works in floating point
//! and runs outside this crate; it hands back, for each of the four grades, the
//! new memory state and an interval already rounded to whole days (minimum 1).
//! What the app owns on top of FSRS is decided here: how many days have
//! elapsed since the last review, which outcome a grade picks, and the three
//! local-date fields of the next [`CardRecord`] — `due`, `last_review` and
//! `introduced_on`.
use crate::date::{day_number, in_date_range, valid_ymd, ymd_lt, CivilDate, MAX_SPAN_DAYS};
use crate::store::CardRecord;
use vstd::prelude::*;

verus! {

/// FSRS memory state (stability and difficulty). Carried through unchanged.
#[verifier::external_type_specification]
#[verifier::external_body]
pub struct ExMemoryState(fsrs::MemoryState);

/// The learner's self-assessed four-button grade. **Again** is the only
/// failing grade and the only one that re-drills the Card in the session.
#[derive(Debug, Clone, Copy, PartialEq, Eq, Structural)]
pub enum Grade {
    Again,
    Hard,
    Good,
    Easy,
}

impl Grade {
    /// Whether this grade re-drills the Card within the session: only **Again**.
    pub fn is_again(self) -> (r: bool)
        ensures
            r == (self == Grade::Again),
    {
        match self {
            Grade::Again => true,
            _ => false,
        }
    }
}

/// One FSRS outcome: the memory state after the grade and the interval until
/// the next review in whole days.
#[derive(Debug, Clone, Copy)]
pub struct Outcome {
    pub memory: fsrs::MemoryState,
    pub interval_days: i64,
}

/// The FSRS outcome for each of the four grades.
#[derive(Debug, Clone, Copy)]
pub struct NextStates {
    pub again: Outcome,
    pub hard: Outcome,
    pub good: Outcome,
    pub easy: Outcome,
}

impl NextStates {
    pub open spec fn spec_for(self, grade: Grade) -> Outcome {
        match grade {
            Grade::Again => self.again,
            Grade::Hard => self.hard,
            Grade::Good => self.good,
            Grade::Easy => self.easy,
        }
    }

    /// The outcome the given grade selects.
    pub fn for_grade(&self, grade: Grade) -> (o: Outcome)
        ensures
            o == self.spec_for(grade),
    {
        match grade {
            Grade::Again => self.again,
            Grade::Hard => self.hard,
            Grade::Good => self.good,
            Grade::Easy => self.easy,
        }
    }
}

/// A record seen through an optional reference.
pub open spec fn opt_record(o: Option<&CardRecord>) -> Option<CardRecord> {
    match o {
        Some(r) => Some(*r),
        None => None,
    }
}

/// Whole days since the Card's last review, floored at zero; zero for a
/// never-graded Card.
pub open spec fn spec_days_elapsed(prior: Option<CardRecord>, today: CivilDate) -> int {
    match prior {
        None => 0,
        Some(r) => {
            let d = day_number(today@) - day_number(r.last_review@);
            if d < 0 {
                0
            } else {
                d
            }
        },
    }
}

/// FSRS is fed the calendar days since the last review: a Card last reviewed
/// `n ≥ 0` days before `today` (by day number, as `CivilDate::checked_add_days`
/// moves dates) has `n` elapsed days; one whose last review is after `today`
/// has none; a never-graded Card has none.
pub proof fn lemma_days_elapsed_by_calendar(r: CardRecord, today: CivilDate, n: int)
    ensures
        n >= 0 && day_number(today@) == day_number(r.last_review@) + n ==> spec_days_elapsed(
            Some(r),
            today,
        ) == n,
        day_number(today@) < day_number(r.last_review@) ==> spec_days_elapsed(Some(r), today) == 0,
        spec_days_elapsed(None, today) == 0,
{
}

/// What FSRS needs to compute a Card's next states: its current memory
/// (none for a never-graded Card) and the days elapsed since its last review.
#[derive(Debug, Clone, Copy)]
pub struct FsrsQuery {
    pub memory: Option<fsrs::MemoryState>,
    pub days_elapsed: u32,
}

/// `max(0, today − last_review)` in whole days; `0` for a never-graded Card.
pub fn days_elapsed(prior: Option<&CardRecord>, today: CivilDate) -> (d: u32)
    ensures
        d as int == spec_days_elapsed(opt_record(prior), today),
        prior matches Some(r) && r.last_review == today ==> d == 0,
        prior is None ==> d == 0,
        prior matches Some(r) ==> d as int == if day_number(r.last_review@) <= day_number(today@) {
            day_number(today@) - day_number(r.last_review@)
        } else {
            0
        },
{
    match prior {
        None => 0,
        Some(r) => {
            let d = today.days_since(&r.last_review);
            if d < 0 {
                0
            } else {
                d as u32
            }
        },
    }
}

/// The FSRS inputs for a Card with record `prior` graded on `today`.
pub fn fsrs_query(prior: Option<&CardRecord>, today: CivilDate) -> (q: FsrsQuery)
    ensures
        q.memory == (match prior {
            Some(r) => Some(r.memory),
            None => None::<fsrs::MemoryState>,
        }),
        q.days_elapsed as int == spec_days_elapsed(opt_record(prior), today),
        prior matches Some(r) && r.last_review == today ==> q.days_elapsed == 0,
        prior matches Some(r) ==> q.days_elapsed as int == if day_number(r.last_review@)
            <= day_number(today@) {
            day_number(today@) - day_number(r.last_review@)
        } else {
            0
        },
{
    let memory = match prior {
        Some(r) => Some(r.memory),
        None => None,
    };
    FsrsQuery { memory, days_elapsed: days_elapsed(prior, today) }
}

/// Why a grade could not be turned into a next record.
#[derive(Debug, Clone, PartialEq, Eq, Structural)]
pub enum ScheduleError {
    /// `today` plus the interval leaves the supported date range.
    DueDateOutOfRange,
}

/// The `introduced_on` a graded Card keeps: stamped on its first grade, kept
/// on every later one.
pub open spec fn spec_introduced_on(prior: Option<CardRecord>, today: CivilDate) -> CivilDate {
    match prior {
        Some(p) => p.introduced_on,
        None => today,
    }
}

/// Whole days a pass schedules ahead: the FSRS interval, but never less than
/// one day, so a passed Card always leaves today.
pub open spec fn pass_days(interval_days: i64) -> int {
    if interval_days < 1 {
        1
    } else {
        interval_days as int
    }
}

/// The Card's next persisted record after `grade` on `today`, given the FSRS
/// outcomes `next` computed from its prior memory.
///
/// - **Again** → memory updated, `due = today` (re-drills today, and a quit
///   mid-session never loses the re-drill).
/// - **Hard / Good / Easy** → memory updated, `due = today + interval`, the
///   interval counted as at least one day.
///
/// `last_review` is set to `today` on every grade, so a same-day re-drill
/// feeds zero elapsed days back into FSRS. `introduced_on` is stamped on a
/// Card's first grade (`prior` is `None`) and preserved afterwards.
pub fn next_record(prior: Option<&CardRecord>, grade: Grade, today: CivilDate, next: &NextStates)
    -> (r: Result<CardRecord, ScheduleError>)
    requires
        grade != Grade::Again ==> next.spec_for(grade).interval_days <= MAX_SPAN_DAYS,
    ensures
        grade == Grade::Again ==> r is Ok,
        grade != Grade::Again ==> (r is Ok <==> in_date_range(
            day_number(today@) + pass_days(next.spec_for(grade).interval_days),
        )),
        -9800 <= today@.0 <= 9800 && next.spec_for(grade).interval_days <= 36500 ==> r is Ok,
        r matches Ok(rec) ==> {
            &&& rec.memory == next.spec_for(grade).memory
            &&& rec.last_review == today
            &&& rec.introduced_on == spec_introduced_on(opt_record(prior), today)
            &&& grade == Grade::Again ==> rec.due == today
            &&& grade != Grade::Again ==> day_number(rec.due@) == day_number(today@) + pass_days(
                next.spec_for(grade).interval_days,
            )
            &&& valid_ymd(rec.due@.0, rec.due@.1, rec.due@.2)
            &&& grade != Grade::Again ==> ymd_lt(today@, rec.due@)
        },
        r matches Err(e) ==> e == ScheduleError::DueDateOutOfRange,
{
    proof {
        use_type_invariant(&today);
    }
    let outcome = next.for_grade(grade);
    let due = if grade.is_again() {
        today
    } else {
        let days = if outcome.interval_days < 1 {
            1
        } else {
            outcome.interval_days
        };
        match today.checked_add_days(days) {
            Some(d) => d,
            None => return Err(ScheduleError::DueDateOutOfRange),
        }
    };
    let introduced_on = match prior {
        Some(p) => p.introduced_on,
        None => today,
    };
    Ok(CardRecord { memory: outcome.memory, due, last_review: today, introduced_on })
}

} // verus!
