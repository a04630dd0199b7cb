//! Session & derivation — the runtime lifecycle the Review loop drives.
//!
//! Everything about a Card's lifecycle is *derived* from the persisted state
//! plus today's date, never stored: which Cards are due, how many new Cards
//! today's cap still allows, and the order they enter. [`build_queue`]
//! composes those into the transient session queue; [`Session`] walks that
//! queue, grading each Card and requeueing an **Again** to the back until it
//! passes.
use crate::date::{
    day_number, in_date_range, lemma_day_number_injective, lemma_day_number_order, valid_ymd,
    ymd_le, ymd_lt, CivilDate, MAX_SPAN_DAYS,
};
use crate::deck::{codes_distinct, has_code, intro_lt, intro_sorted, lemma_intro_order, Card, Deck};
use crate::scheduler::{
    fsrs_query, next_record, pass_days, spec_introduced_on, FsrsQuery, Grade, NextStates,
    ScheduleError,
};
use crate::store::{keys_sorted, lemma_map_of, map_of, CardRecord, ReviewState};
use crate::text::{lemma_str_lt_order, str_lt};
use std::collections::VecDeque;
use vstd::prelude::*;

verus! {

/// A Card's derived lifecycle status — never persisted. `New` if the state
/// has no record; else `Due` when `due ≤ today`, else `Scheduled`. ("Learning"
/// isn't a separate state — it's a seen Card sitting at `due = today`.)
#[derive(Debug, Clone, Copy, PartialEq, Eq, Structural)]
pub enum Status {
    New,
    Due,
    Scheduled,
}

pub open spec fn spec_status(
    cards: Map<Seq<char>, CardRecord>,
    code: Seq<char>,
    today: CivilDate,
) -> Status {
    if !cards.contains_key(code) {
        Status::New
    } else if ymd_le(cards[code].due@, today@) {
        Status::Due
    } else {
        Status::Scheduled
    }
}

/// A Card's status read off the calendar: with no record it is New; with a
/// record it is Due when its due date is today or already past (its day number
/// is not after today's), and Scheduled when the due date is still ahead.
pub proof fn lemma_status_by_calendar(
    cards: Map<Seq<char>, CardRecord>,
    code: Seq<char>,
    today: CivilDate,
)
    requires
        today.is_valid(),
        cards.contains_key(code) ==> cards[code].due.is_valid(),
    ensures
        spec_status(cards, code, today) == Status::New <==> !cards.contains_key(code),
        cards.contains_key(code) ==> (spec_status(cards, code, today) == Status::Due <==> day_number(
            cards[code].due@,
        ) <= day_number(today@)),
        cards.contains_key(code) ==> (spec_status(cards, code, today) == Status::Scheduled
            <==> day_number(today@) < day_number(cards[code].due@)),
{
    if cards.contains_key(code) {
        let due = cards[code].due@;
        lemma_day_number_order(due, today@);
        lemma_day_number_order(today@, due);
        if day_number(due) == day_number(today@) {
            lemma_day_number_injective(due, today@);
        }
    }
}

/// Derived status of `code` today.
pub fn status(state: &ReviewState, code: &str, today: CivilDate) -> (s: Status)
    ensures
        s == spec_status(state.cards@, code@, today),
        s == Status::New <==> !state.cards@.contains_key(code@),
        state.cards@.contains_key(code@) ==> (s == Status::Due <==> day_number(
            state.cards@[code@].due@,
        ) <= day_number(today@)),
        state.cards@.contains_key(code@) ==> (s == Status::Scheduled <==> day_number(today@)
            < day_number(state.cards@[code@].due@)),
{
    proof {
        use_type_invariant(&today);
    }
    match state.cards.get(code) {
        None => {
            proof {
                lemma_status_by_calendar(state.cards@, code@, today);
            }
            Status::New
        },
        Some(r) => {
            proof {
                use_type_invariant(&r.due);
                lemma_status_by_calendar(state.cards@, code@, today);
            }
            if r.due.is_on_or_before(&today) {
                Status::Due
            } else {
                Status::Scheduled
            }
        },
    }
}

/// A never-graded Card.
pub open spec fn is_new(cards: Map<Seq<char>, CardRecord>) -> spec_fn(Card) -> bool {
    |c: Card| !cards.contains_key(c.code@)
}

/// A seen Card whose `due ≤ today`.
pub open spec fn is_due(cards: Map<Seq<char>, CardRecord>, today: CivilDate) -> spec_fn(
    Card,
) -> bool {
    |c: Card| cards.contains_key(c.code@) && ymd_le(cards[c.code@].due@, today@)
}

/// The Cards a vector of references points at.
pub open spec fn cards_of(v: Seq<&Card>) -> Seq<Card> {
    v.map_values(|c: &Card| *c)
}

/// The codes of a sequence of Cards.
pub open spec fn codes_of(s: Seq<Card>) -> Seq<Seq<char>> {
    s.map_values(|c: Card| c.code@)
}

/// Filtering keeps codes distinct, keeps introduction order, and keeps only
/// members of the filtered sequence.
pub proof fn lemma_filter_keeps(s: Seq<Card>, p: spec_fn(Card) -> bool)
    ensures
        forall|i: int| 0 <= i < s.filter(p).len() ==> p(#[trigger] s.filter(p)[i]),
        forall|i: int|
            0 <= i < s.filter(p).len() ==> s.contains(#[trigger] s.filter(p)[i]),
        codes_distinct(s) ==> codes_distinct(s.filter(p)),
        intro_sorted(s) ==> intro_sorted(s.filter(p)),
    decreases s.len(),
{
    reveal(Seq::filter);
    if s.len() > 0 {
        let init = s.drop_last();
        lemma_filter_keeps(init, p);
        let f = s.filter(p);
        let g = init.filter(p);
        assert forall|i: int| 0 <= i < f.len() implies s.contains(#[trigger] f[i]) by {
            if i < g.len() {
                assert(f[i] == g[i]);
                let j = choose|j: int| 0 <= j < init.len() && init[j] == g[i];
                assert(s[j] == f[i]);
            } else {
                assert(f[i] == s[s.len() - 1]);
            }
        }
        assert forall|i: int| 0 <= i < f.len() implies p(#[trigger] f[i]) by {
            if i < g.len() {
                assert(f[i] == g[i]);
            }
        }
        if codes_distinct(s) {
            assert(codes_distinct(init));
            assert forall|a: int, b: int| 0 <= a < b < f.len() implies #[trigger] f[a].code@
                != #[trigger] f[b].code@ by {
                if b < g.len() {
                    assert(f[a] == g[a] && f[b] == g[b]);
                } else {
                    assert(f[a] == g[a]);
                    let j = choose|j: int| 0 <= j < init.len() && init[j] == g[a];
                    assert(s[j] == f[a]);
                    assert(f[b] == s[s.len() - 1]);
                }
            }
        }
        if intro_sorted(s) {
            assert(intro_sorted(init));
            assert forall|a: int, b: int| 0 <= a < b < f.len() implies intro_lt(
                #[trigger] f[a],
                #[trigger] f[b],
            ) by {
                if b < g.len() {
                    assert(f[a] == g[a] && f[b] == g[b]);
                } else {
                    assert(f[a] == g[a]);
                    let j = choose|j: int| 0 <= j < init.len() && init[j] == g[a];
                    assert(s[j] == f[a]);
                    assert(f[b] == s[s.len() - 1]);
                }
            }
        }
    }
}

/// New backlog: Deck Cards without a record, in introduction order. These are
/// the Cards that have never been graded, ready to be introduced up to the cap.
pub fn new_backlog<'d>(state: &ReviewState, deck: &'d Deck) -> (v: Vec<&'d Card>)
    ensures
        cards_of(v@) == deck@.filter(is_new(state.cards@)),
{
    let cards = deck.cards();
    let mut v: Vec<&'d Card> = Vec::new();
    let mut i: usize = 0;
    assert(deck@.take(0) =~= Seq::<Card>::empty());
    while i < cards.len()
        invariant
            cards@ == deck@,
            i <= cards@.len(),
            cards_of(v@) == deck@.take(i as int).filter(is_new(state.cards@)),
        decreases cards@.len() - i,
    {
        let c = &cards[i];
        assert(deck@.take(i + 1) =~= deck@.take(i as int).push(*c));
        proof {
            deck@.take(i as int).lemma_filter_push(*c, is_new(state.cards@));
        }
        if !state.cards.contains_key(c.code.as_str()) {
            let ghost before = v@;
            v.push(c);
            assert(cards_of(v@) =~= cards_of(before).push(*c));
        }
        i = i + 1;
    }
    assert(deck@.take(cards@.len() as int) =~= deck@);
    v
}

/// The due set holds exactly the Cards of `deck` that have a record due today
/// or earlier, each once, in the Deck's own order.
pub proof fn lemma_due_set(deck: Seq<Card>, cards: Map<Seq<char>, CardRecord>, today: CivilDate)
    requires
        codes_distinct(deck),
        intro_sorted(deck),
    ensures
        forall|k: int|
            0 <= k < deck.len() ==> (deck.filter(is_due(cards, today)).contains(#[trigger] deck[k])
                <==> cards.contains_key(deck[k].code@) && ymd_le(cards[deck[k].code@].due@, today@)),
        forall|i: int|
            0 <= i < deck.filter(is_due(cards, today)).len() ==> deck.contains(
                #[trigger] deck.filter(is_due(cards, today))[i],
            ),
        in_deck_order(deck, codes_of(deck.filter(is_due(cards, today)))),
{
    let p = is_due(cards, today);
    lemma_filter_keeps(deck, p);
    lemma_filter_positions(deck, p);
    let f = deck.filter(p);
    assert forall|k: int| 0 <= k < deck.len() implies (f.contains(#[trigger] deck[k])
        <==> cards.contains_key(deck[k].code@) && ymd_le(cards[deck[k].code@].due@, today@)) by {
        if f.contains(deck[k]) {
            let i = choose|i: int| 0 <= i < f.len() && f[i] == deck[k];
            assert(p(f[i]));
        }
        if p(deck[k]) {
            deck.lemma_filter_contains(p, k);
        }
    }
}

/// Codes lie at positions of `deck`: position `a` of `deck` holds `code`.
pub open spec fn at_pos(deck: Seq<Card>, a: int, code: Seq<char>) -> bool {
    0 <= a < deck.len() && deck[a].code@ == code
}

/// `codes` run in the order their Cards stand in `deck`.
pub open spec fn in_deck_order(deck: Seq<Card>, codes: Seq<Seq<char>>) -> bool {
    forall|i: int, j: int, a: int, b: int|
        0 <= i < j < codes.len() && #[trigger] at_pos(deck, a, codes[i]) && #[trigger] at_pos(
            deck,
            b,
            codes[j],
        ) ==> a < b
}

/// A filter of a Deck-ordered sequence keeps the order both ways: of two kept
/// Cards, the one earlier in the filter is the one earlier in `s`.
pub proof fn lemma_filter_positions(s: Seq<Card>, p: spec_fn(Card) -> bool)
    requires
        codes_distinct(s),
        intro_sorted(s),
    ensures
        forall|i: int, j: int, a: int, b: int|
            0 <= i < s.filter(p).len() && 0 <= j < s.filter(p).len() && #[trigger] at_pos(
                s,
                a,
                s.filter(p)[i].code@,
            ) && #[trigger] at_pos(s, b, s.filter(p)[j].code@) ==> (i < j <==> a < b),
        in_deck_order(s, codes_of(s.filter(p))),
{
    lemma_filter_keeps(s, p);
    let f = s.filter(p);
    assert forall|i: int, j: int, a: int, b: int|
        0 <= i < f.len() && 0 <= j < f.len() && #[trigger] at_pos(s, a, f[i].code@)
            && #[trigger] at_pos(s, b, f[j].code@) implies (i < j <==> a < b) by {
        let ka = choose|k: int| 0 <= k < s.len() && s[k] == f[i];
        let kb = choose|k: int| 0 <= k < s.len() && s[k] == f[j];
        assert(ka == a) by {
            if ka < a {
                assert(s[ka].code@ != s[a].code@);
            } else if a < ka {
                assert(s[a].code@ != s[ka].code@);
            }
        }
        assert(kb == b) by {
            if kb < b {
                assert(s[kb].code@ != s[b].code@);
            } else if b < kb {
                assert(s[b].code@ != s[kb].code@);
            }
        }
        lemma_intro_order(f[i], f[j], f[i]);
        lemma_intro_order(f[j], f[i], f[j]);
        if i < j {
            assert(intro_lt(f[i], f[j]));
            assert(a != b);
            if b < a {
                assert(intro_lt(s[b], s[a]));
            }
        }
        if a < b {
            assert(intro_lt(s[a], s[b]));
            if j < i {
                assert(intro_lt(f[j], f[i]));
            }
            if i == j {
                assert(s[a].code@ != s[b].code@);
            }
        }
    }
    let c = codes_of(f);
    assert forall|i: int, j: int, a: int, b: int|
        0 <= i < j < c.len() && #[trigger] at_pos(s, a, c[i]) && #[trigger] at_pos(s, b, c[j])
            implies a < b by {
        assert(c[i] == f[i].code@ && c[j] == f[j].code@);
        assert(at_pos(s, a, f[i].code@) && at_pos(s, b, f[j].code@));
    }
}

/// Due set: seen Cards with `due ≤ today`, in introduction order.
pub fn due_cards<'d>(state: &ReviewState, deck: &'d Deck, today: CivilDate) -> (v: Vec<&'d Card>)
    ensures
        cards_of(v@) == deck@.filter(is_due(state.cards@, today)),
        forall|k: int|
            0 <= k < deck@.len() ==> (cards_of(v@).contains(#[trigger] deck@[k])
                <==> state.cards@.contains_key(deck@[k].code@) && ymd_le(
                state.cards@[deck@[k].code@].due@,
                today@,
            )),
        in_deck_order(deck@, codes_of(cards_of(v@))),
{
    proof {
        use_type_invariant(deck);
        lemma_due_set(deck@, state.cards@, today);
    }
    let cards = deck.cards();
    let mut v: Vec<&'d Card> = Vec::new();
    let mut i: usize = 0;
    assert(deck@.take(0) =~= Seq::<Card>::empty());
    while i < cards.len()
        invariant
            cards@ == deck@,
            i <= cards@.len(),
            cards_of(v@) == deck@.take(i as int).filter(is_due(state.cards@, today)),
        decreases cards@.len() - i,
    {
        let c = &cards[i];
        assert(deck@.take(i + 1) =~= deck@.take(i as int).push(*c));
        proof {
            deck@.take(i as int).lemma_filter_push(*c, is_due(state.cards@, today));
        }
        let due = match state.cards.get(c.code.as_str()) {
            Some(r) => r.due.is_on_or_before(&today),
            None => false,
        };
        if due {
            let ghost before = v@;
            v.push(c);
            assert(cards_of(v@) =~= cards_of(before).push(*c));
        }
        i = i + 1;
    }
    assert(deck@.take(cards@.len() as int) =~= deck@);
    v
}

/// How many of `records` were introduced on `day`.
pub open spec fn count_introduced_on(records: Seq<CardRecord>, day: CivilDate) -> nat
    decreases records.len(),
{
    if records.len() == 0 {
        0
    } else {
        count_introduced_on(records.drop_last(), day) + if records.last().introduced_on == day {
            1nat
        } else {
            0nat
        }
    }
}

/// `new_cards_per_day` minus the Cards already introduced today, floored at 0.
pub open spec fn spec_new_allowance(state: ReviewState, today: CivilDate) -> int {
    let n = count_introduced_on(state.cards.records(), today);
    let introduced = if n > u32::MAX {
        u32::MAX as int
    } else {
        n as int
    };
    if state.settings.new_cards_per_day >= introduced {
        state.settings.new_cards_per_day - introduced
    } else {
        0
    }
}

/// New allowance remaining today: `new_cards_per_day` minus the count of
/// Cards already introduced today. Saturates at 0 so the cap is never
/// exceeded even if the setting is lowered mid-day below the count already
/// introduced.
pub fn new_allowance(state: &ReviewState, today: CivilDate) -> (n: u32)
    ensures
        n == spec_new_allowance(*state, today),
        n <= state.settings.new_cards_per_day,
{
    let len = state.cards.len();
    let ghost records = state.cards.records();
    let mut count: usize = 0;
    let mut i: usize = 0;
    assert(records.take(0) =~= Seq::<CardRecord>::empty());
    while i < len
        invariant
            len == state.cards.entries().len(),
            records == state.cards.records(),
            records.len() == len,
            i <= len,
            count == count_introduced_on(records.take(i as int), today),
            count <= i,
        decreases len - i,
    {
        let (_, r) = state.cards.entry_at(i);
        assert(records.take(i + 1).drop_last() =~= records.take(i as int));
        assert(records.take(i + 1).last() == *r);
        if r.introduced_on == today {
            count = count + 1;
        }
        i = i + 1;
    }
    assert(records.take(len as int) =~= records);
    let introduced: u32 = if count > u32::MAX as usize {
        u32::MAX
    } else {
        count as u32
    };
    state.settings.new_cards_per_day.saturating_sub(introduced)
}

/// The session queue's codes: the due set followed by up to the remaining
/// allowance of new Cards, all in introduction order.
pub open spec fn spec_build_queue(state: ReviewState, deck: Seq<Card>, today: CivilDate) -> Seq<
    Seq<char>,
> {
    let backlog = deck.filter(is_new(state.cards@));
    let allowance = spec_new_allowance(state, today);
    let take = if allowance < backlog.len() {
        allowance
    } else {
        backlog.len() as int
    };
    codes_of(deck.filter(is_due(state.cards@, today))) + codes_of(backlog.take(take))
}

/// The codes a vector of strings holds.
pub open spec fn strings_of(v: Seq<String>) -> Seq<Seq<char>> {
    v.map_values(|s: String| s@)
}

/// The transient session queue: the due set followed by up to the remaining
/// allowance of new Cards, all in introduction order. Rebuilt from the state
/// at each session start, so a lowered cap or a new day is reflected without
/// any stored session state.
pub fn build_queue(state: &ReviewState, deck: &Deck, today: CivilDate) -> (q: Vec<String>)
    ensures
        strings_of(q@) == spec_build_queue(*state, deck@, today),
{
    let allowance = new_allowance(state, today);
    let due = due_cards(state, deck, today);
    let backlog = new_backlog(state, deck);
    let ghost due_spec = deck@.filter(is_due(state.cards@, today));
    let ghost backlog_spec = deck@.filter(is_new(state.cards@));
    let mut q: Vec<String> = Vec::new();
    let mut i: usize = 0;
    assert(codes_of(due_spec.take(0)) =~= Seq::<Seq<char>>::empty());
    while i < due.len()
        invariant
            cards_of(due@) == due_spec,
            i <= due@.len(),
            strings_of(q@) == codes_of(due_spec.take(i as int)),
        decreases due@.len() - i,
    {
        let ghost before = q@;
        let c = due[i].code.clone();
        assert(c@ == due_spec[i as int].code@) by {
            assert(cards_of(due@)[i as int] == *due@[i as int]);
        }
        q.push(c);
        assert(q@ == before.push(c));
        assert(due_spec.len() == due@.len());
        assert(strings_of(q@) =~= strings_of(before).push(c@));
        assert(codes_of(due_spec.take(i + 1)) =~= codes_of(due_spec.take(i as int)).push(
            due_spec[i as int].code@,
        ));
        assert(strings_of(q@) =~= codes_of(due_spec.take(i + 1)));
        i = i + 1;
    }
    assert(due_spec.take(due@.len() as int) =~= due_spec);
    let take: usize = if (allowance as usize) < backlog.len() {
        allowance as usize
    } else {
        backlog.len()
    };
    let mut j: usize = 0;
    let ghost due_codes = codes_of(due_spec);
    assert(codes_of(backlog_spec.take(0)) =~= Seq::<Seq<char>>::empty());
    assert(due_codes + codes_of(backlog_spec.take(0)) =~= due_codes);
    while j < take
        invariant
            cards_of(backlog@) == backlog_spec,
            take <= backlog@.len(),
            j <= take,
            strings_of(q@) == due_codes + codes_of(backlog_spec.take(j as int)),
        decreases take - j,
    {
        let ghost before = q@;
        let c = backlog[j].code.clone();
        assert(c@ == backlog_spec[j as int].code@) by {
            assert(cards_of(backlog@)[j as int] == *backlog@[j as int]);
        }
        q.push(c);
        assert(q@ == before.push(c));
        assert(backlog_spec.len() == backlog@.len());
        assert(strings_of(q@) =~= strings_of(before).push(c@));
        assert(codes_of(backlog_spec.take(j + 1)) =~= codes_of(backlog_spec.take(j as int)).push(
            backlog_spec[j as int].code@,
        ));
        assert(strings_of(q@) =~= due_codes + codes_of(backlog_spec.take(j + 1)));
        j = j + 1;
    }
    q
}

/// No code occurs twice.
pub open spec fn seq_distinct(s: Seq<Seq<char>>) -> bool {
    forall|i: int, j: int| 0 <= i < j < s.len() ==> #[trigger] s[i] != #[trigger] s[j]
}

/// The queue a session starts from: no code twice, every code a Deck member,
/// due Cards first and then new ones, each part in introduction order, and no
/// more new ones than the allowance permits.
pub proof fn lemma_queue_shape(state: ReviewState, deck: Deck, today: CivilDate)
    requires
        deck.wf(),
    ensures
        seq_distinct(spec_build_queue(state, deck@, today)),
        forall|i: int|
            0 <= i < spec_build_queue(state, deck@, today).len() ==> has_code(
                deck@,
                #[trigger] spec_build_queue(state, deck@, today)[i],
            ),
        forall|i: int|
            0 <= i < deck@.filter(is_due(state.cards@, today)).len() ==> spec_status(
                state.cards@,
                #[trigger] spec_build_queue(state, deck@, today)[i],
                today,
            ) == Status::Due,
        forall|i: int|
            deck@.filter(is_due(state.cards@, today)).len() <= i < spec_build_queue(
                state,
                deck@,
                today,
            ).len() ==> spec_status(
                state.cards@,
                #[trigger] spec_build_queue(state, deck@, today)[i],
                today,
            ) == Status::New,
        spec_build_queue(state, deck@, today).len() <= deck@.filter(
            is_due(state.cards@, today),
        ).len() + spec_new_allowance(state, today),
        intro_sorted(deck@.filter(is_due(state.cards@, today))),
        intro_sorted(deck@.filter(is_new(state.cards@))),
{
    let due = deck@.filter(is_due(state.cards@, today));
    let backlog = deck@.filter(is_new(state.cards@));
    lemma_filter_keeps(deck@, is_due(state.cards@, today));
    lemma_filter_keeps(deck@, is_new(state.cards@));
    let q = spec_build_queue(state, deck@, today);
    let allowance = spec_new_allowance(state, today);
    let take = if allowance < backlog.len() {
        allowance
    } else {
        backlog.len() as int
    };
    let news = backlog.take(take);
    assert(q == codes_of(due) + codes_of(news));
    assert forall|i: int| 0 <= i < q.len() implies has_code(deck@, #[trigger] q[i]) && (i
        < due.len() ==> spec_status(state.cards@, q[i], today) == Status::Due) && (i
        >= due.len() ==> spec_status(state.cards@, q[i], today) == Status::New) by {
        let c = if i < due.len() {
            due[i]
        } else {
            news[i - due.len()]
        };
        assert(q[i] == c.code@);
        if i < due.len() {
            assert(is_due(state.cards@, today)(due[i]));
            assert(deck@.contains(c));
        } else {
            assert(news[i - due.len()] == backlog[i - due.len()]);
            assert(is_new(state.cards@)(backlog[i - due.len()]));
            assert(deck@.contains(c));
        }
        let k = choose|k: int| 0 <= k < deck@.len() && deck@[k] == c;
        assert(deck@[k].code@ == q[i]);
    }
    assert forall|a: int, b: int| 0 <= a < b < q.len() implies #[trigger] q[a] != #[trigger] q[b] by {
        if b < due.len() {
            assert(due[a].code@ != due[b].code@);
        } else if a >= due.len() {
            assert(news[a - due.len()] == backlog[a - due.len()]);
            assert(news[b - due.len()] == backlog[b - due.len()]);
            assert(backlog[a - due.len()].code@ != backlog[b - due.len()].code@);
        } else {
            assert(is_due(state.cards@, today)(due[a]));
            assert(news[b - due.len()] == backlog[b - due.len()]);
            assert(is_new(state.cards@)(backlog[b - due.len()]));
        }
    }
}

/// The first `n` codes of `q` have records and the rest have none.
pub open spec fn seen_first(q: Seq<Seq<char>>, cards: Map<Seq<char>, CardRecord>, n: int) -> bool {
    &&& 0 <= n <= q.len()
    &&& forall|i: int| 0 <= i < n ==> cards.contains_key(#[trigger] q[i])
    &&& forall|i: int| n <= i < q.len() ==> !cards.contains_key(#[trigger] q[i])
}

/// Today's queue read off the Deck and the records: seen Cards come first and
/// new ones after; the seen ones are exactly the Deck Cards with a record due
/// today or earlier; each part runs in Deck order; and the new part is a
/// prefix of the never-graded Cards in Deck order (no new Card is skipped for
/// a later one), holding as many new Cards as today's allowance admits, or all
/// of them if fewer.
pub proof fn lemma_queue_order(state: ReviewState, deck: Deck, today: CivilDate)
    requires
        deck.wf(),
    ensures
        ({
            let q = spec_build_queue(state, deck@, today);
            let cards = state.cards@;
            &&& forall|i: int, j: int|
                0 <= i < j < q.len() && cards.contains_key(#[trigger] q[j]) ==> cards.contains_key(
                    #[trigger] q[i],
                )
            &&& forall|i: int|
                0 <= i < q.len() && cards.contains_key(#[trigger] q[i]) ==> ymd_le(
                    cards[q[i]].due@,
                    today@,
                )
            &&& forall|k: int|
                0 <= k < deck@.len() && cards.contains_key(#[trigger] deck@[k].code@) && ymd_le(
                    cards[deck@[k].code@].due@,
                    today@,
                ) ==> q.contains(deck@[k].code@)
            &&& forall|i: int, j: int, a: int, b: int|
                0 <= i < j < q.len() && #[trigger] at_pos(deck@, a, q[i]) && #[trigger] at_pos(
                    deck@,
                    b,
                    q[j],
                ) && cards.contains_key(q[i]) == cards.contains_key(q[j]) ==> a < b
            &&& forall|i: int, a: int, b: int|
                0 <= i < q.len() && #[trigger] at_pos(deck@, b, q[i]) && !cards.contains_key(q[i])
                    && 0 <= a < b && !cards.contains_key(#[trigger] deck@[a].code@) ==> q.contains(
                    deck@[a].code@,
                )
            &&& exists|n: int|
                #[trigger] seen_first(q, cards, n) && q.len() - n == if spec_new_allowance(state, today) < deck@.filter(
                    is_new(cards),
                ).len() {
                    spec_new_allowance(state, today)
                } else {
                    deck@.filter(is_new(cards)).len() as int
                }
        }),
{
    let cards = state.cards@;
    let pd = is_due(cards, today);
    let pn = is_new(cards);
    let due = deck@.filter(pd);
    let backlog = deck@.filter(pn);
    lemma_filter_keeps(deck@, pd);
    lemma_filter_keeps(deck@, pn);
    lemma_filter_positions(deck@, pd);
    lemma_filter_positions(deck@, pn);
    lemma_due_set(deck@, cards, today);
    let q = spec_build_queue(state, deck@, today);
    let allowance = spec_new_allowance(state, today);
    let take = if allowance < backlog.len() {
        allowance
    } else {
        backlog.len() as int
    };
    let news = backlog.take(take);
    let nd = due.len() as int;
    assert(q == codes_of(due) + codes_of(news));
    assert forall|i: int| 0 <= i < q.len() implies (i < nd ==> q[i] == due[i].code@ && pd(due[i]))
        && (i >= nd ==> q[i] == backlog[i - nd].code@ && pn(backlog[i - nd]) && i - nd < take) by {
        if i >= nd {
            assert(news[i - nd] == backlog[i - nd]);
        }
    }
    assert forall|i: int, j: int|
        0 <= i < j < q.len() && cards.contains_key(#[trigger] q[j]) implies cards.contains_key(
        #[trigger] q[i],
    ) by {
        assert(q[j] == due[j].code@ || j < nd);
    }
    assert forall|k: int|
        0 <= k < deck@.len() && cards.contains_key(#[trigger] deck@[k].code@) && ymd_le(
            cards[deck@[k].code@].due@,
            today@,
        ) implies q.contains(deck@[k].code@) by {
        assert(due.contains(deck@[k]));
        let i = choose|i: int| 0 <= i < due.len() && due[i] == deck@[k];
        assert(q[i] == deck@[k].code@);
    }
    assert forall|i: int, j: int, a: int, b: int|
        0 <= i < j < q.len() && #[trigger] at_pos(deck@, a, q[i]) && #[trigger] at_pos(
            deck@,
            b,
            q[j],
        ) && cards.contains_key(q[i]) == cards.contains_key(q[j]) implies a < b by {
        if j < nd {
            assert(at_pos(deck@, a, due[i].code@) && at_pos(deck@, b, due[j].code@));
        } else if i >= nd {
            assert(at_pos(deck@, a, backlog[i - nd].code@) && at_pos(
                deck@,
                b,
                backlog[j - nd].code@,
            ));
        }
    }
    assert forall|i: int, a: int, b: int|
        0 <= i < q.len() && #[trigger] at_pos(deck@, b, q[i]) && !cards.contains_key(q[i]) && 0
            <= a < b && !cards.contains_key(#[trigger] deck@[a].code@) implies q.contains(
        deck@[a].code@,
    ) by {
        let m = i - nd;
        assert(pn(deck@[a]));
        deck@.lemma_filter_contains(pn, a);
        let m2 = choose|m2: int| 0 <= m2 < backlog.len() && backlog[m2] == deck@[a];
        assert(at_pos(deck@, a, backlog[m2].code@));
        assert(at_pos(deck@, b, backlog[m].code@));
        assert(m2 < m);
        assert(news[m2] == backlog[m2]);
        assert(q[nd + m2] == deck@[a].code@);
    }
    assert(seen_first(q, cards, nd));
}

/// Every record introduced on or before `today` leaves the next day's whole
/// cap free: the daily new-Card cap resets at the local day boundary.
pub proof fn lemma_cap_resets_next_day(state: ReviewState, today: CivilDate, later: CivilDate)
    requires
        forall|i: int|
            0 <= i < state.cards.records().len() ==> ymd_le(
                (#[trigger] state.cards.records()[i]).introduced_on@,
                today@,
            ),
        ymd_lt(today@, later@),
    ensures
        spec_new_allowance(state, later) == state.settings.new_cards_per_day,
{
    let records = state.cards.records();
    assert forall|i: int| 0 <= i < records.len() implies (#[trigger] records[i]).introduced_on
        != later by {
        if records[i].introduced_on == later {
            assert(ymd_le(later@, today@));
        }
    }
    lemma_count_zero(records, later);
}

/// The codes of the Cards in `cards` introduced on `day`.
pub open spec fn introduced_codes(cards: Map<Seq<char>, CardRecord>, day: CivilDate) -> Set<
    Seq<char>,
> {
    Set::new(|k: Seq<char>| cards.contains_key(k) && cards[k].introduced_on == day)
}

/// Counting the records introduced on `day`, in code order, counts the codes
/// introduced that day.
proof fn lemma_count_is_codes(e: Seq<(Seq<char>, CardRecord)>, day: CivilDate)
    requires
        keys_sorted(e),
    ensures
        introduced_codes(map_of(e), day).finite(),
        count_introduced_on(e.map_values(|x: (Seq<char>, CardRecord)| x.1), day)
            == introduced_codes(map_of(e), day).len(),
    decreases e.len(),
{
    let records = e.map_values(|x: (Seq<char>, CardRecord)| x.1);
    if e.len() == 0 {
        assert(introduced_codes(map_of(e), day) =~= Set::<Seq<char>>::empty());
    } else {
        let t = e.drop_last();
        let l = e.last();
        assert(keys_sorted(t));
        lemma_count_is_codes(t, day);
        lemma_map_of(t);
        assert(records.drop_last() =~= t.map_values(|x: (Seq<char>, CardRecord)| x.1));
        assert(records.last() == l.1);
        assert(!map_of(t).contains_key(l.0)) by {
            if map_of(t).contains_key(l.0) {
                let i = choose|i: int| 0 <= i < t.len() && t[i].0 == l.0;
                assert(str_lt(e[i].0, e[e.len() - 1].0));
                lemma_str_lt_order(l.0, l.0, l.0);
            }
        }
        let before = introduced_codes(map_of(t), day);
        let after = introduced_codes(map_of(e), day);
        if l.1.introduced_on == day {
            assert(after =~= before.insert(l.0));
        } else {
            assert(after =~= before);
        }
    }
}

/// The daily new-Card cap across a grade: the state after grading `code` on
/// `today` (its record replaced by `rec`, whose `introduced_on` a grade stamps
/// as [`Session::grade`] does) counts one more Card introduced today exactly
/// when `code` had no record before, so it takes one from today's allowance
/// (never below zero); regrading a Card already introduced leaves the
/// allowance as it was.
pub proof fn lemma_allowance_after_grade(
    before: ReviewState,
    after: ReviewState,
    code: Seq<char>,
    rec: CardRecord,
    today: CivilDate,
)
    requires
        before.cards.wf(),
        after.cards.wf(),
        after.cards@ == before.cards@.insert(code, rec),
        after.settings == before.settings,
        rec.introduced_on == (if before.cards@.contains_key(code) {
            before.cards@[code].introduced_on
        } else {
            today
        }),
    ensures
        count_introduced_on(after.cards.records(), today) == count_introduced_on(
            before.cards.records(),
            today,
        ) + if before.cards@.contains_key(code) {
            0int
        } else {
            1int
        },
        spec_new_allowance(after, today) == if before.cards@.contains_key(code) {
            spec_new_allowance(before, today)
        } else if spec_new_allowance(before, today) > 0 {
            spec_new_allowance(before, today) - 1
        } else {
            0
        },
{
    lemma_count_is_codes(before.cards.entries(), today);
    lemma_count_is_codes(after.cards.entries(), today);
    let b = introduced_codes(before.cards@, today);
    let a = introduced_codes(after.cards@, today);
    if before.cards@.contains_key(code) {
        assert(a =~= b);
    } else {
        assert(a =~= b.insert(code));
        assert(!b.contains(code));
    }
}

proof fn lemma_count_zero(records: Seq<CardRecord>, day: CivilDate)
    requires
        forall|i: int| 0 <= i < records.len() ==> (#[trigger] records[i]).introduced_on != day,
    ensures
        count_introduced_on(records, day) == 0,
    decreases records.len(),
{
    if records.len() > 0 {
        let init = records.drop_last();
        assert forall|i: int| 0 <= i < init.len() implies (#[trigger] init[i]).introduced_on
            != day by {
            assert(init[i] == records[i]);
        }
        lemma_count_zero(init, day);
        assert(records.last() == records[records.len() - 1]);
    }
}

/// The derived counts the Home screen shows.
#[derive(Debug, Clone, Copy, PartialEq, Eq, Structural)]
pub struct SessionCounts {
    /// Seen Cards due today.
    pub due: usize,
    /// New Cards today's allowance still admits.
    pub new_today: usize,
}

impl SessionCounts {
    /// Cards a session started now would hold.
    pub fn total(self) -> (n: usize)
        requires
            self.due + self.new_today <= usize::MAX,
        ensures
            n == self.due + self.new_today,
    {
        self.due + self.new_today
    }
}

/// The Home screen's counts: the due set's size and how many new Cards a
/// session would introduce today. Together they are the queue's length.
pub fn counts(state: &ReviewState, deck: &Deck, today: CivilDate) -> (c: SessionCounts)
    ensures
        c.due == deck@.filter(is_due(state.cards@, today)).len(),
        c.new_today == if spec_new_allowance(*state, today) < deck@.filter(
            is_new(state.cards@),
        ).len() {
            spec_new_allowance(*state, today)
        } else {
            deck@.filter(is_new(state.cards@)).len() as int
        },
        c.due + c.new_today == spec_build_queue(*state, deck@, today).len(),
{
    let due = due_cards(state, deck, today);
    let backlog = new_backlog(state, deck);
    let allowance = new_allowance(state, today);
    let new_today: usize = if (allowance as usize) < backlog.len() {
        allowance as usize
    } else {
        backlog.len()
    };
    SessionCounts { due: due.len(), new_today }
}

/// Why grading the current Card failed.
#[derive(Debug, Clone, PartialEq, Eq)]
pub enum SessionError {
    /// Graded with an empty session queue.
    EmptyQueue,
    /// FSRS could not compute the next states (its message).
    Fsrs(String),
    /// The next record could not be built.
    Schedule(ScheduleError),
}

/// The record a grade produces from `prior`, as [`next_record`] builds it.
pub open spec fn record_follows(
    rec: CardRecord,
    prior: Option<CardRecord>,
    grade: Grade,
    today: CivilDate,
    next: NextStates,
) -> bool {
    &&& rec.memory == next.spec_for(grade).memory
    &&& rec.last_review == today
    &&& rec.introduced_on == spec_introduced_on(prior, today)
    &&& grade == Grade::Again ==> rec.due == today
    &&& grade != Grade::Again ==> day_number(rec.due@) == day_number(today@) + pass_days(
        next.spec_for(grade).interval_days,
    )
    &&& valid_ymd(rec.due@.0, rec.due@.1, rec.due@.2)
    &&& grade != Grade::Again ==> ymd_lt(today@, rec.due@)
}

/// A grade determines its record: the same prior record, grade, day and FSRS
/// outcomes always produce the same next record.
pub proof fn lemma_record_determined(
    r1: CardRecord,
    r2: CardRecord,
    prior: Option<CardRecord>,
    grade: Grade,
    today: CivilDate,
    next: NextStates,
)
    requires
        record_follows(r1, prior, grade, today, next),
        record_follows(r2, prior, grade, today, next),
    ensures
        r1 == r2,
{
    lemma_day_number_injective(r1.due@, r2.due@);
    r1.due.lemma_view_injective(r2.due);
}

/// Graded on the same day, a pass scheduled more days ahead falls due later.
pub proof fn lemma_due_grows_with_interval(
    r1: CardRecord,
    r2: CardRecord,
    prior1: Option<CardRecord>,
    prior2: Option<CardRecord>,
    grade1: Grade,
    grade2: Grade,
    today: CivilDate,
    next1: NextStates,
    next2: NextStates,
)
    requires
        record_follows(r1, prior1, grade1, today, next1),
        record_follows(r2, prior2, grade2, today, next2),
        grade1 != Grade::Again,
        grade2 != Grade::Again,
        pass_days(next1.spec_for(grade1).interval_days) < pass_days(
            next2.spec_for(grade2).interval_days,
        ),
    ensures
        ymd_lt(r1.due@, r2.due@),
{
    lemma_day_number_order(r1.due@, r2.due@);
}

/// What grading does to a queue `q` with the current Card at its front (see
/// [`Session::grade`] and [`Session::finish_grade`]): a pass leaves the rest of
/// the queue, without that Card; an **Again** puts it behind the rest, so the
/// count of Cards left is unchanged and the next Card moves to the front.
pub proof fn lemma_grade_moves_front(q: Seq<Seq<char>>)
    requires
        q.len() > 0,
        seq_distinct(q),
    ensures
        !q.drop_first().contains(q[0]),
        q.drop_first().len() == q.len() - 1,
        q.drop_first().push(q[0]).len() == q.len(),
        q.drop_first().push(q[0]).last() == q[0],
        q.len() > 1 ==> q.drop_first().push(q[0])[0] == q[1] && q[1] != q[0],
        seq_distinct(q.drop_first().push(q[0])),
{
    let rest = q.drop_first();
    if rest.contains(q[0]) {
        let j = choose|j: int| 0 <= j < rest.len() && rest[j] == q[0];
        assert(q[j + 1] == q[0]);
    }
    let r = rest.push(q[0]);
    assert forall|a: int, b: int| 0 <= a < b < r.len() implies #[trigger] r[a] != #[trigger] r[b] by {
        if b == rest.len() {
            assert(r[a] == q[a + 1]);
        } else {
            assert(r[a] == q[a + 1] && r[b] == q[b + 1]);
        }
    }
}

/// Right after a grade on `today`, an **Again** leaves the Card due today (it
/// re-drills), while a pass leaves it scheduled for later.
pub proof fn lemma_status_after_grade(
    cards: Map<Seq<char>, CardRecord>,
    code: Seq<char>,
    rec: CardRecord,
    prior: Option<CardRecord>,
    grade: Grade,
    today: CivilDate,
    next: NextStates,
)
    requires
        record_follows(rec, prior, grade, today, next),
    ensures
        grade == Grade::Again ==> spec_status(cards.insert(code, rec), code, today) == Status::Due,
        grade != Grade::Again ==> spec_status(cards.insert(code, rec), code, today)
            == Status::Scheduled,
{
}

/// One review session over a fixed `today`. Owns the loaded state and the
/// transient queue and drives the front→grade loop the Review screen renders.
/// Every grade stamps the same day, captured at [`Session::start`].
///
/// Grading is two steps around the caller's save: [`Session::grade`] advances
/// the Card and updates the state, the caller persists [`Session::state`], and
/// [`Session::finish_grade`] then puts an **Again** back at the end of the
/// queue. A failed save therefore leaves the re-drill out of the queue, while
/// its persisted `due = today` is already on disk or not at all.
pub struct Session<'a> {
    deck: &'a Deck,
    today: CivilDate,
    state: ReviewState,
    /// `ADM0_A3` codes still to review this session, front = current Card.
    queue: VecDeque<String>,
    /// A just-graded **Again** waiting to be requeued.
    pending: Option<String>,
    total: usize,
    reviewed: usize,
}

impl<'a> Session<'a> {
    pub closed spec fn spec_queue(self) -> Seq<Seq<char>> {
        strings_of(self.queue@)
    }

    pub closed spec fn spec_pending(self) -> Option<Seq<char>> {
        match self.pending {
            Some(p) => Some(p@),
            None => None,
        }
    }

    pub closed spec fn spec_state(self) -> ReviewState {
        self.state
    }

    pub closed spec fn spec_deck(self) -> Seq<Card> {
        self.deck@
    }

    pub closed spec fn spec_today(self) -> CivilDate {
        self.today
    }

    pub closed spec fn spec_total(self) -> nat {
        self.total as nat
    }

    pub closed spec fn spec_reviewed(self) -> nat {
        self.reviewed as nat
    }

    /// The session invariant, which [`Session::start`] establishes and every
    /// grade keeps: the queue never holds a code twice and holds only Deck
    /// members, whose codes are distinct; a pending re-drill is a Deck member
    /// not already queued; and the Cards passed, queued and pending never
    /// exceed the number the session started with.
    pub open spec fn wf(self) -> bool {
        &&& seq_distinct(self.spec_queue())
        &&& forall|i: int|
            0 <= i < self.spec_queue().len() ==> has_code(
                self.spec_deck(),
                #[trigger] self.spec_queue()[i],
            )
        &&& self.spec_pending() matches Some(p) ==> has_code(self.spec_deck(), p)
            && !self.spec_queue().contains(p)
        &&& codes_distinct(self.spec_deck())
        &&& self.spec_reviewed() + self.spec_queue().len() + (if self.spec_pending() is Some {
            1int
        } else {
            0int
        }) <= self.spec_total()
    }

    /// Start a session from the loaded state: build today's queue.
    pub fn start(deck: &'a Deck, state: ReviewState, today: CivilDate) -> (s: Session<'a>)
        ensures
            s.wf(),
            s.spec_queue() == spec_build_queue(state, deck@, today),
            s.spec_state() == state,
            s.spec_deck() == deck@,
            s.spec_today() == today,
            s.spec_pending() is None,
            s.spec_total() == s.spec_queue().len(),
            s.spec_reviewed() == 0,
    {
        proof {
            use_type_invariant(deck);
            lemma_queue_shape(state, *deck, today);
        }
        let codes = build_queue(&state, deck, today);
        let mut queue: VecDeque<String> = VecDeque::new();
        let mut i: usize = 0;
        while i < codes.len()
            invariant
                i <= codes@.len(),
                strings_of(queue@) == strings_of(codes@).take(i as int),
            decreases codes@.len() - i,
        {
            let c = codes[i].clone();
            let ghost before = queue@;
            queue.push_back(c);
            assert(strings_of(queue@) =~= strings_of(codes@).take(i + 1)) by {
                assert(queue@ == before.push(c));
                assert(strings_of(queue@) =~= strings_of(before).push(c@));
            }
            i = i + 1;
        }
        assert(strings_of(codes@).take(codes@.len() as int) =~= strings_of(codes@));
        let total = queue.len();
        Session { deck, today, state, queue, pending: None, total, reviewed: 0 }
    }

    /// Cards left to review (Agains still queued count until they pass).
    pub fn remaining(&self) -> (n: usize)
        ensures
            n == self.spec_queue().len(),
    {
        self.queue.len()
    }

    /// Whether the session queue is drained — the done-for-today state.
    pub fn is_done(&self) -> (b: bool)
        ensures
            b == (self.spec_queue().len() == 0),
    {
        self.queue.len() == 0
    }

    /// The Card at the front of the queue, or `None` when done.
    pub fn current(&self) -> (c: Option<&Card>)
        requires
            self.wf(),
        ensures
            c is None <==> self.spec_queue().len() == 0,
            c matches Some(card) ==> card.code@ == self.spec_queue()[0] && self.spec_deck().contains(
                *card,
            ),
    {
        if self.queue.len() == 0 {
            return None;
        }
        let code = &self.queue[0];
        proof {
            assert(strings_of(self.queue@)[0] == self.queue@[0]@);
            assert(has_code(self.deck@, self.queue@[0]@));
            let k = choose|k: int| 0 <= k < self.deck@.len() && self.deck@[k].code@ == self.queue@[0]@;
            assert(self.deck@.contains(self.deck@[k]));
        }
        self.deck.get(code.as_str())
    }

    /// The codes still to review, front = current Card.
    pub fn queue(&self) -> (q: &VecDeque<String>)
        ensures
            strings_of(q@) == self.spec_queue(),
    {
        &self.queue
    }

    /// The state as it stands (for derived Home-screen counts and for saving).
    pub fn state(&self) -> (s: &ReviewState)
        ensures
            *s == self.spec_state(),
    {
        &self.state
    }

    /// The day every grade in this session stamps.
    pub fn today(&self) -> (d: CivilDate)
        ensures
            d == self.spec_today(),
    {
        self.today
    }

    /// Cards in the queue when the session started.
    pub fn total(&self) -> (n: usize)
        ensures
            n == self.spec_total(),
    {
        self.total
    }

    /// Cards passed (and so out of the queue) so far.
    pub fn reviewed(&self) -> (n: usize)
        requires
            self.wf(),
        ensures
            n == self.spec_reviewed(),
            n <= self.spec_total(),
    {
        self.reviewed
    }

    /// What FSRS needs to grade the current Card, or `None` when done.
    pub fn fsrs_query(&self) -> (q: Option<FsrsQuery>)
        ensures
            q is None <==> self.spec_queue().len() == 0,
            q matches Some(query) ==> {
                let cards = self.spec_state().cards@;
                let front = self.spec_queue()[0];
                let prior = if cards.contains_key(front) {
                    Some(cards[front])
                } else {
                    None
                };
                &&& query.memory == (match prior {
                    Some(r) => Some(r.memory),
                    None => None::<fsrs::MemoryState>,
                })
                &&& query.days_elapsed as int == crate::scheduler::spec_days_elapsed(
                    prior,
                    self.spec_today(),
                )
            },
    {
        if self.queue.len() == 0 {
            return None;
        }
        let code = &self.queue[0];
        let prior = self.state.cards.get(code.as_str());
        Some(fsrs_query(prior, self.today))
    }

    /// Grade the current Card: take it off the front of the queue, advance its
    /// record with the FSRS outcomes `next` (computed from
    /// [`Session::fsrs_query`]) and store the record in the state. A first
    /// grade creates the record, stamped `introduced_on = today`, so it counts
    /// against today's new-Card cap from that moment. A pass exits the Card; an
    /// **Again** is held for [`Session::finish_grade`] to requeue once the
    /// caller has persisted the state. When `next` is an error, or the next
    /// due date is out of range, the Card has still left the queue and the
    /// state is unchanged.
    pub fn grade(&mut self, grade: Grade, next: Result<NextStates, String>) -> (r: Result<
        (),
        SessionError,
    >)
        requires
            old(self).wf(),
            next matches Ok(n) ==> (grade != Grade::Again ==> n.spec_for(grade).interval_days
                <= MAX_SPAN_DAYS),
        ensures
            final(self).wf(),
            final(self).spec_deck() == old(self).spec_deck(),
            final(self).spec_today() == old(self).spec_today(),
            final(self).spec_total() == old(self).spec_total(),
            old(self).spec_queue().len() == 0 ==> r == Err::<(), SessionError>(
                SessionError::EmptyQueue,
            ) && final(self).spec_queue() == old(self).spec_queue(),
            old(self).spec_queue().len() > 0 ==> final(self).spec_queue() == old(self).spec_queue().drop_first(),
            r is Err ==> final(self).spec_state() == old(self).spec_state() && final(self).spec_pending() is None && final(self).spec_reviewed() == old(self).spec_reviewed(),
            next matches Err(m) ==> r is Err && (old(self).spec_queue().len() > 0 ==> r == Err::<
                (),
                SessionError,
            >(SessionError::Fsrs(m))),
            r is Ok ==> {
                let front = old(self).spec_queue()[0];
                let cards = old(self).spec_state().cards@;
                let prior = if cards.contains_key(front) {
                    Some(cards[front])
                } else {
                    None
                };
                let rec = final(self).spec_state().cards@[front];
                let allowance = spec_new_allowance(old(self).spec_state(), old(self).spec_today());
                &&& old(self).spec_queue().len() > 0
                &&& next is Ok
                &&& final(self).spec_state().cards@ == cards.insert(front, rec)
                &&& final(self).spec_state().settings == old(self).spec_state().settings
                &&& final(self).spec_state().schema_version == old(self).spec_state().schema_version
                &&& record_follows(rec, prior, grade, old(self).spec_today(), next->Ok_0)
                &&& grade == Grade::Again ==> final(self).spec_pending() == Some(front)
                    && final(self).spec_reviewed() == old(self).spec_reviewed()
                &&& grade != Grade::Again ==> final(self).spec_pending() is None
                    && final(self).spec_reviewed() == old(self).spec_reviewed() + 1
                &&& spec_new_allowance(final(self).spec_state(), old(self).spec_today()) == if cards.contains_key(
                    front,
                ) {
                    allowance
                } else if allowance > 0 {
                    allowance - 1
                } else {
                    0
                }
            },
            next is Ok && old(self).spec_queue().len() > 0 && grade == Grade::Again ==> r is Ok,
            next is Ok && old(self).spec_queue().len() > 0 && in_date_range(
                day_number(old(self).spec_today()@) + pass_days(
                    next->Ok_0.spec_for(grade).interval_days,
                ),
            ) ==> r is Ok,
            next is Ok && old(self).spec_queue().len() > 0 && -9800 <= old(self).spec_today()@.0
                <= 9800 && next->Ok_0.spec_for(grade).interval_days <= 36500 ==> r is Ok,
    {
        proof {
            use_type_invariant(&self.state.cards);
        }
        self.pending = None;
        let code = match self.queue.pop_front() {
            Some(c) => c,
            None => return Err(SessionError::EmptyQueue),
        };
        proof {
            assert(strings_of(self.queue@) =~= strings_of(old(self).queue@).drop_first());
            assert forall|i: int| 0 <= i < strings_of(self.queue@).len() implies has_code(
                self.deck@,
                #[trigger] strings_of(self.queue@)[i],
            ) by {
                assert(strings_of(self.queue@)[i] == strings_of(old(self).queue@)[i + 1]);
            }
            assert(has_code(self.deck@, code@)) by {
                assert(old(self).queue@[0] == code);
                assert(strings_of(old(self).queue@)[0] == code@);
            }
            assert(!strings_of(self.queue@).contains(code@)) by {
                if strings_of(self.queue@).contains(code@) {
                    let j = choose|j: int|
                        0 <= j < strings_of(self.queue@).len() && strings_of(self.queue@)[j]
                            == code@;
                    assert(strings_of(old(self).queue@)[0] == strings_of(old(self).queue@)[j
                        + 1]);
                }
            }
        }
        let next = match next {
            Ok(n) => n,
            Err(m) => return Err(SessionError::Fsrs(m)),
        };
        let record = match next_record(self.state.cards.get(code.as_str()), grade, self.today, &next) {
            Ok(r) => r,
            Err(e) => return Err(SessionError::Schedule(e)),
        };
        let ghost front = code@;
        let again = grade.is_again();
        if again {
            self.state.cards.insert(code.clone(), record);
            self.pending = Some(code);
        } else {
            self.state.cards.insert(code, record);
            self.reviewed = self.reviewed + 1;
        }
        proof {
            assert(self.state.cards@[front] == record);
            use_type_invariant(&self.state.cards);
            lemma_allowance_after_grade(
                old(self).state,
                self.state,
                front,
                record,
                self.today,
            );
        }
        Ok(())
    }

    /// Requeue a just-graded **Again** at the back of the queue (after the
    /// caller persisted the graded state); a no-op after a pass.
    pub fn finish_grade(&mut self)
        requires
            old(self).wf(),
        ensures
            final(self).wf(),
            final(self).spec_state() == old(self).spec_state(),
            final(self).spec_deck() == old(self).spec_deck(),
            final(self).spec_today() == old(self).spec_today(),
            final(self).spec_total() == old(self).spec_total(),
            final(self).spec_reviewed() == old(self).spec_reviewed(),
            final(self).spec_pending() is None,
            final(self).spec_queue() == match old(self).spec_pending() {
                Some(p) => old(self).spec_queue().push(p),
                None => old(self).spec_queue(),
            },
    {
        match self.pending.take() {
            Some(code) => {
                let ghost before = self.queue@;
                self.queue.push_back(code);
                proof {
                    assert(self.queue@ == before.push(code));
                    assert(strings_of(self.queue@) =~= strings_of(before).push(code@));
                    assert forall|i: int| 0 <= i < strings_of(self.queue@).len() implies has_code(
                        self.deck@,
                        #[trigger] strings_of(self.queue@)[i],
                    ) by {
                        if i < before.len() {
                            assert(strings_of(self.queue@)[i] == strings_of(before)[i]);
                        }
                    }
                    assert forall|a: int, b: int|
                        0 <= a < b < strings_of(self.queue@).len() implies #[trigger] strings_of(
                        self.queue@,
                    )[a] != #[trigger] strings_of(self.queue@)[b] by {
                        if b == before.len() {
                            assert(strings_of(before)[a] == strings_of(self.queue@)[a]);
                        } else {
                            assert(strings_of(before)[a] == strings_of(self.queue@)[a]);
                            assert(strings_of(before)[b] == strings_of(self.queue@)[b]);
                        }
                    }
                }
            },
            None => {},
        }
    }
}

} // verus!
