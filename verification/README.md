# World Learn — verified core

A flashcard app for learning where every country is: a regional-zoom map
highlights one country, the learner recalls its name, reveals it, and grades
themselves Again / Hard / Good / Easy. FSRS schedules each review, and new
countries are introduced big→obscure at a configurable daily cap.

## Layout

- `src/` — the library, verified with Verus:
  - `date.rs` — calendar dates and their day numbers; day arithmetic through
    `jiff`.
  - `text.rs` — byte-wise string order and equality.
  - `deck.rs` — the Deck in introduction order, indexed by code.
  - `store.rs` — the persisted review-state document, its schema check, and
    where the file lives.
  - `scheduler.rs` — grades, elapsed days, and the next record after a grade.
  - `session.rs` — status, due set, new backlog, daily allowance, the session
    queue, and the review session itself.
  - `map.rs` — which Entity the map highlights.
  - `review.rs`, `settings.rs` — the Review status strip and grade buttons, and
    the new-cards/day stepper and the two-tap clear.
- `app/` — the Dioxus app around the library: screens, file I/O, the
  geometry asset, the FSRS model (floating point), map framing, logging.
- `tests/` — tests of the library.
