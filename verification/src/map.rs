//! Highlighting on the world map.
//!
//! The map draws every Deck Entity once and highlights one by varying its
//! `fill` attribute — never by swapping SVG nodes. This module decides that
//! attribute; the regional-zoom geometry lives with the renderer.
use crate::deck::{codes_distinct, has_code, Card, Deck};
use vstd::prelude::*;
use vstd::string::StrSliceExecFns;

verus! {

/// `viewBox` covering the whole equirectangular world: x ∈ [-180, 180],
/// y ∈ [-90, 90].
pub const WORLD_VIEW_BOX: &'static str = "-180 -90 360 180";

/// Base fill for every non-highlighted Entity.
pub const BASE_FILL: &'static str = "#26323f";

/// Fill for the single highlighted Entity.
pub const HIGHLIGHT_FILL: &'static str = "#f5b301";

/// The fill an Entity with `code` gets when `highlighted` is the highlighted code.
pub open spec fn spec_fill_for(code: Seq<char>, highlighted: Seq<char>) -> Seq<char> {
    if code == highlighted {
        HIGHLIGHT_FILL@
    } else {
        BASE_FILL@
    }
}

/// The `fill` attribute for one Entity: the highlight colour when its `code`
/// is the highlighted one, the base colour otherwise. An unknown highlight
/// code leaves every Entity at [`BASE_FILL`].
pub fn fill_for(code: &str, highlighted: &str) -> (f: &'static str)
    ensures
        f@ == spec_fill_for(code@, highlighted@),
{
    if crate::text::str_eq(code, highlighted) {
        HIGHLIGHT_FILL
    } else {
        BASE_FILL
    }
}

/// A formatted number with the trailing zeros of its fraction removed, and the
/// point too when nothing is left after it (`"1.500"` → `"1.5"`,
/// `"2.000"` → `"2"`); a number without a point is left alone.
pub open spec fn spec_trim_fraction(s: Seq<char>) -> Seq<char>
    decreases s.len(),
{
    if s.len() > 0 && s.contains('.') && (s.last() == '0' || s.last() == '.') {
        spec_trim_fraction(s.drop_last())
    } else {
        s
    }
}

/// Trim a formatted SVG number: drop trailing zeros while the text has a
/// decimal point, then a dangling point, so attributes stay compact.
pub fn trim_fraction(s: &str) -> (t: &str)
    ensures
        t@ == spec_trim_fraction(s@),
{
    let n = s.unicode_len();
    // Position of the first decimal point, or `n` when there is none.
    let mut dot: usize = 0;
    while dot < n && s.get_char(dot) != '.'
        invariant
            n == s@.len(),
            dot <= n,
            forall|k: int| 0 <= k < dot ==> s@[k] != '.',
        decreases n - dot,
    {
        dot = dot + 1;
    }
    let mut cut: usize = n;
    assert(s@.take(n as int) =~= s@);
    while cut > dot && (s.get_char(cut - 1) == '0' || s.get_char(cut - 1) == '.')
        invariant
            n == s@.len(),
            dot <= cut <= n,
            forall|k: int| 0 <= k < dot ==> s@[k] != '.',
            dot < n ==> s@[dot as int] == '.',
            spec_trim_fraction(s@.take(cut as int)) == spec_trim_fraction(s@),
        decreases cut,
    {
        let ghost t = s@.take(cut as int);
        assert(t.contains('.')) by {
            assert(t[dot as int] == '.');
        }
        assert(t.drop_last() =~= s@.take(cut - 1));
        cut = cut - 1;
    }
    let r = s.substring_char(0, cut);
    proof {
        let t = s@.take(cut as int);
        assert(r@ =~= t);
        if t.len() > 0 && t.contains('.') && (t.last() == '0' || t.last() == '.') {
            let j = choose|j: int| 0 <= j < t.len() && t[j] == '.';
            assert(j >= dot);
            assert(cut > dot);
        }
    }
    r
}

/// How many of `cards` are drawn in the highlight colour.
pub open spec fn count_highlighted(cards: Seq<Card>, highlighted: Seq<char>) -> nat
    decreases cards.len(),
{
    if cards.len() == 0 {
        0
    } else {
        count_highlighted(cards.drop_last(), highlighted) + if spec_fill_for(
            cards.last().code@,
            highlighted,
        ) == HIGHLIGHT_FILL@ {
            1nat
        } else {
            0nat
        }
    }
}

proof fn lemma_count_highlighted(cards: Seq<Card>, highlighted: Seq<char>)
    requires
        codes_distinct(cards),
    ensures
        count_highlighted(cards, highlighted) == if has_code(cards, highlighted) {
            1nat
        } else {
            0nat
        },
    decreases cards.len(),
{
    reveal_strlit("#f5b301");
    reveal_strlit("#26323f");
    assert(HIGHLIGHT_FILL@ != BASE_FILL@) by {
        assert(HIGHLIGHT_FILL@[1] != BASE_FILL@[1]);
    }
    if cards.len() > 0 {
        let init = cards.drop_last();
        assert(codes_distinct(init));
        lemma_count_highlighted(init, highlighted);
        let last = cards.last();
        if last.code@ == highlighted {
            assert(!has_code(init, highlighted)) by {
                if has_code(init, highlighted) {
                    let i = choose|i: int| 0 <= i < init.len() && init[i].code@ == highlighted;
                    assert(cards[i].code@ != cards[cards.len() - 1].code@);
                }
            }
            assert(cards[cards.len() - 1].code@ == highlighted);
        } else {
            if has_code(cards, highlighted) {
                let i = choose|i: int| 0 <= i < cards.len() && cards[i].code@ == highlighted;
                assert(init[i].code@ == highlighted);
            }
            if has_code(init, highlighted) {
                let i = choose|i: int| 0 <= i < init.len() && init[i].code@ == highlighted;
                assert(cards[i].code@ == highlighted);
            }
        }
    }
}

/// Over a Deck, exactly one Entity is drawn in the highlight colour when the
/// highlighted code is a Deck member, and none when it is not.
pub proof fn lemma_exactly_one_highlighted(deck: Deck, highlighted: Seq<char>)
    requires
        deck.wf(),
    ensures
        count_highlighted(deck@, highlighted) == if has_code(deck@, highlighted) {
            1nat
        } else {
            0nat
        },
{
    lemma_count_highlighted(deck@, highlighted);
}

} // verus!
