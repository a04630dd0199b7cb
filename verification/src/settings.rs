//! The new-cards/day stepper on the Settings screen — the only interactive
//! control. Its floor is 0 (no new introductions); its ceiling keeps the value
//! a tidy two digits. Also the two-tap confirm that guards clearing all memory.
use vstd::prelude::*;

verus! {

/// Stepper ceiling.
pub const MAX_NEW_CARDS_PER_DAY: u32 = 99;

/// The value after a tap on `−`: one less, never below 0.
pub fn step_down(value: u32) -> (v: u32)
    ensures
        v == if value == 0 {
            0
        } else {
            value - 1
        },
{
    value.saturating_sub(1)
}

/// The value after a tap on `+`: one more, never above the ceiling.
pub fn step_up(value: u32) -> (v: u32)
    requires
        value < u32::MAX,
    ensures
        v == if value + 1 <= MAX_NEW_CARDS_PER_DAY {
            value + 1
        } else {
            MAX_NEW_CARDS_PER_DAY as int
        },
        v <= MAX_NEW_CARDS_PER_DAY,
{
    let next = value + 1;
    if next < MAX_NEW_CARDS_PER_DAY {
        next
    } else {
        MAX_NEW_CARDS_PER_DAY
    }
}

/// A tap on "Clear all memory", given whether an earlier tap armed the
/// confirm. Returns the new armed state and whether to erase now: the first
/// tap only arms the confirm, so a stray tap cannot wipe progress; the tap
/// after it erases and disarms.
pub fn tap_clear(armed: bool) -> (r: (bool, bool))
    ensures
        r == (if armed {
            (false, true)
        } else {
            (true, false)
        }),
{
    if armed {
        (false, true)
    } else {
        (true, false)
    }
}

} // verus!
