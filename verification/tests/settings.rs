use world_learn::settings::{step_down, step_up, tap_clear, MAX_NEW_CARDS_PER_DAY};

#[test]
fn stepper_floors_at_zero() {
    assert_eq!(step_down(0), 0);
    assert_eq!(step_down(1), 0);
    assert_eq!(step_down(10), 9);
}

#[test]
fn stepper_caps_at_ninety_nine() {
    assert_eq!(MAX_NEW_CARDS_PER_DAY, 99);
    assert_eq!(step_up(10), 11);
    assert_eq!(step_up(98), 99);
    assert_eq!(step_up(99), 99);
    assert_eq!(step_up(500), 99);
}

#[test]
fn clear_needs_two_taps() {
    // The first tap only arms the confirm.
    let (armed, erase) = tap_clear(false);
    assert!(armed);
    assert!(!erase);
    // The second tap erases and disarms.
    let (armed, erase) = tap_clear(armed);
    assert!(!armed);
    assert!(erase);
    // A third tap arms again without erasing.
    assert_eq!(tap_clear(armed), (true, false));
}
