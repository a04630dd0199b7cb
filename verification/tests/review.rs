use world_learn::review::{Grade, QueuePosition};
use world_learn::scheduler;

#[test]
fn grades_are_the_four_fsrs_labels_in_order() {
    let labels: Vec<&str> = Grade::all().iter().map(|g| g.label()).collect();
    assert_eq!(labels, ["Again", "Hard", "Good", "Easy"]);
}

#[test]
fn grade_colours_are_red_orange_green_blue() {
    assert_eq!(Grade::Again.bg(), "bg-again");
    assert_eq!(Grade::Hard.bg(), "bg-hard");
    assert_eq!(Grade::Good.bg(), "bg-good");
    assert_eq!(Grade::Easy.bg(), "bg-easy");
}

#[test]
fn each_button_grade_maps_to_its_scheduler_grade() {
    assert_eq!(
        scheduler::Grade::from(Grade::Again),
        scheduler::Grade::Again
    );
    assert_eq!(scheduler::Grade::from(Grade::Hard), scheduler::Grade::Hard);
    assert_eq!(scheduler::Grade::from(Grade::Good), scheduler::Grade::Good);
    assert_eq!(scheduler::Grade::from(Grade::Easy), scheduler::Grade::Easy);
}

#[test]
fn queue_position_drives_the_status_strip() {
    let start = QueuePosition { index: 0, total: 11 };
    assert_eq!(start.left(), 11);
    assert_eq!(start.percent(), 0);
    assert_eq!(start.counter(), "1/11");

    let mid = QueuePosition { index: 5, total: 11 };
    assert_eq!(mid.left(), 6);
    assert_eq!(mid.percent(), 45); // 5/11 → 45%
    assert_eq!(mid.counter(), "6/11");

    let last = QueuePosition { index: 10, total: 11 };
    assert_eq!(last.left(), 1);
    assert_eq!(last.counter(), "11/11");
}

#[test]
fn empty_session_never_divides_by_zero() {
    let empty = QueuePosition { index: 0, total: 0 };
    assert_eq!(empty.left(), 0);
    assert_eq!(empty.percent(), 0);
}

#[test]
fn overshot_index_leaves_nothing_left() {
    let past = QueuePosition { index: 12, total: 11 };
    assert_eq!(past.left(), 0);
    assert_eq!(past.counter(), "13/11");
    assert_eq!(QueuePosition { index: 11, total: 11 }.percent(), 100);
    assert_eq!(QueuePosition { index: 99, total: 1000 }.counter(), "100/1000");
}
