use f3note::session::autosave::{keeps_history, outcome_of, Job, Outcome, Schedule};

// Times are milliseconds on a monotonic clock.
const T0: u64 = 1_000_000;

#[test]
fn nothing_is_due_when_nothing_changed() {
    let s = Schedule::new(2, 7);
    assert!(!s.has_work());
    assert!(s.due(T0).is_empty());
}

#[test]
fn a_pause_makes_every_dirty_document_due() {
    let mut s = Schedule::new(2, 7);
    s.mark_dirty(1, T0);
    s.mark_dirty(2, T0);
    // Still typing: too early.
    assert!(s.due(T0 + 500).is_empty());
    // Paused for longer than the idle delay.
    assert_eq!(s.due(T0 + 3_000), vec![1, 2]);
}

#[test]
fn continuous_typing_still_gets_written_at_the_ceiling() {
    let mut s = Schedule::new(2, 7);
    s.mark_dirty(1, T0);
    // Someone typing without ever pausing: the idle rule never fires, so
    // the ceiling is the only thing protecting them.
    for second in 1..7 {
        let now = T0 + second * 1_000;
        s.mark_dirty(1, now);
        assert!(s.due(now).is_empty(), "too early at {second}s");
    }
    let now = T0 + 7_000;
    s.mark_dirty(1, now);
    assert_eq!(s.due(now), vec![1], "the ceiling must force a write");
}

#[test]
fn writing_clears_the_document_until_it_changes_again() {
    let mut s = Schedule::new(2, 7);
    s.mark_dirty(1, T0);
    s.clear(1);
    assert!(!s.has_work());
    assert!(s.due(T0 + 10_000).is_empty());

    s.mark_dirty(1, T0 + 10_000);
    assert_eq!(s.due(T0 + 13_000), vec![1]);
}

#[test]
fn the_ceiling_can_never_be_shorter_than_the_idle_delay() {
    // A config with the two the wrong way round must not produce a
    // schedule that writes before the user has stopped typing.
    let s = Schedule::new(30, 5);
    assert!(s.ceiling_seconds() >= s.idle_seconds());
}

#[test]
fn a_forgotten_document_stops_being_scheduled() {
    let mut s = Schedule::new(2, 7);
    s.mark_dirty(7, T0);
    s.forget(7);
    assert!(!s.is_dirty(7));
    assert!(s.due(T0 + 5_000).is_empty());
}

#[test]
fn due_documents_come_in_id_order_and_only_the_overdue_ones() {
    let mut s = Schedule::new(2, 7);
    s.mark_dirty(9, T0);
    s.mark_dirty(3, T0 + 4_000);
    s.mark_dirty(5, T0 + 6_000);
    // Typing continues on 5; only 9 has waited the ceiling.
    s.mark_dirty(5, T0 + 7_000);
    assert_eq!(s.due(T0 + 7_000), vec![9]);
    // A pause makes all of them due, in id order.
    assert_eq!(s.due(T0 + 9_000), vec![3, 5, 9]);
    assert!(s.is_dirty(3) && s.is_dirty(5) && s.is_dirty(9));
}

#[test]
fn outcomes_report_what_happened_to_the_mirror() {
    match outcome_of("k".to_string(), Ok(true)) {
        Outcome::Written { key } => assert_eq!(key, "k"),
        _ => panic!("expected Written"),
    }
    match outcome_of("k".to_string(), Ok(false)) {
        Outcome::Unchanged { key } => assert_eq!(key, "k"),
        _ => panic!("expected Unchanged"),
    }
    match outcome_of("k".to_string(), Err("disk full".to_string())) {
        Outcome::Failed { key, error } => {
            assert_eq!(key, "k");
            assert_eq!(error, "disk full");
        }
        _ => panic!("expected Failed"),
    }
    let job = Job { key: "k".to_string(), contents: b"x".to_vec(), keep_history: true, history_limit: 5 };
    assert!(keeps_history(&job, &Ok(true)));
    assert!(!keeps_history(&job, &Ok(false)));
    assert!(!keeps_history(&job, &Err("e".to_string())));
}

#[test]
fn what_is_due_follows_from_the_calls() {
    let mut s = Schedule::new(2, 7);
    s.mark_dirty(5, T0);
    s.mark_dirty(3, T0 + 1_000);
    s.mark_dirty(9, T0 + 1_000);
    s.clear(9);
    s.mark_dirty(5, T0 + 6_000);
    s.mark_dirty(9, T0 + 6_500);
    s.forget(3);
    // Still typing: only 5, first changed at T0, has waited the ceiling.
    assert_eq!(s.due(T0 + 7_000), vec![5]);
    // After a pause every pending document is due, in id order.
    assert_eq!(s.due(T0 + 8_500), vec![5, 9]);
}
