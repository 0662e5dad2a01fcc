use lau_tensor_midi::{
    nudge_cutoff, nudge_is_due, nudge_is_recent, nudge_reaches, NUDGE_MEMORY_TICKS,
    TICKS_PER_BAR,
};

#[test]
fn nudge_reach() {
    assert!(nudge_reaches(&None, "Architect"));
    assert!(nudge_reaches(&Some("Architect".to_string()), "Architect"));
    assert!(!nudge_reaches(&Some("Critic".to_string()), "Architect"));
}

#[test]
fn nudge_due() {
    assert!(nudge_is_due(0, 0));
    assert!(nudge_is_due(5, 6));
    assert!(!nudge_is_due(7, 6));
}

#[test]
fn nudges_are_kept_for_four_bars() {
    assert_eq!(NUDGE_MEMORY_TICKS, 4 * TICKS_PER_BAR);
    assert_eq!(nudge_cutoff(100), 0);
    assert_eq!(nudge_cutoff(10_000), 10_000 - 7680);
    assert!(nudge_is_recent(0, 7680));
    assert!(!nudge_is_recent(0, 7681));
    assert!(nudge_is_recent(2320, 10_000));
    assert!(!nudge_is_recent(2319, 10_000));
}
