use lau_tensor_midi::{NoteVector, TICKS_PER_BAR, UNITS_PER_ENERGY};

fn energy(n: &NoteVector) -> f64 {
    n.energy_units() as f64 / UNITS_PER_ENERGY as f64
}

#[test]
fn test_note_energy_zero() {
    let n = NoteVector::new(60, 0, 480, 0, 0);
    assert!((energy(&n)).abs() < 1e-10);
}

#[test]
fn test_note_energy_max() {
    let n = NoteVector::new(60, 127, 480, 0, 0);
    assert!((energy(&n) - 1.0).abs() < 1e-10);
}

#[test]
fn test_note_energy_half_velocity() {
    let n = NoteVector::new(60, 63, 480, 0, 0);
    let expected = 63.0 / 127.0;
    assert!((energy(&n) - expected).abs() < 1e-6);
}

#[test]
fn test_note_energy_double_duration() {
    let n = NoteVector::new(60, 127, 960, 0, 0);
    assert!((energy(&n) - 2.0).abs() < 1e-10);
}

#[test]
fn test_note_silence() {
    let s = NoteVector::silence(100, 480, 2);
    assert_eq!(s.onset_tick, 100);
    assert_eq!(s.velocity, 0);
    assert_eq!(energy(&s), 0.0);
}

#[test]
fn test_note_pitch_range() {
    let n1 = NoteVector::new(0, 64, 480, 0, 0);
    assert_eq!(n1.pitch, 0);
    let n2 = NoteVector::new(127, 64, 480, 0, 0);
    assert_eq!(n2.pitch, 127);
}

#[test]
fn note_new_keeps_every_field() {
    let n = NoteVector::new(64, 100, 240, 960, 3);
    assert_eq!(n.pitch, 64);
    assert_eq!(n.velocity, 100);
    assert_eq!(n.duration_ticks, 240);
    assert_eq!(n.onset_tick, 960);
    assert_eq!(n.channel, 3);
}

#[test]
fn silence_fields() {
    let s = NoteVector::silence(7, 30, 9);
    assert_eq!(s, NoteVector::new(0, 0, 30, 7, 9));
    assert_eq!(s.energy_units(), 0);
}

#[test]
fn energy_units_is_velocity_times_duration() {
    assert_eq!(NoteVector::new(60, 100, 480, 0, 0).energy_units(), 48_000);
    assert_eq!(NoteVector::new(60, 255, u32::MAX, 0, 0).energy_units(), 255 * u32::MAX as u64);
    assert_eq!(UNITS_PER_ENERGY, 127 * 480);
    assert_eq!(TICKS_PER_BAR, 4 * 480);
}

#[test]
fn sounding_window_is_half_open() {
    let n = NoteVector::new(60, 127, 480, 100, 0);
    assert!(!n.is_sounding_at(99));
    assert!(n.is_sounding_at(100));
    assert!(n.is_sounding_at(579));
    assert!(!n.is_sounding_at(580));
    let edge = NoteVector::new(60, 1, u32::MAX, u64::MAX - 5, 0);
    assert!(edge.is_sounding_at(u64::MAX));
}

#[test]
fn bar_overlap() {
    let n = NoteVector::new(60, 127, 480, 1800, 0);
    assert!(n.is_in_bar(0));
    assert!(n.is_in_bar(1));
    assert!(!n.is_in_bar(2));
    let m = NoteVector::new(60, 127, 480, 1920, 0);
    assert!(!m.is_in_bar(0));
    assert!(m.is_in_bar(1));
    let zero = NoteVector::new(60, 127, 0, 0, 0);
    assert!(!zero.is_in_bar(0));
    assert!(!NoteVector::new(60, 1, 1, 0, 0).is_in_bar(usize::MAX));
}
