//! The engine's integer steps, driven as the engine drives them: drafts are
//! computed from the pre-built cadences' parameters (with no nudges in play),
//! stored in the draft book and committed through the conservation gate.

use lau_tensor_midi::{
    advance_onset, advance_tick, agent_channel, bar_interval, commit_draft, draft_note_count,
    draft_notes, is_on_beat, nudge_is_recent, onset_jitter_roll, total_energy_units, DraftBook,
    NoteVector, TICKS_PER_BAR, UNITS_PER_ENERGY,
};

/// The parameters of a pre-built cadence that a draft depends on.
struct Cadence {
    id: &'static str,
    swing: f64,
    articulation: f64,
    energy_baseline: f64,
    variation: f64,
}

const CADENCES: [Cadence; 4] = [
    Cadence { id: "Architect", swing: 0.3, articulation: 0.7, energy_baseline: 0.6, variation: 0.4 },
    Cadence { id: "Implementer", swing: 0.1, articulation: 0.3, energy_baseline: 0.8, variation: 0.2 },
    Cadence { id: "Critic", swing: 0.5, articulation: 0.5, energy_baseline: 0.4, variation: 0.6 },
    Cadence { id: "Historian", swing: 0.7, articulation: 0.9, energy_baseline: 0.3, variation: 0.8 },
];

const TICKS_PER_BEAT: u32 = 480;

fn cadence(agent: &str) -> Option<&'static Cadence> {
    CADENCES.iter().find(|c| c.id == agent)
}

fn keys() -> Vec<String> {
    CADENCES.iter().map(|c| c.id.to_string()).collect()
}

fn next_onset(c: &Cadence, current_tick: u64, energy: f64) -> u64 {
    let base_interval = bar_interval(TICKS_PER_BEAT);
    let energy_factor = 1.0 - (energy * 0.6).min(0.9);
    let jitter = if c.variation > 0.0 {
        let hash = onset_jitter_roll(current_tick) as f64 / 1000.0;
        1.0 + (hash - 0.5) * c.variation * 0.4
    } else {
        1.0
    };
    let interval = (base_interval as f64 * energy_factor * jitter) as u64;
    advance_onset(current_tick, interval)
}

fn swing_offset(c: &Cadence, beat: u64) -> f64 {
    if is_on_beat(beat) {
        0.0
    } else {
        c.swing * (TICKS_PER_BEAT as f64 / 3.0)
    }
}

/// Computes `agent`'s draft at `tick` and stores it in `drafts`; an unknown
/// agent gets an empty draft and nothing is stored.
fn compute_draft(drafts: &mut DraftBook, agent: &str, tick: u64) -> Vec<NoteVector> {
    let c = match cadence(agent) {
        Some(c) => c,
        None => return Vec::new(),
    };
    let channel = agent_channel(&keys(), agent);
    let energy = c.energy_baseline.clamp(0.0, 1.0);
    let note_count = draft_note_count((energy * 8.0).ceil() as usize);
    let duration = (TICKS_PER_BEAT as f64 * c.articulation * 2.0).round() as u32;
    let velocity = (energy * 127.0).round() as u8;
    let mut onsets = Vec::new();
    let mut onset = next_onset(c, tick, energy);
    for i in 0..note_count {
        onsets.push(onset + swing_offset(c, i as u64) as u64);
        onset = next_onset(c, onset, energy);
    }
    let draft = draft_notes(tick as usize, channel, velocity, duration, &onsets);
    drafts.insert(agent, draft.clone());
    draft
}

fn budget_units(budget: f64) -> i128 {
    (budget * UNITS_PER_ENERGY as f64).floor() as i128
}

fn energy(notes: &Vec<NoteVector>) -> f64 {
    total_energy_units(notes) as f64 / UNITS_PER_ENERGY as f64
}

#[test]
fn test_engine_compute_draft_architect() {
    let mut drafts = DraftBook::new();
    let draft = compute_draft(&mut drafts, "Architect", 0);
    assert!(!draft.is_empty());
    assert!(drafts.contains_key("Architect"));
}

#[test]
fn test_engine_compute_draft_unknown_agent() {
    let mut drafts = DraftBook::new();
    let draft = compute_draft(&mut drafts, "Unknown", 0);
    assert!(draft.is_empty());
}

#[test]
fn test_engine_commit_draft_within_budget() {
    let mut notes: Vec<NoteVector> = Vec::new();
    let mut drafts = DraftBook::new();
    compute_draft(&mut drafts, "Architect", 0);
    let committed = commit_draft(&mut notes, &mut drafts, "Architect", budget_units(1000.0));
    assert!(committed);
    assert!(!drafts.contains_key("Architect"));
    assert!(!notes.is_empty());
}

#[test]
fn test_engine_commit_draft_exceeds_budget() {
    let mut notes: Vec<NoteVector> = Vec::new();
    let mut drafts = DraftBook::new();
    compute_draft(&mut drafts, "Architect", 0);
    let committed = commit_draft(&mut notes, &mut drafts, "Architect", budget_units(0.0));
    if !drafts.get("Architect").map_or(true, |d| d.is_empty()) {
        assert!(!committed);
    }
}

#[test]
fn test_engine_commit_nonexistent_draft() {
    let mut notes: Vec<NoteVector> = Vec::new();
    let mut drafts = DraftBook::new();
    assert!(!commit_draft(&mut notes, &mut drafts, "Nobody", budget_units(100.0)));
}

#[test]
fn test_engine_clear_drafts() {
    let mut drafts = DraftBook::new();
    compute_draft(&mut drafts, "Architect", 0);
    compute_draft(&mut drafts, "Critic", 0);
    assert_eq!(drafts.len(), 2);
    drafts.clear();
    assert!(drafts.is_empty());
}

#[test]
fn test_engine_tick_advances() {
    let initial: u64 = 0;
    let tick = advance_tick(initial);
    assert_eq!(tick, initial + 1);
}

#[test]
fn test_engine_tick_multiple() {
    let mut tick: u64 = 0;
    for _ in 0..100 {
        tick = advance_tick(tick);
    }
    assert_eq!(tick, 100);
}

#[test]
fn test_engine_tick_cleans_old_nudges() {
    let mut tick: u64 = 0;
    // One nudge placed at tick 0.
    let mut nudge_ticks: Vec<u64> = vec![0];
    for _ in 0..(TICKS_PER_BAR * 5) {
        tick = advance_tick(tick);
        nudge_ticks.retain(|&t| nudge_is_recent(t, tick));
    }
    assert!(nudge_ticks.is_empty());
}

#[test]
fn test_engine_current_energy() {
    let mut notes: Vec<NoteVector> = Vec::new();
    let mut drafts = DraftBook::new();
    assert!((energy(&notes)).abs() < 1e-10);
    compute_draft(&mut drafts, "Architect", 0);
    commit_draft(&mut notes, &mut drafts, "Architect", budget_units(100.0));
    assert!(energy(&notes) > 0.0);
}

#[test]
fn test_energy_conservation_invariant() {
    let mut notes: Vec<NoteVector> = Vec::new();
    let mut drafts = DraftBook::new();
    for agent in &["Architect", "Implementer", "Critic", "Historian"] {
        compute_draft(&mut drafts, agent, 0);
        commit_draft(&mut notes, &mut drafts, agent, budget_units(5.0));
    }
    assert!(energy(&notes) <= 5.0 + 1e-10);
}

#[test]
fn drafts_stay_on_the_scale_at_late_ticks() {
    let mut drafts = DraftBook::new();
    for tick in [0u64, 94, 110, 960, 100_000] {
        for c in CADENCES.iter() {
            for n in compute_draft(&mut drafts, c.id, tick) {
                assert!(n.pitch <= 127);
                assert!([0, 2, 4, 7, 9].contains(&(n.pitch % 12)));
            }
        }
    }
}

#[test]
fn drafts_are_deterministic() {
    let mut a = DraftBook::new();
    let mut b = DraftBook::new();
    let first = compute_draft(&mut a, "Critic", 960);
    let second = compute_draft(&mut b, "Critic", 960);
    assert_eq!(first, second);
    compute_draft(&mut a, "Critic", 960);
    assert_eq!(a.get("Critic"), b.get("Critic"));
    assert_eq!(a.len(), 1);
}
