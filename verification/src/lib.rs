//! Tensor field MIDI engine for reactive improvisation: the integer core.
//!
//! A conversation is a field of notes laid out over bars and agents. This
//! crate holds the parts of the engine that work on whole numbers: note
//! identity and energy (kept exactly, in energy units), the note field and
//! its per-tick, per-bar and per-agent energy, the bar histogram behind the
//! entropy measure, the deterministic rhythm decisions of a cadence, the
//! pentatonic draft builder, the book of pending drafts, and the commit gate
//! that keeps the committed energy within the conservation budget.
pub mod id;
pub mod note;
pub mod field;
pub mod cadence;
pub mod draft;
pub mod conservation;
pub mod nudge;

pub use id::TensorMidiId;
pub use note::{NoteVector, TICKS_PER_BAR, UNITS_PER_ENERGY};
pub use field::{BarHistogram, NoteWindow, units_in_window, total_energy_units, energy_units_at, bar_energy_units, bar_histogram, last_onset_on_channel, agent_position, agent_channel, channel_belongs_to_agent, agent_energy_units};
pub use cadence::{SpeakGate, is_on_beat, bar_interval, max_speak_gap, onset_jitter_roll, speak_roll, speak_gate, advance_onset, ONSET_HASH_FACTOR, SPEAK_HASH_CURRENT, SPEAK_HASH_LAST};
pub use draft::{DraftBook, pentatonic_pitch, draft_note_count, draft_notes};
pub use conservation::commit_draft;
pub use nudge::{NUDGE_MEMORY_TICKS, nudge_reaches, nudge_is_due, nudge_cutoff, nudge_is_recent, advance_tick};
