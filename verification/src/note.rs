use vstd::prelude::*;

verus! {

/// Ticks in one bar: four beats of 480 ticks.
pub const TICKS_PER_BAR: u64 = 1920;

/// Energy units in one unit of note energy.
///
/// A note's energy is `velocity / 127 * duration / 480`; this crate keeps it
/// exactly as `velocity * duration` units, of which `127 * 480` make one.
pub const UNITS_PER_ENERGY: u64 = 60960;

/// A single note event in the tensor field.
#[derive(Debug, Clone, Copy, PartialEq, Eq, Structural)]
pub struct NoteVector {
    pub pitch: u8,
    pub velocity: u8,
    pub duration_ticks: u32,
    pub onset_tick: u64,
    pub channel: u8,
}

impl NoteVector {
    /// The note's energy in energy units: velocity times duration.
    pub open spec fn units(self) -> nat {
        self.velocity as nat * self.duration_ticks as nat
    }

    /// The first tick after the note has ended.
    pub open spec fn end(self) -> int {
        self.onset_tick + self.duration_ticks
    }

    /// The note sounds at `tick`: its onset is at or before `tick`, its end after.
    pub open spec fn sounds_at(self, tick: int) -> bool {
        self.onset_tick <= tick && tick < self.end()
    }

    /// First tick of bar `bar`.
    pub open spec fn bar_start(bar: int) -> int {
        bar * TICKS_PER_BAR
    }

    /// The note overlaps bar `bar`: it starts before the bar ends and ends after it starts.
    pub open spec fn overlaps_bar(self, bar: int) -> bool {
        self.onset_tick < Self::bar_start(bar) + TICKS_PER_BAR
            && self.end() > Self::bar_start(bar)
    }

    /// The bar in which the note starts.
    pub open spec fn onset_bar(self) -> int {
        self.onset_tick as int / TICKS_PER_BAR as int
    }

    /// A note overlaps a bar exactly when it starts before the bar's last tick
    /// has passed and ends after the bar's first tick: notes that start in an
    /// earlier bar or run past the bar line count too.
    pub proof fn lemma_overlaps_bar_meaning(self, bar: int)
        ensures
            self.overlaps_bar(bar) <==> (self.onset_tick < (bar + 1) * 1920 && self.onset_tick
                + self.duration_ticks > bar * 1920),
    {
    }

    /// A note sounds at a tick exactly when the tick lies in
    /// `[onset, onset + duration)`, whatever bars that spans.
    pub proof fn lemma_sounds_at_meaning(self, tick: int)
        ensures
            self.sounds_at(tick) <==> (self.onset_tick <= tick && tick < self.onset_tick
                + self.duration_ticks),
    {
    }

    /// Convenience constructor.
    pub fn new(pitch: u8, velocity: u8, duration_ticks: u32, onset_tick: u64, channel: u8) -> (n: Self)
        ensures
            n == (NoteVector { pitch, velocity, duration_ticks, onset_tick, channel }),
    {
        NoteVector { pitch, velocity, duration_ticks, onset_tick, channel }
    }

    /// A rest-like note with zero energy.
    pub fn silence(onset_tick: u64, duration_ticks: u32, channel: u8) -> (n: Self)
        ensures
            n == (NoteVector { pitch: 0, velocity: 0, duration_ticks, onset_tick, channel }),
            n.units() == 0,
    {
        NoteVector { pitch: 0, velocity: 0, duration_ticks, onset_tick, channel }
    }

    /// Energy in energy units: higher velocity and longer duration give more.
    /// A note at velocity 127 lasting 480 ticks holds `UNITS_PER_ENERGY` units.
    pub fn energy_units(&self) -> (e: u64)
        ensures
            e == self.units(),
    {
        assert(self.velocity as nat * self.duration_ticks as nat <= 255 * 0xffff_ffff) by (nonlinear_arith)
            requires
                self.velocity <= 255,
                self.duration_ticks <= 0xffff_ffff,
        ;
        self.velocity as u64 * self.duration_ticks as u64
    }

    /// Whether the note sounds at `tick`.
    pub fn is_sounding_at(&self, tick: u64) -> (b: bool)
        ensures
            b == self.sounds_at(tick as int),
            b == (self.onset_tick <= tick && tick < self.onset_tick + self.duration_ticks),
    {
        self.onset_tick <= tick && tick - self.onset_tick < self.duration_ticks as u64
    }

    /// Whether the note overlaps bar `bar`.
    pub fn is_in_bar(&self, bar: usize) -> (b: bool)
        ensures
            b == self.overlaps_bar(bar as int),
            b == (self.onset_tick < (bar + 1) * 1920 && self.onset_tick + self.duration_ticks > bar
                * 1920),
    {
        let bar_start: u128 = bar as u128 * 1920;
        let bar_end: u128 = bar_start + 1920;
        let note_end: u128 = self.onset_tick as u128 + self.duration_ticks as u128;
        (self.onset_tick as u128) < bar_end && note_end > bar_start
    }
}

} // verus!
