use vstd::prelude::*;

verus! {

/// Multiplier of the hash that varies an agent's next onset.
pub const ONSET_HASH_FACTOR: u64 = 2654435761;

/// Multiplier applied to the current tick in the speak roll.
pub const SPEAK_HASH_CURRENT: u64 = 2246822519;

/// Multiplier applied to the last spoken tick in the speak roll.
pub const SPEAK_HASH_LAST: u64 = 3266489917;

/// `x * y` wrapped to 64 bits.
pub open spec fn wrapped_product(x: u64, y: u64) -> u64 {
    ((x as nat * y as nat) % 0x1_0000_0000_0000_0000) as u64
}

/// Whether a beat position is on the beat (even), where swing adds no offset;
/// odd positions are off-beats that swing late.
pub fn is_on_beat(beat_position: u64) -> (b: bool)
    ensures
        b == (beat_position % 2 == 0),
{
    beat_position.is_multiple_of(2)
}

/// Ticks in a bar of four beats: the base gap before an agent speaks again.
pub fn bar_interval(ticks_per_beat: u32) -> (t: u64)
    ensures
        t == 4 * ticks_per_beat,
{
    ticks_per_beat as u64 * 4
}

/// The gap, eight beats, after which an agent always speaks.
pub fn max_speak_gap(ticks_per_beat: u32) -> (t: u64)
    ensures
        t == 8 * ticks_per_beat,
{
    ticks_per_beat as u64 * 8
}

/// Deterministic stand-in for randomness in an agent's next onset:
/// a multiplicative hash of the tick, in thousandths.
pub fn onset_jitter_roll(current_tick: u64) -> (r: u64)
    ensures
        r == wrapped_product(current_tick, ONSET_HASH_FACTOR) % 1000,
        r < 1000,
{
    current_tick.wrapping_mul(ONSET_HASH_FACTOR) % 1000
}

/// Deterministic stand-in for randomness in the speak decision: a hash of
/// the current and last spoken ticks, in thousandths.
pub fn speak_roll(current_tick: u64, last_spoke_tick: u64) -> (r: u64)
    ensures
        r == (wrapped_product(current_tick, SPEAK_HASH_CURRENT) ^ wrapped_product(
            last_spoke_tick,
            SPEAK_HASH_LAST,
        )) % 1000,
        r < 1000,
{
    (current_tick.wrapping_mul(SPEAK_HASH_CURRENT) ^ last_spoke_tick.wrapping_mul(SPEAK_HASH_LAST))
        % 1000
}

/// Where the time since an agent last spoke falls against its gaps.
#[derive(Debug, Clone, Copy, PartialEq, Eq, Structural)]
pub enum SpeakGate {
    /// Less than the minimum gap has passed: the agent keeps quiet.
    TooSoon,
    /// The maximum gap has passed: the agent speaks.
    Overdue,
    /// In between: `elapsed` of the `span` ticks from the minimum to the
    /// maximum gap have passed, and chance decides.
    Deciding { elapsed: u64, span: u64 },
}

/// Ticks since `last`, or 0 when `last` is not before `current`.
pub open spec fn ticks_since(current: u64, last: u64) -> int {
    if current >= last {
        current - last
    } else {
        0
    }
}

/// The time since the last speech is counted from the last speech: added to
/// the last spoken tick it gives the current tick, and a last tick in the
/// future counts as no time at all.
pub proof fn lemma_ticks_since_counts_from_last(current: u64, last: u64)
    ensures
        current >= last ==> ticks_since(current, last) + last == current,
        current < last ==> ticks_since(current, last) == 0,
        0 <= ticks_since(current, last) <= current,
{
}

/// Places the time since the agent last spoke against its minimum and maximum gaps.
pub fn speak_gate(current_tick: u64, last_spoke_tick: u64, min_gap: u64, max_gap: u64) -> (g: SpeakGate)
    ensures
        ticks_since(current_tick, last_spoke_tick) < min_gap ==> g == SpeakGate::TooSoon,
        min_gap <= ticks_since(current_tick, last_spoke_tick) && ticks_since(
            current_tick,
            last_spoke_tick,
        ) >= max_gap ==> g == SpeakGate::Overdue,
        min_gap <= ticks_since(current_tick, last_spoke_tick) < max_gap ==> g
            == (SpeakGate::Deciding {
            elapsed: (ticks_since(current_tick, last_spoke_tick) - min_gap) as u64,
            span: (max_gap - min_gap) as u64,
        }),
        g matches SpeakGate::Deciding { elapsed, span } ==> elapsed < span,
        current_tick >= last_spoke_tick && current_tick - last_spoke_tick < min_gap ==> g
            == SpeakGate::TooSoon,
        current_tick >= last_spoke_tick && current_tick - last_spoke_tick >= min_gap
            && current_tick - last_spoke_tick >= max_gap ==> g == SpeakGate::Overdue,
        current_tick >= last_spoke_tick && min_gap <= current_tick - last_spoke_tick < max_gap
            ==> g == (SpeakGate::Deciding {
            elapsed: (current_tick - last_spoke_tick - min_gap) as u64,
            span: (max_gap - min_gap) as u64,
        }),
        current_tick < last_spoke_tick ==> g == if min_gap > 0 {
            SpeakGate::TooSoon
        } else if max_gap == 0 {
            SpeakGate::Overdue
        } else {
            SpeakGate::Deciding { elapsed: 0, span: max_gap }
        },
{
    let since = current_tick.saturating_sub(last_spoke_tick);
    if since < min_gap {
        SpeakGate::TooSoon
    } else if since >= max_gap {
        SpeakGate::Overdue
    } else {
        SpeakGate::Deciding { elapsed: since - min_gap, span: max_gap - min_gap }
    }
}

/// The tick at which an agent speaks next: `interval` ticks on, and at least one.
pub fn advance_onset(current_tick: u64, interval: u64) -> (t: u64)
    requires
        current_tick + if interval < 1 { 1 } else { interval } <= u64::MAX,
    ensures
        t == current_tick + if interval < 1 { 1 } else { interval },
        t > current_tick,
{
    current_tick + if interval < 1 { 1 } else { interval }
}

} // verus!
