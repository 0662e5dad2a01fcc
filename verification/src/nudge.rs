use vstd::prelude::*;
use crate::note::TICKS_PER_BAR;

verus! {

/// How long a nudge stays in the field: four bars.
pub const NUDGE_MEMORY_TICKS: u64 = 7680;

/// Whether a nudge aimed at `target` reaches `agent`: it is aimed at that
/// agent, or at no one in particular.
pub fn nudge_reaches(target: &Option<String>, agent: &str) -> (b: bool)
    ensures
        b == match target {
            Some(t) => t@ == agent@,
            None => true,
        },
{
    match target {
        Some(t) => {
            let a: String = agent.to_owned();
            *t == a
        },
        None => true,
    }
}

/// Whether a nudge placed at `nudge_tick` has arrived by tick `now`.
pub fn nudge_is_due(nudge_tick: u64, now: u64) -> (b: bool)
    ensures
        b == (nudge_tick <= now),
{
    nudge_tick <= now
}

/// The oldest tick a nudge may carry and stay in the field at tick `now`:
/// four bars back, or 0 early on.
pub fn nudge_cutoff(now: u64) -> (c: u64)
    ensures
        c == if now >= NUDGE_MEMORY_TICKS {
            now - NUDGE_MEMORY_TICKS
        } else {
            0
        },
{
    now.saturating_sub(TICKS_PER_BAR * 4)
}

/// Whether a nudge placed at `nudge_tick` is kept at tick `now`: it is no
/// older than four bars.
pub fn nudge_is_recent(nudge_tick: u64, now: u64) -> (b: bool)
    ensures
        b == (nudge_tick + NUDGE_MEMORY_TICKS >= now),
{
    nudge_tick >= nudge_cutoff(now)
}

/// The field's clock one tick on.
pub fn advance_tick(tick: u64) -> (next: u64)
    requires
        tick < u64::MAX,
    ensures
        next == tick + 1,
{
    tick + 1
}

} // verus!
