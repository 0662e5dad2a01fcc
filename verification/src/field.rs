use vstd::prelude::*;
use crate::note::{NoteVector, TICKS_PER_BAR};

verus! {

/// Which notes of the field an energy query takes in.
#[derive(Debug, Clone, Copy, PartialEq, Eq, Structural)]
pub enum NoteWindow {
    /// Every note.
    Everything,
    /// The notes sounding at a tick.
    SoundingAt(u64),
    /// The notes that overlap a bar.
    InBar(usize),
    /// The notes that overlap a bar and sit on a channel.
    InBarOnChannel(usize, u8),
}

impl NoteWindow {
    /// Whether the window takes in note `n`.
    pub open spec fn admits(self, n: NoteVector) -> bool {
        match self {
            NoteWindow::Everything => true,
            NoteWindow::SoundingAt(tick) => n.sounds_at(tick as int),
            NoteWindow::InBar(bar) => n.overlaps_bar(bar as int),
            NoteWindow::InBarOnChannel(bar, ch) => n.overlaps_bar(bar as int) && n.channel == ch,
        }
    }

    fn admits_note(&self, n: &NoteVector) -> (b: bool)
        ensures
            b == self.admits(*n),
    {
        match self {
            NoteWindow::Everything => true,
            NoteWindow::SoundingAt(tick) => n.is_sounding_at(*tick),
            NoteWindow::InBar(bar) => n.is_in_bar(*bar),
            NoteWindow::InBarOnChannel(bar, ch) => n.is_in_bar(*bar) && n.channel == *ch,
        }
    }
}

/// Energy units of the notes of `notes` that the window takes in.
pub open spec fn window_units(notes: Seq<NoteVector>, w: NoteWindow) -> nat
    decreases notes.len(),
{
    if notes.len() == 0 {
        0
    } else {
        window_units(notes.drop_last(), w) + if w.admits(notes.last()) {
            notes.last().units()
        } else {
            0
        }
    }
}

/// Total energy units of all notes.
pub open spec fn total_units(notes: Seq<NoteVector>) -> nat {
    window_units(notes, NoteWindow::Everything)
}

/// Number of notes of `notes` that start in bar `bar`.
pub open spec fn notes_in_bar(notes: Seq<NoteVector>, bar: int) -> nat
    decreases notes.len(),
{
    if notes.len() == 0 {
        0
    } else {
        notes_in_bar(notes.drop_last(), bar) + if notes.last().onset_bar() == bar {
            1nat
        } else {
            0nat
        }
    }
}

/// Number of notes of `notes` that start in one of the first `bars` bars.
pub open spec fn notes_before_bar(notes: Seq<NoteVector>, bars: int) -> nat
    decreases notes.len(),
{
    if notes.len() == 0 {
        0
    } else {
        notes_before_bar(notes.drop_last(), bars) + if notes.last().onset_bar() < bars {
            1nat
        } else {
            0nat
        }
    }
}

/// Sum of a sequence of counts.
pub open spec fn count_sum(counts: Seq<usize>) -> nat
    decreases counts.len(),
{
    if counts.len() == 0 {
        0
    } else {
        count_sum(counts.drop_last()) + counts.last() as nat
    }
}

/// Latest onset among the notes on channel `ch`, or 0 when there is none.
pub open spec fn last_onset(notes: Seq<NoteVector>, ch: u8) -> u64
    decreases notes.len(),
{
    if notes.len() == 0 {
        0
    } else {
        let before = last_onset(notes.drop_last(), ch);
        if notes.last().channel == ch && notes.last().onset_tick > before {
            notes.last().onset_tick
        } else {
            before
        }
    }
}

/// `last_onset` is the latest onset on the channel: no note on the channel
/// starts after it, and unless it is 0 some note on the channel starts there.
pub proof fn lemma_last_onset_is_latest(notes: Seq<NoteVector>, ch: u8)
    ensures
        forall|i: int|
            0 <= i < notes.len() && notes[i].channel == ch ==> #[trigger] notes[i].onset_tick
                <= last_onset(notes, ch),
        last_onset(notes, ch) == 0 || exists|i: int|
            0 <= i < notes.len() && notes[i].channel == ch && #[trigger] notes[i].onset_tick
                == last_onset(notes, ch),
    decreases notes.len(),
{
    if notes.len() > 0 {
        let p = notes.drop_last();
        lemma_last_onset_is_latest(p, ch);
        assert forall|i: int| 0 <= i < notes.len() && notes[i].channel == ch implies #[trigger] notes[i].onset_tick
            <= last_onset(notes, ch) by {
            if i < p.len() {
                assert(p[i] == notes[i]);
                assert(p[i].onset_tick <= last_onset(p, ch));
            }
        }
        if last_onset(notes, ch) != 0 && last_onset(notes, ch) == last_onset(p, ch) {
            let i = choose|i: int|
                0 <= i < p.len() && p[i].channel == ch && #[trigger] p[i].onset_tick == last_onset(p, ch);
            assert(notes[i] == p[i]);
        }
        if last_onset(notes, ch) != last_onset(p, ch) {
            assert(notes[notes.len() - 1].onset_tick == last_onset(notes, ch));
        }
    }
}

/// Total energy is the sum of velocity times duration over the notes: none
/// for an empty field, and one more note adds its own.
pub proof fn lemma_total_units_sums_notes(notes: Seq<NoteVector>, n: NoteVector)
    ensures
        total_units(Seq::<NoteVector>::empty()) == 0,
        total_units(notes.push(n)) == total_units(notes) + n.velocity * n.duration_ticks,
{
    assert(notes.push(n).drop_last() =~= notes);
}

proof fn lemma_window_is_filtered_total(
    notes: Seq<NoteVector>,
    w: NoteWindow,
    pred: spec_fn(NoteVector) -> bool,
)
    requires
        forall|n: NoteVector| #[trigger] w.admits(n) == pred(n),
    ensures
        window_units(notes, w) == total_units(notes.filter(pred)),
    decreases notes.len(),
{
    if notes.len() == 0 {
        reveal(Seq::filter);
        assert(notes.filter(pred) =~= Seq::<NoteVector>::empty());
    } else {
        let p = notes.drop_last();
        let n = notes.last();
        lemma_window_is_filtered_total(p, w, pred);
        assert(p.push(n) =~= notes);
        p.lemma_filter_push(n, pred);
        assert(p.filter(pred).push(n).drop_last() =~= p.filter(pred));
        assert(w.admits(n) == pred(n));
    }
}

/// The energy at a tick is the total energy of exactly the notes sounding at
/// that tick: those with `onset <= tick < onset + duration`, wherever they began.
pub proof fn lemma_energy_at_is_sounding_notes(notes: Seq<NoteVector>, tick: u64)
    ensures
        window_units(notes, NoteWindow::SoundingAt(tick)) == total_units(
            notes.filter(
                |n: NoteVector| n.onset_tick <= tick && tick < n.onset_tick + n.duration_ticks,
            ),
        ),
{
    lemma_window_is_filtered_total(
        notes,
        NoteWindow::SoundingAt(tick),
        |n: NoteVector| n.onset_tick <= tick && tick < n.onset_tick + n.duration_ticks,
    );
}

/// The energy in a bar is the total energy of exactly the notes whose span
/// meets the bar: starting before it ends and ending after it starts.
pub proof fn lemma_bar_energy_is_overlapping_notes(notes: Seq<NoteVector>, bar: usize)
    ensures
        window_units(notes, NoteWindow::InBar(bar)) == total_units(
            notes.filter(
                |n: NoteVector|
                    n.onset_tick < (bar + 1) * 1920 && n.onset_tick + n.duration_ticks > bar * 1920,
            ),
        ),
{
    lemma_window_is_filtered_total(
        notes,
        NoteWindow::InBar(bar),
        |n: NoteVector|
            n.onset_tick < (bar + 1) * 1920 && n.onset_tick + n.duration_ticks > bar * 1920,
    );
}

/// The energy on a channel in a bar is the total energy of exactly the notes
/// on that channel whose span meets the bar.
pub proof fn lemma_channel_energy_is_its_notes(notes: Seq<NoteVector>, bar: usize, ch: u8)
    ensures
        window_units(notes, NoteWindow::InBarOnChannel(bar, ch)) == total_units(
            notes.filter(
                |n: NoteVector|
                    n.onset_tick < (bar + 1) * 1920 && n.onset_tick + n.duration_ticks > bar * 1920
                        && n.channel == ch,
            ),
        ),
{
    lemma_window_is_filtered_total(
        notes,
        NoteWindow::InBarOnChannel(bar, ch),
        |n: NoteVector|
            n.onset_tick < (bar + 1) * 1920 && n.onset_tick + n.duration_ticks > bar * 1920
                && n.channel == ch,
    );
}

/// The histogram counts each note in the bar it starts in: bar `bar` holds
/// exactly the notes with `onset / 1920 == bar`, and the first `bars` bars
/// hold exactly the notes with `onset / 1920 < bars`.
pub proof fn lemma_histogram_counts_by_onset_bar(notes: Seq<NoteVector>, bar: int, bars: int)
    ensures
        notes_in_bar(notes, bar) == notes.filter(
            |n: NoteVector| n.onset_tick as int / 1920 == bar,
        ).len(),
        notes_before_bar(notes, bars) == notes.filter(
            |n: NoteVector| n.onset_tick as int / 1920 < bars,
        ).len(),
    decreases notes.len(),
{
    let f1 = |n: NoteVector| n.onset_tick as int / 1920 == bar;
    let f2 = |n: NoteVector| n.onset_tick as int / 1920 < bars;
    if notes.len() == 0 {
        reveal(Seq::filter);
        assert(notes.filter(f1) =~= Seq::<NoteVector>::empty());
        assert(notes.filter(f2) =~= Seq::<NoteVector>::empty());
    } else {
        let p = notes.drop_last();
        let n = notes.last();
        lemma_histogram_counts_by_onset_bar(p, bar, bars);
        assert(p.push(n) =~= notes);
        p.lemma_filter_len_push(f1, n);
        p.lemma_filter_len_push(f2, n);
    }
}

proof fn lemma_window_units_step(notes: Seq<NoteVector>, w: NoteWindow, i: int)
    requires
        0 <= i < notes.len(),
    ensures
        window_units(notes.take(i + 1), w) == window_units(notes.take(i), w) + if w.admits(
            notes[i],
        ) {
            notes[i].units()
        } else {
            0
        },
{
    assert(notes.take(i + 1).drop_last() =~= notes.take(i));
}

proof fn lemma_units_bound(n: NoteVector)
    ensures
        n.units() <= 0x100_0000_0000,
{
    assert(n.velocity as nat * n.duration_ticks as nat <= 255 * 0xffff_ffff) by (nonlinear_arith)
        requires
            n.velocity <= 255,
            n.duration_ticks <= 0xffff_ffff,
    ;
}

/// Sum of the energy units of the notes that `w` takes in.
pub fn units_in_window(notes: &Vec<NoteVector>, w: NoteWindow) -> (e: u128)
    ensures
        e == window_units(notes@, w),
        e <= notes.len() * 0x100_0000_0000,
{
    let mut acc: u128 = 0;
    let mut i: usize = 0;
    assert(notes@.take(0) =~= Seq::<NoteVector>::empty());
    while i < notes.len()
        invariant
            i <= notes.len(),
            acc == window_units(notes@.take(i as int), w),
            acc <= i * 0x100_0000_0000,
        decreases notes.len() - i,
    {
        let n = notes[i];
        proof {
            lemma_window_units_step(notes@, w, i as int);
            lemma_units_bound(n);
        }
        if w.admits_note(&n) {
            acc = acc + n.energy_units() as u128;
        }
        i = i + 1;
    }
    assert(notes@.take(notes.len() as int) =~= notes@);
    acc
}

/// Total energy of the field, in energy units (the conservation quantity).
pub fn total_energy_units(notes: &Vec<NoteVector>) -> (e: u128)
    ensures
        e == total_units(notes@),
        e <= notes.len() * 0x100_0000_0000,
{
    units_in_window(notes, NoteWindow::Everything)
}

/// Energy of the notes sounding at `tick`, in energy units.
pub fn energy_units_at(notes: &Vec<NoteVector>, tick: u64) -> (e: u128)
    ensures
        e == window_units(notes@, NoteWindow::SoundingAt(tick)),
        e == total_units(
            notes@.filter(
                |n: NoteVector| n.onset_tick <= tick && tick < n.onset_tick + n.duration_ticks,
            ),
        ),
{
    proof {
        lemma_energy_at_is_sounding_notes(notes@, tick);
    }
    units_in_window(notes, NoteWindow::SoundingAt(tick))
}

/// Energy of the notes overlapping bar `bar`, in energy units.
pub fn bar_energy_units(notes: &Vec<NoteVector>, bar: usize) -> (e: u128)
    ensures
        e == window_units(notes@, NoteWindow::InBar(bar)),
        e == total_units(
            notes@.filter(
                |n: NoteVector|
                    n.onset_tick < (bar + 1) * 1920 && n.onset_tick + n.duration_ticks > bar * 1920,
            ),
        ),
{
    proof {
        lemma_bar_energy_is_overlapping_notes(notes@, bar);
    }
    units_in_window(notes, NoteWindow::InBar(bar))
}

/// Counts of notes per bar, for the field's entropy.
pub struct BarHistogram {
    /// `counts[b]` notes start in bar `b`.
    pub counts: Vec<usize>,
    /// Notes that start within the counted bars.
    pub total: usize,
}

proof fn lemma_count_sum_update(counts: Seq<usize>, b: int, v: usize)
    requires
        0 <= b < counts.len(),
    ensures
        count_sum(counts.update(b, v)) + counts[b] == count_sum(counts) + v,
    decreases counts.len(),
{
    let u = counts.update(b, v);
    if b == counts.len() - 1 {
        assert(u.drop_last() =~= counts.drop_last());
    } else {
        assert(u.drop_last() =~= counts.drop_last().update(b, v));
        lemma_count_sum_update(counts.drop_last(), b, v);
    }
}

proof fn lemma_count_sum_zeros(counts: Seq<usize>)
    requires
        forall|b: int| 0 <= b < counts.len() ==> counts[b] == 0,
    ensures
        count_sum(counts) == 0,
    decreases counts.len(),
{
    if counts.len() > 0 {
        lemma_count_sum_zeros(counts.drop_last());
    }
}

/// How many notes start in each of the first `bars` bars, and how many in all of them.
pub fn bar_histogram(notes: &Vec<NoteVector>, bars: usize) -> (h: BarHistogram)
    ensures
        h.counts.len() == bars,
        forall|b: int| 0 <= b < bars ==> #[trigger] h.counts[b] == notes_in_bar(notes@, b),
        h.total == notes_before_bar(notes@, bars as int),
        count_sum(h.counts@) == h.total,
        forall|b: int|
            0 <= b < bars ==> #[trigger] h.counts[b] == notes@.filter(
                |n: NoteVector| n.onset_tick as int / 1920 == b,
            ).len(),
        h.total == notes@.filter(|n: NoteVector| n.onset_tick as int / 1920 < bars as int).len(),
{
    proof {
        assert forall|b: int| 0 <= b < bars implies notes_in_bar(notes@, b) == notes@.filter(
            |n: NoteVector| n.onset_tick as int / 1920 == b,
        ).len() by {
            lemma_histogram_counts_by_onset_bar(notes@, b, bars as int);
        }
        lemma_histogram_counts_by_onset_bar(notes@, 0, bars as int);
    }
    let mut counts: Vec<usize> = Vec::new();
    let mut k: usize = 0;
    while k < bars
        invariant
            k <= bars,
            counts.len() == k,
            forall|b: int| 0 <= b < k ==> counts[b] == 0,
        decreases bars - k,
    {
        counts.push(0);
        k = k + 1;
    }
    proof {
        lemma_count_sum_zeros(counts@);
        assert(notes@.take(0) =~= Seq::<NoteVector>::empty());
    }
    let mut total: usize = 0;
    let mut i: usize = 0;
    while i < notes.len()
        invariant
            i <= notes.len(),
            counts.len() == bars,
            forall|b: int| 0 <= b < bars ==> #[trigger] counts[b] == notes_in_bar(notes@.take(i as int), b),
            total == notes_before_bar(notes@.take(i as int), bars as int),
            count_sum(counts@) == total,
            total <= i,
            forall|b: int| 0 <= b < bars ==> #[trigger] counts[b] <= total,
        decreases notes.len() - i,
    {
        let n = notes[i];
        let ghost before = counts@;
        proof {
            assert(notes@.take(i + 1).drop_last() =~= notes@.take(i as int));
        }
        let bar_u64: u64 = n.onset_tick / TICKS_PER_BAR;
        if bar_u64 < bars as u64 {
            let bar: usize = bar_u64 as usize;
            let c = counts[bar];
            counts.set(bar, c + 1);
            total = total + 1;
            proof {
                lemma_count_sum_update(before, bar as int, (c + 1) as usize);
            }
        }
        i = i + 1;
    }
    proof {
        assert(notes@.take(notes.len() as int) =~= notes@);
    }
    BarHistogram { counts, total }
}

/// Latest onset of a note on channel `ch`, or 0 when the channel holds no note.
pub fn last_onset_on_channel(notes: &Vec<NoteVector>, ch: u8) -> (t: u64)
    ensures
        t == last_onset(notes@, ch),
        forall|i: int|
            0 <= i < notes.len() && notes@[i].channel == ch ==> #[trigger] notes@[i].onset_tick <= t,
        t == 0 || exists|i: int|
            0 <= i < notes.len() && notes@[i].channel == ch && #[trigger] notes@[i].onset_tick == t,
{
    proof {
        lemma_last_onset_is_latest(notes@, ch);
    }
    let mut best: u64 = 0;
    let mut i: usize = 0;
    assert(notes@.take(0) =~= Seq::<NoteVector>::empty());
    while i < notes.len()
        invariant
            i <= notes.len(),
            best == last_onset(notes@.take(i as int), ch),
        decreases notes.len() - i,
    {
        let n = notes[i];
        proof {
            assert(notes@.take(i + 1).drop_last() =~= notes@.take(i as int));
        }
        if n.channel == ch && n.onset_tick > best {
            best = n.onset_tick;
        }
        i = i + 1;
    }
    assert(notes@.take(notes.len() as int) =~= notes@);
    best
}

/// Position of the first key equal to `agent` in `keys`, the order in which
/// the agents are walked.
pub open spec fn first_position(keys: Seq<String>, agent: Seq<char>) -> Option<int>
    decreases keys.len(),
{
    if keys.len() == 0 {
        None
    } else {
        match first_position(keys.drop_last(), agent) {
            Some(i) => Some(i),
            None => if keys.last()@ == agent {
                Some(keys.len() - 1)
            } else {
                None
            },
        }
    }
}

/// The channel of `agent`: its position among `keys`, truncated to a byte,
/// or 0 for an agent that is not among them.
pub open spec fn channel_of(keys: Seq<String>, agent: Seq<char>) -> u8 {
    match first_position(keys, agent) {
        Some(i) => (i % 256) as u8,
        None => 0,
    }
}

/// Characterises `first_position`: the first index holding `agent`, or none.
pub proof fn lemma_first_position(keys: Seq<String>, agent: Seq<char>)
    ensures
        match first_position(keys, agent) {
            Some(i) => 0 <= i < keys.len() && keys[i]@ == agent && forall|j: int|
                0 <= j < i ==> #[trigger] keys[j]@ != agent,
            None => forall|j: int| 0 <= j < keys.len() ==> #[trigger] keys[j]@ != agent,
        },
    decreases keys.len(),
{
    if keys.len() > 0 {
        let rest = keys.drop_last();
        lemma_first_position(rest, agent);
        assert forall|j: int| 0 <= j < rest.len() implies #[trigger] rest[j] == keys[j] by {}
        match first_position(rest, agent) {
            Some(i) => {
                assert forall|j: int| 0 <= j < i implies #[trigger] keys[j]@ != agent by {
                    assert(rest[j] == keys[j]);
                }
            },
            None => {
                assert forall|j: int| 0 <= j < keys.len() - 1 implies #[trigger] keys[j]@ != agent by {
                    assert(rest[j] == keys[j]);
                }
            },
        }
    }
}

proof fn lemma_first_position_unique(keys: Seq<String>, agent: Seq<char>, i: int)
    requires
        0 <= i < keys.len(),
        keys[i]@ == agent,
        forall|j: int| 0 <= j < i ==> #[trigger] keys[j]@ != agent,
    ensures
        first_position(keys, agent) == Some(i),
{
    lemma_first_position(keys, agent);
    match first_position(keys, agent) {
        Some(p) => {
            if p < i {
                assert(keys[p]@ != agent);
            } else if p > i {
                assert(keys[i]@ != agent);
            }
        },
        None => {
            assert(keys[i]@ != agent);
        },
    }
}

/// With at most 256 agents, a listed agent's channel is below the number of agents.
pub proof fn lemma_channel_within_agents(keys: Seq<String>, agent: Seq<char>)
    requires
        first_position(keys, agent) is Some,
        keys.len() <= 256,
    ensures
        channel_of(keys, agent) < keys.len(),
{
    lemma_first_position(keys, agent);
}

/// With at most 256 agents, two different listed agents get different channels.
pub proof fn lemma_channels_distinct(keys: Seq<String>, a: Seq<char>, b: Seq<char>)
    requires
        first_position(keys, a) is Some,
        first_position(keys, b) is Some,
        a != b,
        keys.len() <= 256,
    ensures
        channel_of(keys, a) != channel_of(keys, b),
{
    lemma_first_position(keys, a);
    lemma_first_position(keys, b);
}

/// Position of `agent` among the agent keys, in the order given.
pub fn agent_position(keys: &Vec<String>, agent: &str) -> (p: Option<usize>)
    ensures
        match p {
            Some(i) => first_position(keys@, agent@) == Some(i as int),
            None => first_position(keys@, agent@) is None,
        },
        match p {
            Some(i) => i < keys.len() && keys@[i as int]@ == agent@ && forall|j: int|
                0 <= j < i ==> #[trigger] keys@[j]@ != agent@,
            None => forall|j: int| 0 <= j < keys.len() ==> #[trigger] keys@[j]@ != agent@,
        },
{
    let wanted: String = agent.to_owned();
    let mut i: usize = 0;
    while i < keys.len()
        invariant
            i <= keys.len(),
            wanted@ == agent@,
            forall|j: int| 0 <= j < i ==> #[trigger] keys@[j]@ != agent@,
        decreases keys.len() - i,
    {
        if keys[i] == wanted {
            proof {
                lemma_first_position_unique(keys@, agent@, i as int);
            }
            return Some(i);
        }
        i = i + 1;
    }
    proof {
        lemma_first_position(keys@, agent@);
        if first_position(keys@, agent@) is Some {
            let q = first_position(keys@, agent@)->0;
            assert(keys@[q]@ != agent@);
        }
    }
    None
}

/// Channel assigned to `agent`: its position among the keys as a byte, or 0
/// for an unknown agent.
pub fn agent_channel(keys: &Vec<String>, agent: &str) -> (c: u8)
    ensures
        c == channel_of(keys@, agent@),
{
    match agent_position(keys, agent) {
        Some(i) => (i % 256) as u8,
        None => 0,
    }
}

/// Whether notes on `channel` belong to `agent`: the agent is among the keys
/// and its position, as a byte, is `channel`.
pub fn channel_belongs_to_agent(keys: &Vec<String>, channel: u8, agent: &str) -> (b: bool)
    ensures
        b == (first_position(keys@, agent@) matches Some(i) && (i % 256) as u8 == channel),
{
    match agent_position(keys, agent) {
        Some(i) => (i % 256) as u8 == channel,
        None => false,
    }
}

/// Energy units of `agent`'s notes overlapping bar `bar`: those on its
/// channel; an agent not among the keys has none.
pub open spec fn agent_bar_units(notes: Seq<NoteVector>, keys: Seq<String>, agent: Seq<char>, bar: usize) -> nat {
    match first_position(keys, agent) {
        Some(_) => window_units(notes, NoteWindow::InBarOnChannel(bar, channel_of(keys, agent))),
        None => 0,
    }
}

/// Sum of the bar energies of the agents of `agents`.
pub open spec fn agents_bar_units(
    notes: Seq<NoteVector>,
    keys: Seq<String>,
    agents: Seq<Seq<char>>,
    bar: usize,
) -> nat
    decreases agents.len(),
{
    if agents.len() == 0 {
        0
    } else {
        agents_bar_units(notes, keys, agents.drop_last(), bar) + agent_bar_units(
            notes,
            keys,
            agents.last(),
            bar,
        )
    }
}

/// Sum of the bar energies on each channel of `cs`.
pub open spec fn channels_bar_units(notes: Seq<NoteVector>, bar: usize, cs: Seq<u8>) -> nat
    decreases cs.len(),
{
    if cs.len() == 0 {
        0
    } else {
        channels_bar_units(notes, bar, cs.drop_last()) + window_units(
            notes,
            NoteWindow::InBarOnChannel(bar, cs.last()),
        )
    }
}

/// How many entries of `cs` are `ch`.
pub open spec fn hits(cs: Seq<u8>, ch: u8) -> nat
    decreases cs.len(),
{
    if cs.len() == 0 {
        0
    } else {
        hits(cs.drop_last(), ch) + if cs.last() == ch {
            1nat
        } else {
            0nat
        }
    }
}

proof fn lemma_hits_absent(cs: Seq<u8>, ch: u8)
    requires
        !cs.contains(ch),
    ensures
        hits(cs, ch) == 0,
    decreases cs.len(),
{
    if cs.len() > 0 {
        assert(!cs.drop_last().contains(ch)) by {
            if cs.drop_last().contains(ch) {
                let i = choose|i: int| 0 <= i < cs.drop_last().len() && cs.drop_last()[i] == ch;
                assert(cs[i] == ch);
            }
        }
        lemma_hits_absent(cs.drop_last(), ch);
    }
}

proof fn lemma_hits_at_most_one(cs: Seq<u8>, ch: u8)
    requires
        cs.no_duplicates(),
    ensures
        hits(cs, ch) <= 1,
    decreases cs.len(),
{
    if cs.len() > 0 {
        let p = cs.drop_last();
        assert(p.no_duplicates()) by {
            assert forall|i: int, j: int| 0 <= i < p.len() && 0 <= j < p.len() && i != j implies p[i] != p[j] by {
                assert(p[i] == cs[i] && p[j] == cs[j]);
            }
        }
        lemma_hits_at_most_one(p, ch);
        if cs.last() == ch {
            assert(!p.contains(ch)) by {
                if p.contains(ch) {
                    let i = choose|i: int| 0 <= i < p.len() && p[i] == ch;
                    assert(cs[i] == cs[cs.len() - 1]);
                }
            }
            lemma_hits_absent(p, ch);
        }
    }
}

proof fn lemma_channels_bar_units_step(notes: Seq<NoteVector>, bar: usize, cs: Seq<u8>)
    requires
        notes.len() > 0,
    ensures
        channels_bar_units(notes, bar, cs) == channels_bar_units(notes.drop_last(), bar, cs) + hits(
            cs,
            notes.last().channel,
        ) * (if notes.last().overlaps_bar(bar as int) {
            notes.last().units()
        } else {
            0
        }),
    decreases cs.len(),
{
    if cs.len() > 0 {
        lemma_channels_bar_units_step(notes, bar, cs.drop_last());
        let x: int = if notes.last().overlaps_bar(bar as int) {
            notes.last().units() as int
        } else {
            0
        };
        let h: int = hits(cs.drop_last(), notes.last().channel) as int;
        let b: int = if cs.last() == notes.last().channel {
            1
        } else {
            0
        };
        assert(h * x + b * x == (h + b) * x) by (nonlinear_arith);
        assert(hits(cs, notes.last().channel) == h + b);
        let c = cs.last();
        assert(window_units(notes, NoteWindow::InBarOnChannel(bar, c)) == window_units(
            notes.drop_last(),
            NoteWindow::InBarOnChannel(bar, c),
        ) + b * x) by {
            if b == 1 {
                assert(1 * x == x);
            } else {
                assert(0 * x == 0);
            }
        }
    } else {
        let x: int = if notes.last().overlaps_bar(bar as int) {
            notes.last().units() as int
        } else {
            0
        };
        assert(0 * x == 0);
    }
}

/// An agent's energy in a bar is part of the bar's energy.
pub proof fn lemma_channel_within_bar(notes: Seq<NoteVector>, bar: usize, ch: u8)
    ensures
        window_units(notes, NoteWindow::InBarOnChannel(bar, ch)) <= window_units(
            notes,
            NoteWindow::InBar(bar),
        ),
    decreases notes.len(),
{
    if notes.len() > 0 {
        lemma_channel_within_bar(notes.drop_last(), bar, ch);
    }
}

/// Notes on distinct channels share out the bar: the bar energies of distinct
/// channels add up to at most the bar's energy.
pub proof fn lemma_channels_share_bar(notes: Seq<NoteVector>, bar: usize, cs: Seq<u8>)
    requires
        cs.no_duplicates(),
    ensures
        channels_bar_units(notes, bar, cs) <= window_units(notes, NoteWindow::InBar(bar)),
    decreases notes.len(),
{
    if notes.len() == 0 {
        assert(notes =~= Seq::<NoteVector>::empty());
        lemma_channels_empty(bar, cs);
    } else {
        lemma_channels_share_bar(notes.drop_last(), bar, cs);
        lemma_channels_bar_units_step(notes, bar, cs);
        lemma_hits_at_most_one(cs, notes.last().channel);
        let x: int = if notes.last().overlaps_bar(bar as int) {
            notes.last().units() as int
        } else {
            0
        };
        let h: int = hits(cs, notes.last().channel) as int;
        assert(h * x <= x) by (nonlinear_arith)
            requires
                0 <= h <= 1,
                x >= 0,
        ;
    }
}

proof fn lemma_channels_empty(bar: usize, cs: Seq<u8>)
    ensures
        channels_bar_units(Seq::<NoteVector>::empty(), bar, cs) == 0,
    decreases cs.len(),
{
    if cs.len() > 0 {
        lemma_channels_empty(bar, cs.drop_last());
    }
}

/// Each note goes to at most one agent: with at most 256 agents, the bar
/// energies of distinct listed agents add up to at most the bar's energy,
/// and each one alone is part of it.
pub proof fn lemma_agents_share_bar_energy(
    notes: Seq<NoteVector>,
    keys: Seq<String>,
    agents: Seq<Seq<char>>,
    bar: usize,
)
    requires
        keys.len() <= 256,
        agents.no_duplicates(),
        forall|i: int| 0 <= i < agents.len() ==> #[trigger] first_position(keys, agents[i]) is Some,
    ensures
        agents_bar_units(notes, keys, agents, bar) <= window_units(notes, NoteWindow::InBar(bar)),
        forall|i: int|
            0 <= i < agents.len() ==> #[trigger] agent_bar_units(notes, keys, agents[i], bar)
                <= window_units(notes, NoteWindow::InBar(bar)),
{
    let cs = agents.map_values(|a: Seq<char>| channel_of(keys, a));
    assert(cs.no_duplicates()) by {
        assert forall|i: int, j: int| 0 <= i < cs.len() && 0 <= j < cs.len() && i != j implies cs[i] != cs[j] by {
            assert(first_position(keys, agents[i]) is Some);
            assert(first_position(keys, agents[j]) is Some);
            lemma_channels_distinct(keys, agents[i], agents[j]);
        }
    }
    lemma_agents_as_channels(notes, keys, agents, bar);
    lemma_channels_share_bar(notes, bar, cs);
    assert forall|i: int| 0 <= i < agents.len() implies #[trigger] agent_bar_units(notes, keys, agents[i], bar)
        <= window_units(notes, NoteWindow::InBar(bar)) by {
        assert(first_position(keys, agents[i]) is Some);
        lemma_channel_within_bar(notes, bar, channel_of(keys, agents[i]));
    }
}

proof fn lemma_agents_as_channels(
    notes: Seq<NoteVector>,
    keys: Seq<String>,
    agents: Seq<Seq<char>>,
    bar: usize,
)
    requires
        forall|i: int| 0 <= i < agents.len() ==> #[trigger] first_position(keys, agents[i]) is Some,
    ensures
        agents_bar_units(notes, keys, agents, bar) == channels_bar_units(
            notes,
            bar,
            agents.map_values(|a: Seq<char>| channel_of(keys, a)),
        ),
    decreases agents.len(),
{
    if agents.len() > 0 {
        let p = agents.drop_last();
        assert forall|i: int| 0 <= i < p.len() implies #[trigger] first_position(keys, p[i]) is Some by {
            assert(p[i] == agents[i]);
        }
        lemma_agents_as_channels(notes, keys, p, bar);
        assert(agents.map_values(|a: Seq<char>| channel_of(keys, a)).drop_last() =~= p.map_values(
            |a: Seq<char>| channel_of(keys, a),
        ));
        assert(first_position(keys, agents[agents.len() - 1]) is Some);
    }
}

/// Energy, in energy units, of `agent`'s notes overlapping bar `bar`; the
/// agent's notes are those on its channel, and an unknown agent has none.
pub fn agent_energy_units(notes: &Vec<NoteVector>, keys: &Vec<String>, agent: &str, bar: usize) -> (e: u128)
    ensures
        e == agent_bar_units(notes@, keys@, agent@, bar),
        e == match first_position(keys@, agent@) {
            Some(i) => window_units(notes@, NoteWindow::InBarOnChannel(bar, (i % 256) as u8)),
            None => 0,
        },
{
    match agent_position(keys, agent) {
        Some(i) => units_in_window(notes, NoteWindow::InBarOnChannel(bar, (i % 256) as u8)),
        None => 0,
    }
}

} // verus!
