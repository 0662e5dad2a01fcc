use vstd::prelude::*;
use crate::note::NoteVector;

verus! {

/// Semitone offset of a degree of the five-note scale C D E G A.
pub open spec fn pentatonic_offset(degree: int) -> int {
    if degree == 0 {
        0
    } else if degree == 1 {
        2
    } else if degree == 2 {
        4
    } else if degree == 3 {
        7
    } else {
        9
    }
}

/// Pitch of the `step`-th note of a draft walk up the pentatonic scale from
/// C4 (60): one degree per step and one octave up per five steps, held at
/// 127, the top of the MIDI range.
pub open spec fn step_pitch(step: int) -> int {
    let raw = 60 + pentatonic_offset(step % 5) + 12 * (step / 5);
    if raw < 127 {
        raw
    } else {
        127
    }
}

/// Every step from `base` up to `base + count - 1` fits a machine word.
pub open spec fn steps_fit(base: int, count: int) -> bool {
    count == 0 || base + count - 1 <= usize::MAX
}

/// Whether `pitch` is one of C, D, E, G, A in some octave.
pub open spec fn in_pentatonic_scale(pitch: int) -> bool {
    let class = pitch % 12;
    class == 0 || class == 2 || class == 4 || class == 7 || class == 9
}

/// Every draft pitch lies on the five-note scale C D E G A and in 60..=127.
pub proof fn lemma_step_pitch_in_scale(step: int)
    requires
        step >= 0,
    ensures
        in_pentatonic_scale(step_pitch(step)),
        60 <= step_pitch(step) <= 127,
{
    let q = step / 5;
    let d = step % 5;
    assert(q >= 0 && 0 <= d < 5) by (nonlinear_arith)
        requires
            step >= 0,
            q == step / 5,
            d == step % 5,
    ;
    let raw = 60 + pentatonic_offset(d) + 12 * q;
    assert(raw % 12 == pentatonic_offset(d)) by (nonlinear_arith)
        requires
            raw == 60 + pentatonic_offset(d) + 12 * q,
            0 <= pentatonic_offset(d) < 12,
            q >= 0,
    ;
    assert(127int % 12 == 7);
}

/// Velocity of a drafted note: a velocity of 0 becomes 1.
pub open spec fn audible(velocity: u8) -> u8 {
    if velocity == 0 {
        1
    } else {
        velocity
    }
}

/// Duration of a drafted note: at least one tick.
pub open spec fn at_least_one_tick(duration: u32) -> u32 {
    if duration < 1 {
        1
    } else {
        duration
    }
}

fn pentatonic_offset_of(degree: usize) -> (o: u8)
    requires
        degree < 5,
    ensures
        o == pentatonic_offset(degree as int),
{
    if degree == 0 {
        0
    } else if degree == 1 {
        2
    } else if degree == 2 {
        4
    } else if degree == 3 {
        7
    } else {
        9
    }
}

/// The pentatonic pitch of draft step `step`, rooted at C4; always on the
/// scale C D E G A and in 60..=127.
pub fn pentatonic_pitch(step: usize) -> (p: u8)
    ensures
        p == step_pitch(step as int),
        60 <= p <= 127,
        in_pentatonic_scale(p as int),
{
    proof {
        lemma_step_pitch_in_scale(step as int);
    }
    let degree: usize = step % 5;
    let octaves: usize = step / 5;
    if octaves >= 6 {
        // Six octaves up is already past 127: the pitch is held at the top.
        return 127;
    }
    let pitch: u8 = 60 + pentatonic_offset_of(degree) + 12 * (octaves as u8);
    if pitch < 127 {
        pitch
    } else {
        127
    }
}

/// Number of notes in a draft: the raw count held to 1..=16.
pub fn draft_note_count(raw: usize) -> (n: usize)
    ensures
        n == if raw < 1 {
            1
        } else if raw > 16 {
            16
        } else {
            raw
        },
        1 <= n <= 16,
{
    if raw < 1 {
        1
    } else if raw > 16 {
        16
    } else {
        raw
    }
}

/// The notes of a draft: note `i` starts at `onsets[i]`, takes the
/// pentatonic pitch of step `first_step + i`, and carries the draft's
/// velocity (at least 1), duration (at least one tick) and channel. Every
/// pitch is on the scale C D E G A and in 60..=127.
pub fn draft_notes(first_step: usize, channel: u8, velocity: u8, duration_ticks: u32, onsets: &Vec<u64>) -> (draft: Vec<NoteVector>)
    requires
        steps_fit(first_step as int, onsets.len() as int),
    ensures
        draft.len() == onsets.len(),
        forall|i: int|
            0 <= i < onsets.len() ==> #[trigger] draft[i] == (NoteVector {
                pitch: step_pitch(first_step + i) as u8,
                velocity: audible(velocity),
                duration_ticks: at_least_one_tick(duration_ticks),
                onset_tick: onsets[i],
                channel,
            }),
        forall|i: int|
            0 <= i < draft.len() ==> 60 <= #[trigger] draft[i].pitch <= 127 && in_pentatonic_scale(
                draft[i].pitch as int,
            ),
{
    let v: u8 = if velocity == 0 { 1 } else { velocity };
    let d: u32 = if duration_ticks < 1 { 1 } else { duration_ticks };
    let mut draft: Vec<NoteVector> = Vec::new();
    let mut i: usize = 0;
    while i < onsets.len()
        invariant
            i <= onsets.len(),
            steps_fit(first_step as int, onsets.len() as int),
            v == audible(velocity),
            d == at_least_one_tick(duration_ticks),
            draft.len() == i,
            forall|j: int|
                0 <= j < i ==> #[trigger] draft[j] == (NoteVector {
                    pitch: step_pitch(first_step + j) as u8,
                    velocity: audible(velocity),
                    duration_ticks: at_least_one_tick(duration_ticks),
                    onset_tick: onsets[j],
                    channel,
                }),
            forall|j: int|
                0 <= j < i ==> 60 <= #[trigger] draft[j].pitch <= 127 && in_pentatonic_scale(
                    draft[j].pitch as int,
                ),
        decreases onsets.len() - i,
    {
        let step: usize = first_step + i;
        let pitch = pentatonic_pitch(step);
        draft.push(NoteVector { pitch, velocity: v, duration_ticks: d, onset_tick: onsets[i], channel });
        i = i + 1;
    }
    draft
}

/// The drafts pending commit, one per agent.
#[derive(Debug)]
pub struct DraftBook {
    entries: Vec<(String, Vec<NoteVector>)>,
}

impl DraftBook {
    spec fn key(self, i: int) -> Seq<char> {
        self.entries@[i].0@
    }

    #[verifier::type_invariant]
    spec fn keys_distinct(self) -> bool {
        distinct_keys(self.entries@)
    }

    spec fn has_key(self, k: Seq<char>) -> bool {
        listed_in(self.entries@, k)
    }

    spec fn index_of(self, k: Seq<char>) -> int {
        index_in(self.entries@, k)
    }
}

spec fn listed_in(s: Seq<(String, Vec<NoteVector>)>, k: Seq<char>) -> bool {
    exists|i: int| 0 <= i < s.len() && s[i].0@ == k
}

spec fn index_in(s: Seq<(String, Vec<NoteVector>)>, k: Seq<char>) -> int {
    choose|i: int| 0 <= i < s.len() && s[i].0@ == k
}

spec fn map_of(s: Seq<(String, Vec<NoteVector>)>) -> Map<Seq<char>, Seq<NoteVector>> {
    Map::new(|k: Seq<char>| listed_in(s, k), |k: Seq<char>| s[index_in(s, k)].1@)
}

spec fn distinct_keys(s: Seq<(String, Vec<NoteVector>)>) -> bool {
    forall|i: int, j: int| 0 <= i < s.len() && 0 <= j < s.len() && i != j ==> s[i].0@ != s[j].0@
}

/// Total number of notes across the drafts of a book.
pub open spec fn pending_of(m: Map<Seq<char>, Seq<NoteVector>>) -> nat
    decreases m.dom().len(),
    when m.dom().finite()
{
    if m.dom().len() == 0 {
        0
    } else {
        let k = m.dom().choose();
        m[k].len() + pending_of(m.remove(k))
    }
}

/// The notes of a book add up one draft at a time, whichever draft comes first.
pub proof fn lemma_pending_of_remove(m: Map<Seq<char>, Seq<NoteVector>>, k: Seq<char>)
    requires
        m.dom().finite(),
        m.dom().contains(k),
    ensures
        pending_of(m) == m[k].len() + pending_of(m.remove(k)),
    decreases m.dom().len(),
{
    assert(m.dom().len() != 0);
    let c = m.dom().choose();
    if c != k {
        lemma_pending_of_remove(m.remove(c), k);
        lemma_pending_of_remove(m.remove(k), c);
        assert(m.remove(c).remove(k) =~= m.remove(k).remove(c));
    }
}

/// Reading a book after a write: the agent written holds the new draft, and
/// every other agent keeps its own.
pub proof fn lemma_book_read_after_write(
    book: Map<Seq<char>, Seq<NoteVector>>,
    agent: Seq<char>,
    draft: Seq<NoteVector>,
    other: Seq<char>,
)
    ensures
        book.insert(agent, draft).dom().contains(agent),
        book.insert(agent, draft)[agent] == draft,
        other != agent ==> (book.insert(agent, draft).dom().contains(other) == book.dom().contains(
            other,
        )),
        other != agent && book.dom().contains(other) ==> book.insert(agent, draft)[other]
            == book[other],
{
}

/// Writing a draft replaces the agent's earlier draft in the count of
/// pending notes: the other drafts' notes plus the new draft's.
pub proof fn lemma_pending_after_insert(
    book: Map<Seq<char>, Seq<NoteVector>>,
    agent: Seq<char>,
    draft: Seq<NoteVector>,
)
    requires
        book.dom().finite(),
    ensures
        pending_of(book.insert(agent, draft)) == pending_of(book.remove(agent)) + draft.len(),
{
    let m = book.insert(agent, draft);
    lemma_pending_of_remove(m, agent);
    assert(m.remove(agent) =~= book.remove(agent));
}

/// An empty book has no pending notes.
pub proof fn lemma_pending_empty()
    ensures
        pending_of(Map::<Seq<char>, Seq<NoteVector>>::empty()) == 0,
{
}

proof fn lemma_map_of_push(s: Seq<(String, Vec<NoteVector>)>, e: (String, Vec<NoteVector>))
    requires
        distinct_keys(s.push(e)),
    ensures
        !map_of(s).dom().contains(e.0@),
        map_of(s.push(e)) == map_of(s).insert(e.0@, e.1@),
        map_of(s).dom().finite(),
        map_of(s).dom().len() == s.len(),
{
    let t = s.push(e);
    let n = s.len() as int;
    assert(t[n] == e);
    if listed_in(s, e.0@) {
        let i = index_in(s, e.0@);
        assert(t[i] == s[i]);
    }
    assert forall|k: Seq<char>| #[trigger] map_of(t).dom().contains(k) <==> map_of(s).insert(e.0@, e.1@).dom().contains(k) by {
        if listed_in(t, k) {
            let i = index_in(t, k);
            if i < n {
                assert(t[i] == s[i]);
            }
        }
        if listed_in(s, k) {
            let i = index_in(s, k);
            assert(t[i] == s[i]);
        }
    }
    assert forall|k: Seq<char>| #[trigger] map_of(t).dom().contains(k) implies map_of(t)[k] == map_of(s).insert(e.0@, e.1@)[k] by {
        let i = index_in(t, k);
        if k == e.0@ {
            assert(t[i].0@ == t[n].0@);
        } else {
            let j = index_in(s, k);
            assert(t[j] == s[j]);
            assert(t[i].0@ == t[j].0@);
        }
    }
    assert(map_of(t) =~= map_of(s).insert(e.0@, e.1@));
    assert(distinct_keys(s)) by {
        assert forall|i: int, j: int| 0 <= i < s.len() && 0 <= j < s.len() && i != j implies s[i].0@ != s[j].0@ by {
            assert(t[i] == s[i] && t[j] == s[j]);
        }
    }
    lemma_map_of_len(s);
}

proof fn lemma_map_of_len(s: Seq<(String, Vec<NoteVector>)>)
    requires
        distinct_keys(s),
    ensures
        map_of(s).dom().finite(),
        map_of(s).dom().len() == s.len(),
{
    let ks = s.map_values(|e: (String, Vec<NoteVector>)| e.0@);
    assert forall|k: Seq<char>| map_of(s).dom().contains(k) <==> ks.to_set().contains(k) by {
        if map_of(s).dom().contains(k) {
            let i = index_in(s, k);
            assert(ks[i] == k);
        }
        if ks.to_set().contains(k) {
            let i = choose|i: int| 0 <= i < ks.len() && ks[i] == k;
            assert(s[i].0@ == k);
        }
    }
    assert(map_of(s).dom() =~= ks.to_set());
    assert(ks.no_duplicates()) by {
        assert forall|a: int, b: int| 0 <= a < ks.len() && 0 <= b < ks.len() && a != b implies ks[a] != ks[b] by {
            assert(s[a].0@ != s[b].0@);
        }
    }
    ks.unique_seq_to_set();
    vstd::seq_lib::seq_to_set_is_finite(ks);
}

proof fn lemma_pending_in_map(s: Seq<(String, Vec<NoteVector>)>)
    requires
        distinct_keys(s),
    ensures
        pending_in(s) == pending_of(map_of(s)),
    decreases s.len(),
{
    if s.len() == 0 {
        assert(map_of(s).dom() =~= Set::<Seq<char>>::empty());
    } else {
        let p = s.drop_last();
        let e = s.last();
        assert(p.push(e) =~= s);
        assert(distinct_keys(p)) by {
            assert forall|i: int, j: int| 0 <= i < p.len() && 0 <= j < p.len() && i != j implies p[i].0@ != p[j].0@ by {
                assert(p[i] == s[i] && p[j] == s[j]);
            }
        }
        lemma_pending_in_map(p);
        lemma_map_of_push(p, e);
        let m = map_of(s);
        lemma_map_of_len(s);
        lemma_pending_of_remove(m, e.0@);
        assert(m.remove(e.0@) =~= map_of(p));
    }
}

spec fn pending_in(entries: Seq<(String, Vec<NoteVector>)>) -> nat
    decreases entries.len(),
{
    if entries.len() == 0 {
        0
    } else {
        pending_in(entries.drop_last()) + entries.last().1.len() as nat
    }
}

fn copy_notes(v: &Vec<NoteVector>) -> (r: Vec<NoteVector>)
    ensures
        r@ == v@,
{
    let mut r: Vec<NoteVector> = Vec::new();
    let mut i: usize = 0;
    while i < v.len()
        invariant
            i <= v.len(),
            r@ == v@.take(i as int),
        decreases v.len() - i,
    {
        r.push(v[i]);
        i = i + 1;
        assert(r@ =~= v@.take(i as int));
    }
    assert(v@.take(v.len() as int) =~= v@);
    r
}

impl Clone for DraftBook {
    /// A copy holding the same drafts.
    fn clone(&self) -> (b: Self)
        ensures
            b@ == self@,
    {
        proof {
            use_type_invariant(self);
        }
        let mut entries: Vec<(String, Vec<NoteVector>)> = Vec::new();
        let mut i: usize = 0;
        while i < self.entries.len()
            invariant
                i <= self.entries.len(),
                self.keys_distinct(),
                entries.len() == i,
                forall|j: int| 0 <= j < i ==> #[trigger] entries@[j].0@ == self.entries@[j].0@ && entries@[j].1@
                    == self.entries@[j].1@,
            decreases self.entries.len() - i,
        {
            let key = self.entries[i].0.clone();
            let notes = copy_notes(&self.entries[i].1);
            entries.push((key, notes));
            i = i + 1;
        }
        proof {
            assert forall|a: int, c: int|
                0 <= a < entries.len() && 0 <= c < entries.len() && a != c implies entries@[a].0@
                    != entries@[c].0@ by {
                assert(self.key(a) != self.key(c));
            }
        }
        let b = DraftBook { entries };
        proof {
            assert forall|k: Seq<char>| #[trigger] b@.dom().contains(k) <==> self@.dom().contains(k) by {
                if b@.dom().contains(k) {
                    let j = b.index_of(k);
                    assert(self.key(j) == k);
                }
                if self@.dom().contains(k) {
                    let j = self.index_of(k);
                    assert(b.key(j) == k);
                }
            }
            assert forall|k: Seq<char>| #[trigger] b@.dom().contains(k) implies b@[k] == self@[k] by {
                let j = b.index_of(k);
                b.lemma_lookup(j);
                self.lemma_lookup(j);
            }
            assert(b@ =~= self@);
        }
        b
    }
}

impl View for DraftBook {
    type V = Map<Seq<char>, Seq<NoteVector>>;

    closed spec fn view(&self) -> Map<Seq<char>, Seq<NoteVector>> {
        map_of(self.entries@)
    }
}

proof fn lemma_distinct_after_remove(s: Seq<(String, Vec<NoteVector>)>, i: int)
    requires
        0 <= i < s.len(),
        forall|a: int, b: int| 0 <= a < s.len() && 0 <= b < s.len() && a != b ==> s[a].0@ != s[b].0@,
    ensures
        forall|a: int, b: int|
            0 <= a < s.len() - 1 && 0 <= b < s.len() - 1 && a != b ==> s.remove(i)[a].0@ != s.remove(
                i,
            )[b].0@,
{
    let r = s.remove(i);
    assert forall|a: int| 0 <= a < s.len() - 1 implies #[trigger] r[a] == s[if a < i { a } else { a + 1 }] by {}
}

impl DraftBook {
    proof fn lemma_lookup(self, i: int)
        requires
            self.keys_distinct(),
            0 <= i < self.entries.len(),
        ensures
            self@.dom().contains(self.key(i)),
            self@[self.key(i)] == self.entries@[i].1@,
    {
        assert(self.has_key(self.key(i)));
        let j = self.index_of(self.key(i));
        assert(self.key(j) == self.key(i));
    }

    fn find(&self, agent: &String) -> (p: Option<usize>)
        ensures
            match p {
                Some(i) => i < self.entries.len() && self.key(i as int) == agent@,
                None => !self.has_key(agent@),
            },
    {
        let mut i: usize = 0;
        while i < self.entries.len()
            invariant
                i <= self.entries.len(),
                forall|j: int| 0 <= j < i ==> self.key(j) != agent@,
            decreases self.entries.len() - i,
        {
            if self.entries[i].0 == *agent {
                return Some(i);
            }
            i = i + 1;
        }
        proof {
            if listed_in(self.entries@, agent@) {
                let j = index_in(self.entries@, agent@);
                assert(self.key(j) != agent@);
            }
        }
        None
    }

    /// A book with no drafts.
    pub fn new() -> (b: Self)
        ensures
            b@ == Map::<Seq<char>, Seq<NoteVector>>::empty(),
    {
        let b = DraftBook { entries: Vec::new() };
        assert(b@ =~= Map::<Seq<char>, Seq<NoteVector>>::empty());
        b
    }

    /// Number of agents with a pending draft.
    pub fn len(&self) -> (n: usize)
        ensures
            n == self@.dom().len(),
            self@.dom().finite(),
    {
        proof {
            use_type_invariant(self);
            lemma_map_of_len(self.entries@);
        }
        self.entries.len()
    }

    /// Whether no draft is pending.
    pub fn is_empty(&self) -> (b: bool)
        ensures
            b == (self@ == Map::<Seq<char>, Seq<NoteVector>>::empty()),
    {
        proof {
            use_type_invariant(self);
            lemma_map_of_len(self.entries@);
            if self.entries.len() > 0 {
                self.lemma_lookup(0);
                assert(!Map::<Seq<char>, Seq<NoteVector>>::empty().dom().contains(self.key(0)));
            } else {
                assert(self@ =~= Map::<Seq<char>, Seq<NoteVector>>::empty());
            }
        }
        self.entries.len() == 0
    }

    /// Whether `agent` has a pending draft.
    pub fn contains_key(&self, agent: &str) -> (b: bool)
        ensures
            b == self@.dom().contains(agent@),
    {
        let a: String = agent.to_owned();
        self.find(&a).is_some()
    }

    /// The pending draft of `agent`, if any.
    pub fn get(&self, agent: &str) -> (d: Option<&Vec<NoteVector>>)
        ensures
            match d {
                Some(v) => self@.dom().contains(agent@) && v@ == self@[agent@],
                None => !self@.dom().contains(agent@),
            },
    {
        proof {
            use_type_invariant(self);
        }
        let a: String = agent.to_owned();
        match self.find(&a) {
            Some(i) => {
                proof {
                    self.lemma_lookup(i as int);
                }
                Some(&self.entries[i].1)
            },
            None => None,
        }
    }

    /// Takes the pending draft of `agent` out of the book.
    pub fn remove(&mut self, agent: &str) -> (d: Option<Vec<NoteVector>>)
        ensures
            final(self)@ == old(self)@.remove(agent@),
            match d {
                Some(v) => old(self)@.dom().contains(agent@) && v@ == old(self)@[agent@],
                None => !old(self)@.dom().contains(agent@),
            },
    {
        proof {
            use_type_invariant(&*self);
        }
        let a: String = agent.to_owned();
        match self.find(&a) {
            Some(i) => {
                let ghost before = *self;
                proof {
                    before.lemma_lookup(i as int);
                    lemma_distinct_after_remove(self.entries@, i as int);
                }
                let mut entries: Vec<(String, Vec<NoteVector>)> = Vec::new();
                std::mem::swap(&mut entries, &mut self.entries);
                let (_, v) = entries.remove(i);
                self.entries = entries;
                proof {
                    let after = *self;
                    assert forall|j: int| 0 <= j < after.entries.len() implies #[trigger] after.entries@[j]
                        == before.entries@[if j < i { j } else { j + 1 }] by {}
                    assert forall|k: Seq<char>| #[trigger] after@.dom().contains(k) <==> before@.remove(
                        agent@,
                    ).dom().contains(k) by {
                        if after@.dom().contains(k) {
                            let j = after.index_of(k);
                            let jj = if j < i { j } else { j + 1 };
                            before.lemma_lookup(jj);
                        }
                        if before@.remove(agent@).dom().contains(k) {
                            let jj = before.index_of(k);
                            assert(jj != i);
                            let j = if jj < i { jj } else { jj - 1 };
                            assert(after.key(j) == k);
                        }
                    }
                    assert forall|k: Seq<char>| #[trigger] after@.dom().contains(k) implies after@[k]
                        == before@.remove(agent@)[k] by {
                        let j = after.index_of(k);
                        let jj = if j < i { j } else { j + 1 };
                        after.lemma_lookup(j);
                        before.lemma_lookup(jj);
                    }
                    assert(after@ =~= before@.remove(agent@));
                }
                Some(v)
            },
            None => {
                proof {
                    assert(self@ =~= self@.remove(agent@));
                }
                None
            },
        }
    }

    /// Stores `draft` as the pending draft of `agent`, replacing any earlier one.
    pub fn insert(&mut self, agent: &str, draft: Vec<NoteVector>)
        ensures
            final(self)@ == old(self)@.insert(agent@, draft@),
    {
        let _ = self.remove(agent);
        proof {
            use_type_invariant(&*self);
        }
        let ghost before = *self;
        let key: String = agent.to_owned();
        proof {
            if before.has_key(agent@) {
                let j = before.index_of(agent@);
                before.lemma_lookup(j);
            }
        }
        let mut entries: Vec<(String, Vec<NoteVector>)> = Vec::new();
        std::mem::swap(&mut entries, &mut self.entries);
        entries.push((key, draft));
        proof {
            assert(!before.has_key(agent@));
            assert forall|a: int, b: int|
                0 <= a < entries.len() && 0 <= b < entries.len() && a != b implies entries@[a].0@
                    != entries@[b].0@ by {
                if a < before.entries.len() && b < before.entries.len() {
                    assert(entries@[a] == before.entries@[a]);
                    assert(entries@[b] == before.entries@[b]);
                } else if a < before.entries.len() {
                    assert(entries@[a] == before.entries@[a]);
                    assert(before.key(a) != agent@);
                } else {
                    assert(entries@[b] == before.entries@[b]);
                    assert(before.key(b) != agent@);
                }
            }
        }
        self.entries = entries;
        proof {
            let after = *self;
            let n = before.entries.len() as int;
            assert forall|k: Seq<char>| #[trigger] after@.dom().contains(k) <==> before@.insert(
                agent@,
                draft@,
            ).dom().contains(k) by {
                if after@.dom().contains(k) {
                    let j = after.index_of(k);
                    if j < n {
                        before.lemma_lookup(j);
                    }
                }
                if before@.dom().contains(k) {
                    let j = before.index_of(k);
                    assert(after.key(j) == k);
                }
                if k == agent@ {
                    assert(after.key(n) == k);
                }
            }
            assert forall|k: Seq<char>| #[trigger] after@.dom().contains(k) implies after@[k]
                == before@.insert(agent@, draft@)[k] by {
                let j = after.index_of(k);
                after.lemma_lookup(j);
                if j < n {
                    before.lemma_lookup(j);
                } else {
                    assert(k == agent@);
                }
            }
            assert(after@ =~= before@.insert(agent@, draft@));
        }
    }

    /// Drops every pending draft.
    pub fn clear(&mut self)
        ensures
            final(self)@ == Map::<Seq<char>, Seq<NoteVector>>::empty(),
    {
        self.entries = Vec::new();
        assert(self@ =~= Map::<Seq<char>, Seq<NoteVector>>::empty());
    }

    /// The agents with a pending draft, each once.
    pub fn agents(&self) -> (names: Vec<String>)
        ensures
            names.len() == self@.dom().len(),
            forall|i: int| 0 <= i < names.len() ==> self@.dom().contains(#[trigger] names@[i]@),
            forall|k: Seq<char>| #[trigger] self@.dom().contains(k) ==> exists|i: int|
                0 <= i < names.len() && names@[i]@ == k,
            forall|i: int, j: int|
                0 <= i < names.len() && 0 <= j < names.len() && i != j ==> names@[i]@ != names@[j]@,
    {
        proof {
            use_type_invariant(self);
            lemma_map_of_len(self.entries@);
        }
        let mut names: Vec<String> = Vec::new();
        let mut i: usize = 0;
        while i < self.entries.len()
            invariant
                i <= self.entries.len(),
                names.len() == i,
                self.keys_distinct(),
                forall|j: int| 0 <= j < i ==> #[trigger] names@[j]@ == self.key(j),
            decreases self.entries.len() - i,
        {
            names.push(self.entries[i].0.clone());
            i = i + 1;
        }
        proof {
            assert forall|j: int| 0 <= j < names.len() implies self@.dom().contains(#[trigger] names@[j]@) by {
                self.lemma_lookup(j);
            }
            assert forall|k: Seq<char>| #[trigger] self@.dom().contains(k) implies exists|j: int|
                0 <= j < names.len() && names@[j]@ == k by {
                let j = self.index_of(k);
                assert(names@[j]@ == k);
            }
        }
        names
    }

    /// Total number of notes across the pending drafts.
    pub fn pending_notes(&self) -> (n: u128)
        ensures
            n == pending_of(self@),
    {
        proof {
            use_type_invariant(self);
            lemma_pending_in_map(self.entries@);
        }
        let mut acc: u128 = 0;
        let mut i: usize = 0;
        assert(self.entries@.take(0) =~= Seq::<(String, Vec<NoteVector>)>::empty());
        while i < self.entries.len()
            invariant
                i <= self.entries.len(),
                acc == pending_in(self.entries@.take(i as int)),
                acc <= i * 0x1_0000_0000_0000_0000,
            decreases self.entries.len() - i,
        {
            assert(self.entries@.take(i + 1).drop_last() =~= self.entries@.take(i as int));
            acc = acc + self.entries[i].1.len() as u128;
            i = i + 1;
        }
        assert(self.entries@.take(self.entries.len() as int) =~= self.entries@);
        acc
    }
}

} // verus!
