use vstd::prelude::*;
use crate::note::NoteVector;
use crate::field::{NoteWindow, window_units, total_units, total_energy_units};
use crate::draft::DraftBook;

verus! {

/// Whether committing `draft` onto `notes` stays within `budget` energy units.
pub open spec fn fits_budget(notes: Seq<NoteVector>, draft: Seq<NoteVector>, budget: int) -> bool {
    total_units(notes) + total_units(draft) <= budget
}

/// What committing `agent`'s draft does to the field and the book, and
/// whether it commits: with a draft that fits the budget, the draft's notes
/// follow the field's and the draft leaves the book; otherwise nothing changes.
pub open spec fn commit_outcome(
    notes: Seq<NoteVector>,
    book: Map<Seq<char>, Seq<NoteVector>>,
    agent: Seq<char>,
    budget: int,
) -> (Seq<NoteVector>, Map<Seq<char>, Seq<NoteVector>>, bool) {
    if book.dom().contains(agent) && fits_budget(notes, book[agent], budget) {
        (notes + book[agent], book.remove(agent), true)
    } else {
        (notes, book, false)
    }
}

/// The commit decision compares the field's energy plus the draft's energy
/// with the budget, each counted once: a draft that fits is committed (its
/// notes follow the field's and it leaves the book), one that does not is
/// refused, and an agent without a draft commits nothing.
pub proof fn lemma_commit_decision(
    notes: Seq<NoteVector>,
    book: Map<Seq<char>, Seq<NoteVector>>,
    agent: Seq<char>,
    budget: int,
)
    ensures
        book.dom().contains(agent) && total_units(notes) + total_units(book[agent]) <= budget
            ==> commit_outcome(notes, book, agent, budget) == (
            notes + book[agent],
            book.remove(agent),
            true,
        ),
        book.dom().contains(agent) && total_units(notes) + total_units(book[agent]) > budget
            ==> commit_outcome(notes, book, agent, budget) == (notes, book, false),
        !book.dom().contains(agent) ==> commit_outcome(notes, book, agent, budget) == (
            notes,
            book,
            false,
        ),
{
}

/// The conservation invariant: a field within the budget stays within it
/// through any commit, accepted or rejected.
pub proof fn lemma_commit_keeps_field_within_budget(
    notes: Seq<NoteVector>,
    book: Map<Seq<char>, Seq<NoteVector>>,
    agent: Seq<char>,
    budget: int,
)
    requires
        total_units(notes) <= budget,
    ensures
        total_units(commit_outcome(notes, book, agent, budget).0) <= budget,
{
    if book.dom().contains(agent) && fits_budget(notes, book[agent], budget) {
        lemma_commit_conserves(notes, book[agent], budget);
    }
}

/// Energy adds up over concatenation: the energy of `a` followed by `b` is
/// the energy of `a` plus the energy of `b`.
pub proof fn lemma_total_units_concat(a: Seq<NoteVector>, b: Seq<NoteVector>)
    ensures
        total_units(a + b) == total_units(a) + total_units(b),
    decreases b.len(),
{
    if b.len() == 0 {
        assert(a + b =~= a);
    } else {
        assert((a + b).drop_last() =~= a + b.drop_last());
        lemma_total_units_concat(a, b.drop_last());
    }
}

/// Inserting a note adds exactly that note's energy to the field.
pub proof fn lemma_insert_adds_energy(notes: Seq<NoteVector>, n: NoteVector)
    ensures
        total_units(notes.push(n)) == total_units(notes) + n.units(),
{
    assert(notes.push(n).drop_last() =~= notes);
}

/// The energy that any window of the field takes in (the notes at a tick, in
/// a bar, or an agent's in a bar) is part of the field's total energy.
pub proof fn lemma_window_within_total(notes: Seq<NoteVector>, w: NoteWindow)
    ensures
        window_units(notes, w) <= total_units(notes),
    decreases notes.len(),
{
    if notes.len() > 0 {
        lemma_window_within_total(notes.drop_last(), w);
    }
}

/// Conservation: after a successful commit, the total energy of the
/// committed notes does not exceed the budget; a rejected or missing draft
/// changes nothing.
pub proof fn lemma_commit_conserves(notes: Seq<NoteVector>, draft: Seq<NoteVector>, budget: int)
    requires
        fits_budget(notes, draft, budget),
    ensures
        total_units(notes + draft) <= budget,
{
    lemma_total_units_concat(notes, draft);
}

/// Commits `agent`'s pending draft onto the field if the field's energy plus
/// the draft's stays within `budget_units`: the draft's notes are appended in
/// order and the draft leaves the book. Otherwise, or when `agent` has no
/// draft, nothing changes and the result is `false`.
pub fn commit_draft(notes: &mut Vec<NoteVector>, drafts: &mut DraftBook, agent: &str, budget_units: i128) -> (committed: bool)
    ensures
        (final(notes)@, final(drafts)@, committed) == commit_outcome(
            old(notes)@,
            old(drafts)@,
            agent@,
            budget_units as int,
        ),
        !old(drafts)@.dom().contains(agent@) ==> !committed,
        committed == (old(drafts)@.dom().contains(agent@) && fits_budget(
            old(notes)@,
            old(drafts)@[agent@],
            budget_units as int,
        )),
        committed ==> final(notes)@ == old(notes)@ + old(drafts)@[agent@] && final(drafts)@ == old(
            drafts,
        )@.remove(agent@),
        committed ==> total_units(final(notes)@) <= budget_units,
        old(drafts)@.dom().contains(agent@) && total_units(old(notes)@) + total_units(
            old(drafts)@[agent@],
        ) <= budget_units ==> committed,
        total_units(old(notes)@) + total_units(old(drafts)@[agent@]) > budget_units ==> !committed,
        !committed ==> final(notes)@ == old(notes)@ && final(drafts)@ == old(drafts)@,
{
    let draft_units: u128 = match drafts.get(agent) {
        Some(d) => {
            let e = total_energy_units(d);
            assert(e <= 0x1_0000_0000_0000_0000 * 0x100_0000_0000);
            e
        },
        None => return false,
    };
    let current: u128 = total_energy_units(notes);
    assert(current <= 0x1_0000_0000_0000_0000 * 0x100_0000_0000);
    let fits: bool = budget_units >= 0 && current + draft_units <= budget_units as u128;
    if fits {
        match drafts.remove(agent) {
            Some(mut d) => {
                notes.append(&mut d);
                proof {
                    lemma_commit_conserves(old(notes)@, old(drafts)@[agent@], budget_units as int);
                }
                true
            },
            None => false,
        }
    } else {
        false
    }
}

} // verus!
