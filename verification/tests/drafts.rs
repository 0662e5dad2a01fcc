use lau_tensor_midi::{
    commit_draft, draft_note_count, draft_notes, pentatonic_pitch, total_energy_units, DraftBook,
    NoteVector, UNITS_PER_ENERGY,
};

fn budget_units(budget: f64) -> i128 {
    (budget * UNITS_PER_ENERGY as f64).floor() as i128
}

#[test]
fn pentatonic_scale_from_c4() {
    let pitches: Vec<u8> = (0..5).map(pentatonic_pitch).collect();
    assert_eq!(pitches, vec![60, 62, 64, 67, 69]);
    assert_eq!(pentatonic_pitch(5), 72);
    assert_eq!(pentatonic_pitch(9), 81);
    assert_eq!(pentatonic_pitch(25), 120);
    assert_eq!(pentatonic_pitch(27), 124);
    // Octave shifts past the top of the range are held at 127, a G.
    assert_eq!(pentatonic_pitch(28), 127);
    assert_eq!(pentatonic_pitch(50), 127);
    assert_eq!(pentatonic_pitch(110), 127);
    assert_eq!(pentatonic_pitch(usize::MAX), 127);
    for step in 0..2000 {
        let p = pentatonic_pitch(step);
        assert!((60..=127).contains(&p));
        assert!([0, 2, 4, 7, 9].contains(&(p % 12)));
    }
}

#[test]
fn draft_count_is_held_between_one_and_sixteen() {
    assert_eq!(draft_note_count(0), 1);
    assert_eq!(draft_note_count(1), 1);
    assert_eq!(draft_note_count(5), 5);
    assert_eq!(draft_note_count(16), 16);
    assert_eq!(draft_note_count(40), 16);
}

#[test]
fn draft_notes_follow_the_scale() {
    let onsets = vec![100, 600, 1100];
    let draft = draft_notes(3, 2, 76, 672, &onsets);
    assert_eq!(
        draft,
        vec![
            NoteVector::new(67, 76, 672, 100, 2),
            NoteVector::new(69, 76, 672, 600, 2),
            NoteVector::new(72, 76, 672, 1100, 2),
        ]
    );
    let quiet = draft_notes(0, 0, 0, 0, &vec![5]);
    assert_eq!(quiet, vec![NoteVector::new(60, 1, 1, 5, 0)]);
    assert!(draft_notes(0, 0, 10, 10, &Vec::new()).is_empty());
}

#[test]
fn draft_book_insert_get_remove() {
    let mut book = DraftBook::new();
    assert!(book.is_empty());
    assert_eq!(book.len(), 0);
    book.insert("Architect", vec![NoteVector::new(60, 1, 1, 0, 0)]);
    book.insert("Critic", vec![NoteVector::new(62, 1, 1, 0, 2); 3]);
    assert_eq!(book.len(), 2);
    assert!(book.contains_key("Architect"));
    assert!(!book.contains_key("Historian"));
    assert_eq!(book.pending_notes(), 4);
    book.insert("Architect", vec![]);
    assert_eq!(book.len(), 2);
    assert_eq!(book.get("Architect"), Some(&vec![]));
    assert_eq!(book.pending_notes(), 3);
    let taken = book.remove("Critic");
    assert_eq!(taken.map(|d| d.len()), Some(3));
    assert_eq!(book.remove("Critic"), None);
    assert_eq!(book.get("Critic"), None);
    assert_eq!(book.len(), 1);
}

#[test]
fn draft_book_clear() {
    let mut book = DraftBook::new();
    book.insert("Architect", vec![NoteVector::new(60, 1, 1, 0, 0)]);
    book.insert("Critic", vec![NoteVector::new(60, 1, 1, 0, 0)]);
    assert_eq!(book.len(), 2);
    book.clear();
    assert!(book.is_empty());
}

#[test]
fn commit_without_draft_is_refused() {
    let mut notes: Vec<NoteVector> = Vec::new();
    let mut book = DraftBook::new();
    assert!(!commit_draft(&mut notes, &mut book, "Nobody", budget_units(100.0)));
    assert!(notes.is_empty());
}

#[test]
fn commit_within_budget_moves_the_draft() {
    let mut notes = vec![NoteVector::new(60, 127, 480, 0, 0)];
    let mut book = DraftBook::new();
    let draft = vec![NoteVector::new(62, 127, 480, 10, 1), NoteVector::new(64, 127, 240, 20, 1)];
    book.insert("Architect", draft.clone());
    assert!(commit_draft(&mut notes, &mut book, "Architect", budget_units(1000.0)));
    assert!(!book.contains_key("Architect"));
    assert_eq!(notes.len(), 3);
    assert_eq!(notes[1..].to_vec(), draft);
    assert_eq!(total_energy_units(&notes), 2 * 60960 + 30480);
}

#[test]
fn commit_over_budget_is_rejected() {
    let mut notes: Vec<NoteVector> = Vec::new();
    let mut book = DraftBook::new();
    book.insert("Architect", vec![NoteVector::new(60, 76, 672, 0, 0)]);
    assert!(!commit_draft(&mut notes, &mut book, "Architect", budget_units(0.0)));
    assert!(notes.is_empty());
    assert!(book.contains_key("Architect"));
    // A draft holding exactly the budget fits.
    let exact = 76 * 672;
    assert!(commit_draft(&mut notes, &mut book, "Architect", exact));
    let mut book2 = DraftBook::new();
    book2.insert("Critic", vec![NoteVector::new(60, 1, 1, 0, 0)]);
    assert!(!commit_draft(&mut notes, &mut book2, "Critic", exact));
    // A negative budget admits nothing, not even a silent draft.
    let mut book3 = DraftBook::new();
    book3.insert("Critic", vec![NoteVector::silence(0, 10, 0)]);
    assert!(!commit_draft(&mut Vec::new(), &mut book3, "Critic", -1));
    assert!(commit_draft(&mut Vec::new(), &mut book3, "Critic", 0));
}

#[test]
fn conservation_over_four_agents() {
    let budget = budget_units(5.0);
    let mut notes: Vec<NoteVector> = Vec::new();
    let mut book = DraftBook::new();
    for (i, agent) in ["Architect", "Implementer", "Critic", "Historian"].iter().enumerate() {
        let onsets: Vec<u64> = (0..8).map(|k| k * 700).collect();
        book.insert(agent, draft_notes(0, i as u8, 127, 480, &onsets));
        commit_draft(&mut notes, &mut book, agent, budget);
        assert!(total_energy_units(&notes) as i128 <= budget);
    }
    assert!(total_energy_units(&notes) as f64 / UNITS_PER_ENERGY as f64 <= 5.0 + 1e-10);
}
