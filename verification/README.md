# lau_tensor_midi

A tensor field MIDI engine for reactive improvisation, with its whole-number
core verified by Verus.

- `src/` is the verified library: note identity and notes, note energy kept
  exactly in energy units (`velocity * duration`, 60960 units to one unit of
  energy), the note field's energy at a tick, in a bar and per agent, the bar
  histogram behind the entropy, channel assignment from the agents' walk order,
  the deterministic rhythm hashes and the speak gate, the pentatonic draft
  builder, the book of pending drafts, and the commit gate that keeps the
  committed energy within the conservation budget.
- `app/` holds what works in floating point: cadences, the conversation tensor
  with its tempo and entropy, nudges and the improvisation engine. Each of
  them hands its integer decisions to the library.
- `tests/` exercises the library.
