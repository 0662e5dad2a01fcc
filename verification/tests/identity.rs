use lau_tensor_midi::TensorMidiId;
use std::collections::HashSet;

#[test]
fn test_tensor_midi_id_new() {
    let id = TensorMidiId::new("hexagram-1");
    assert_eq!(id.as_str(), "hexagram-1");
}

#[test]
fn test_tensor_midi_id_equality() {
    let a = TensorMidiId::new("foo");
    let b = TensorMidiId::new("foo");
    let c = TensorMidiId::new("bar");
    assert_eq!(a, b);
    assert_ne!(a, c);
}

#[test]
fn test_tensor_midi_id_hash() {
    let mut set = HashSet::new();
    set.insert(TensorMidiId::new("a"));
    set.insert(TensorMidiId::new("a"));
    set.insert(TensorMidiId::new("b"));
    assert_eq!(set.len(), 2);
}

#[test]
fn test_tensor_midi_id_clone() {
    let id = TensorMidiId::new("clone-me");
    let cloned = id.clone();
    assert_eq!(id, cloned);
}

#[test]
fn test_tensor_midi_id_display() {
    let id = TensorMidiId::new("hex-42");
    assert_eq!(id.to_string(), "hex-42");
}

#[test]
fn tensor_midi_id_empty_text() {
    let id = TensorMidiId::new("");
    assert_eq!(id.as_str(), "");
    assert_eq!(id, TensorMidiId::new(""));
    assert_ne!(id, TensorMidiId::new(" "));
}
