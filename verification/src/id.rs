use vstd::prelude::*;

verus! {

/// Opaque identifier for tensor MIDI entities.
#[derive(Debug, Hash)]
pub struct TensorMidiId(String);

impl View for TensorMidiId {
    type V = Seq<char>;

    open spec fn view(&self) -> Seq<char> {
        self.text()
    }
}

impl TensorMidiId {
    /// The characters of the identifier.
    pub closed spec fn text(&self) -> Seq<char> {
        self.0@
    }

    /// An identifier holding the given text.
    pub fn new(s: &str) -> (id: Self)
        ensures
            id@ == s@,
    {
        TensorMidiId(s.to_owned())
    }

    /// The identifier's text.
    pub fn as_str(&self) -> (s: &str)
        ensures
            s@ == self@,
    {
        self.0.as_str()
    }

    /// The identifier rendered as text: the identifier itself.
    pub fn to_string(&self) -> (s: String)
        ensures
            s@ == self@,
    {
        self.0.clone()
    }
}

impl Clone for TensorMidiId {
    fn clone(&self) -> (c: Self)
        ensures
            c@ == self@,
    {
        TensorMidiId(self.0.clone())
    }
}

impl PartialEq for TensorMidiId {
    fn eq(&self, other: &Self) -> (r: bool) {
        self.0 == other.0
    }
}

impl vstd::std_specs::cmp::PartialEqSpecImpl for TensorMidiId {
    open spec fn obeys_eq_spec() -> bool {
        true
    }

    open spec fn eq_spec(&self, other: &TensorMidiId) -> bool {
        self@ == other@
    }
}

impl Eq for TensorMidiId {
}

} // verus!
