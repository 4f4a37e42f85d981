//! Labels naming rules, with the reserved terminal `"end"`.

use vstd::prelude::*;

verus! {

/// The reserved terminal label: a branch whose next label is `"end"` stops
/// routing instead of handing the query to another rule.
pub open spec fn end_label() -> Seq<char> {
    "end"@
}

/// An opaque string identifier naming a rule. The value `"end"` is reserved:
/// it terminates routing rather than naming a further rule.
#[derive(Clone, Debug, PartialEq, Eq)]
pub struct Label {
    text: String,
}

impl View for Label {
    type V = Seq<char>;

    closed spec fn view(&self) -> Seq<char> {
        self.text@
    }
}

impl Label {
    /// Wrap a string as a label.
    pub fn new(text: String) -> (r: Label)
        ensures
            r@ == text@,
    {
        Label { text }
    }

    /// The reserved terminal label `"end"`.
    pub fn end() -> (r: Label)
        ensures
            r@ == end_label(),
    {
        Label { text: "end".to_owned() }
    }

    /// Whether this label is the reserved terminal `"end"`.
    pub fn is_end(&self) -> (r: bool)
        ensures
            r == (self@ == end_label()),
    {
        self.text == "end".to_owned()
    }

    /// The label's text.
    pub fn text(&self) -> (r: &String)
        ensures
            r@ == self@,
    {
        &self.text
    }
}

} // verus!
