//! The label of a set of holes in messages. A router keeps several sets, and without a label
//! their messages look alike. An empty label prints nothing.

use vstd::prelude::*;

verus! {

pub struct Label {
    name: String,
}

impl View for Label {
    type V = Seq<char>;

    closed spec fn view(&self) -> Seq<char> {
        self.name@
    }
}

/// A label as it stands in front of a message: its name in square brackets and a space.
pub open spec fn label_text(name: Seq<char>) -> Seq<char> {
    if name.len() == 0 {
        Seq::empty()
    } else {
        "["@ + name + "] "@
    }
}

impl Label {
    pub fn new(name: &str) -> (label: Self)
        ensures
            label@ == name@,
    {
        Self { name: name.to_owned() }
    }

    /// The label as it stands in front of a message.
    pub fn text(&self) -> (text: String)
        ensures
            text@ == label_text(self@),
    {
        let mut text: String = String::new();
        if self.name.as_str().unicode_len() == 0 {
            assert(text@ =~= label_text(self@));
            return text;
        }
        text.append("[");
        text.append(self.name.as_str());
        text.append("] ");
        assert(text@ =~= label_text(self@));
        text
    }
}

impl Default for Label {
    fn default() -> (label: Self)
        ensures
            label@ == Seq::<char>::empty(),
    {
        Self { name: String::new() }
    }
}

/// A label without a name is no text at all; another one is its name in square brackets, and a
/// space.
pub proof fn law_labels_stand_in_brackets(name: &str, label: Label, text: String)
    requires
        call_ensures(Label::new, (name,), label),
        call_ensures(Label::text, (&label,), text),
    ensures
        name@.len() == 0 ==> text@.len() == 0,
        name@.len() > 0 ==> {
            &&& text@.len() == name@.len() + 3
            &&& text@[0] == '['
            &&& text@.subrange(1, name@.len() as int + 1) == name@
            &&& text@[name@.len() as int + 1] == ']'
            &&& text@[name@.len() as int + 2] == ' '
        },
{
    reveal_strlit("[");
    reveal_strlit("] ");
    if name@.len() > 0 {
        assert(text@.subrange(1, name@.len() as int + 1) =~= name@);
    }
}

} // verus!
