//! Rendering of invocations and of action descriptions to tag text.
//!
//! Names, values and payloads are written as they are, without escaping: the
//! text is meant for a prompt, and the scanner is lenient where this writer
//! is literal.

use vstd::prelude::*;

use crate::invocation::Attributes;
use crate::invocation::Invocation;
use crate::invocation::InvocationView;
use crate::parser::closing_tag;
use crate::storage::rendered;
use crate::storage::Storage;

verus! {

/// One attribute as it stands in an opening tag: a space, the key, `="`, the
/// value and a closing quote.
pub open spec fn attribute_text(key: Seq<char>, value: Seq<char>) -> Seq<char> {
    seq![' '] + key + seq!['=', '"'] + value + seq!['"']
}

/// The attribute clause of an opening tag: every attribute, in order.
pub open spec fn attributes_text(pairs: Seq<(Seq<char>, Seq<char>)>) -> Seq<char>
    decreases pairs.len(),
{
    if pairs.len() == 0 {
        Seq::empty()
    } else {
        attributes_text(pairs.drop_last()) + attribute_text(pairs.last().0, pairs.last().1)
    }
}

/// The tag `<name key="value" ...>payload</name>`. Without attributes the
/// attribute clause is left out; without a payload the body is empty.
pub open spec fn tag_text(
    name: Seq<char>,
    attributes: Option<Seq<(Seq<char>, Seq<char>)>>,
    payload: Option<Seq<char>>,
) -> Seq<char> {
    seq!['<'] + name + match attributes {
        Some(pairs) => attributes_text(pairs),
        None => Seq::empty(),
    } + seq!['>'] + match payload {
        Some(body) => body,
        None => Seq::empty(),
    } + closing_tag(name)
}

/// The tag text of an invocation.
pub open spec fn invocation_text(invocation: InvocationView) -> Seq<char> {
    tag_text(invocation.action, invocation.attributes, invocation.payload)
}

/// Appends `text` to `out`.
pub fn push_text(out: &mut String, text: &str)
    ensures
        final(out)@ == old(out)@ + text@,
{
    for c in it: text.chars()
        invariant
            out@ == old(out)@ + it.seq().take(it.index()),
            it.seq() == text@,
    {
        out.push(c);
    }
}

/// Renders a tag from its name, its attributes and its payload.
pub fn render_tag(name: &str, attributes: Option<&Attributes>, payload: Option<&str>) -> (text: String)
    ensures
        text@ == tag_text(
            name@,
            match attributes {
                Some(a) => Some(a@),
                None => None,
            },
            match payload {
                Some(p) => Some(p@),
                None => None,
            },
        ),
{
    let mut text = String::new();
    text.push('<');
    push_text(&mut text, name);
    let ghost head = text@;
    assert(head =~= seq!['<'] + name@);
    match attributes {
        Some(pairs) => {
            let mut i: usize = 0;
            while i < pairs.len()
                invariant
                    i <= pairs@.len(),
                    text@ == head + attributes_text(pairs@.take(i as int)),
                decreases pairs@.len() - i,
            {
                match pairs.get_index(i) {
                    Some((key, value)) => {
                        let ghost before = text@;
                        text.push(' ');
                        push_text(&mut text, key.as_str());
                        text.push('=');
                        text.push('"');
                        push_text(&mut text, value.as_str());
                        text.push('"');
                        proof {
                            assert(text@ =~= before + attribute_text(key@, value@));
                            let next = pairs@.take(i + 1);
                            assert(next.drop_last() =~= pairs@.take(i as int));
                            assert(next.last() == pairs@[i as int]);
                        }
                    },
                    None => {},
                }
                i += 1;
            }
            assert(pairs@.take(pairs@.len() as int) =~= pairs@);
        },
        None => {},
    }
    let ghost opened = text@;
    text.push('>');
    match payload {
        Some(body) => {
            push_text(&mut text, body);
        },
        None => {},
    }
    let ghost body_end = text@;
    text.push('<');
    text.push('/');
    push_text(&mut text, name);
    text.push('>');
    assert(text@ =~= body_end + closing_tag(name@));
    text
}

/// Renders an invocation as `<name key="value" ...>payload</name>`.
pub fn serialize_invocation(inv: &Invocation) -> (text: String)
    ensures
        text@ == invocation_text(inv@),
{
    let payload: Option<&str> = match &inv.payload {
        Some(p) => Some(p.as_str()),
        None => None,
    };
    render_tag(inv.action.as_str(), inv.attributes.as_ref(), payload)
}

/// What an action tells about itself, for the text that teaches a model how
/// to call it.
///
/// The three accessors are all that is ever called on an action; none of them
/// runs it. Each returns what the spec function beside it says, so the text
/// written for an action is a function of these three values. An
/// implementation is held to that where it is verified, as the one for
/// `Invocation` below is.
pub trait Action {
    /// The name under which the action is called.
    spec fn name_text(&self) -> Seq<char>;

    /// The example attributes, if the action takes any.
    spec fn example_pairs(&self) -> Option<Seq<(Seq<char>, Seq<char>)>>;

    /// The example payload, if the action takes one.
    spec fn example_text(&self) -> Option<Seq<char>>;

    /// The name under which the action is called.
    fn name(&self) -> (name: &str)
        ensures
            name@ == self.name_text(),
    ;

    /// Example attributes, if the action takes any.
    fn attributes(&self) -> (attributes: Option<Attributes>)
        ensures
            match attributes {
                Some(a) => self.example_pairs() == Some(a@),
                None => self.example_pairs() is None,
            },
    ;

    /// An example payload, if the action takes one.
    fn example_payload(&self) -> (payload: Option<&str>)
        ensures
            match payload {
                Some(p) => self.example_text() == Some(p@),
                None => self.example_text() is None,
            },
    ;
}

/// What an action tells about itself, as an invocation: the call that its
/// description shows.
pub open spec fn action_view(action: &Box<dyn Action>) -> InvocationView {
    InvocationView {
        action: action.name_text(),
        attributes: action.example_pairs(),
        payload: action.example_text(),
    }
}

/// An invocation describes the action that it calls: the action has its name,
/// and its attributes and payload are the examples.
impl Action for Invocation {
    open spec fn name_text(&self) -> Seq<char> {
        self@.action
    }

    open spec fn example_pairs(&self) -> Option<Seq<(Seq<char>, Seq<char>)>> {
        self@.attributes
    }

    open spec fn example_text(&self) -> Option<Seq<char>> {
        self@.payload
    }

    fn name(&self) -> (name: &str) {
        self.action.as_str()
    }

    fn attributes(&self) -> (attributes: Option<Attributes>) {
        match &self.attributes {
            Some(a) => Some(a.duplicate()),
            None => None,
        }
    }

    fn example_payload(&self) -> (payload: Option<&str>) {
        match &self.payload {
            Some(p) => Some(p.as_str()),
            None => None,
        }
    }
}

/// Renders the description of an action as a tag `<name key="value"
/// ...>payload</name>`: its name, its example attributes in their order and
/// its example payload, nothing escaped. The text is the one that
/// `serialize_invocation` gives for an invocation of the same three values.
pub fn serialize_action(action: &Box<dyn Action>) -> (text: String)
    ensures
        text@ == tag_text(action.name_text(), action.example_pairs(), action.example_text()),
        text@ == invocation_text(action_view(action)),
{
    let name = action.name();
    let attributes = action.attributes();
    let payload = action.example_payload();
    render_tag(name, attributes.as_ref(), payload)
}

/// Renders a store as text, as its discipline asks.
pub fn serialize_storage(storage: &Storage) -> (text: String)
    ensures
        text@ == rendered(storage@),
{
    storage.to_structured_string()
}

} // verus!
