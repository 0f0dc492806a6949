//! The scanner that extracts invocations from free text.
//!
//! An invocation is written `<name key="value" ...>payload</name>`. The scan
//! goes left to right with a cursor, never fails, and always moves on: a `<`
//! that opens no complete tag costs one character.

use vstd::prelude::*;

use crate::invocation::Attributes;
use crate::invocation::Invocation;
use crate::invocation::InvocationView;
use crate::invocation::attributes_wf;
use crate::invocation::distinct_keys;
use crate::invocation::lemma_put_all_distinct_keys;
use crate::invocation::put_all;
use crate::invocation::views;
use crate::text::chars_of;
use crate::text::find_char;
use crate::text::find_pattern;
use crate::text::first_at;
use crate::text::first_index;
use crate::text::first_occurrence;
use crate::text::holds_char;
use crate::text::holds_pattern;
use crate::text::is_trimmed;
use crate::text::lemma_first_index;
use crate::text::lemma_first_index_is;
use crate::text::lemma_first_index_none;
use crate::text::lemma_trim_is_trimmed;
use crate::text::string_of;
use crate::text::trim;
use crate::text::trim_bounds;

verus! {

/// Whether `s` holds at index `i` a character that ends a tag name.
pub open spec fn holds_terminator(s: Seq<char>) -> spec_fn(int) -> bool {
    |i: int| 0 <= i < s.len() && (s[i] == '>' || s[i] == ' ')
}

/// The index of the first `>` or space at or after `open`.
pub open spec fn name_terminator(s: Seq<char>, open: int) -> Option<int> {
    first_index(open, s.len() as int, holds_terminator(s))
}

/// The closing tag of `name`.
pub open spec fn closing_tag(name: Seq<char>) -> Seq<char> {
    seq!['<', '/'] + name + seq!['>']
}

/// The `key="value"` pair that begins at `start`, as the indices of its `=`
/// and of its closing quote.
///
/// The key is one or more characters other than `=`, so it runs from `start`
/// to the next `=`. Right after the `=` comes a quote, then the value: one or
/// more characters other than a quote, up to the next quote.
pub open spec fn pair_at(a: Seq<char>, start: int) -> Option<(int, int)> {
    if 0 <= start < a.len() && a[start] != '=' {
        match first_at(a, '=', start) {
            Some(eq) => if eq + 1 < a.len() && a[eq + 1] == '"' {
                match first_at(a, '"', eq + 2) {
                    Some(quote) => if quote > eq + 2 {
                        Some((eq, quote))
                    } else {
                        None
                    },
                    None => None,
                }
            } else {
                None
            },
            None => None,
        }
    } else {
        None
    }
}

/// Whether a pair begins at index `i` of `a`.
pub open spec fn holds_pair(a: Seq<char>) -> spec_fn(int) -> bool {
    |i: int| pair_at(a, i) is Some
}

/// The first index at or after `from` at which a pair begins.
pub open spec fn next_pair(a: Seq<char>, from: int) -> Option<int> {
    first_index(from, a.len() as int, holds_pair(a))
}

/// The shape of a pair.
pub proof fn lemma_pair_at(a: Seq<char>, start: int)
    ensures
        match pair_at(a, start) {
            Some((eq, quote)) => {
                &&& 0 <= start < eq
                &&& eq + 2 < quote < a.len()
                &&& a[eq] == '='
                &&& a[eq + 1] == '"'
                &&& a[quote] == '"'
                &&& forall|j: int| start <= j < eq ==> a[j] != '='
                &&& forall|j: int| eq + 2 <= j < quote ==> a[j] != '"'
            },
            None => true,
        },
{
    if 0 <= start < a.len() && a[start] != '=' {
        lemma_first_index(start, a.len() as int, holds_char(a, '='));
        match first_at(a, '=', start) {
            Some(eq) => {
                lemma_first_index(eq + 2, a.len() as int, holds_char(a, '"'));
                assert forall|j: int| start <= j < eq implies a[j] != '=' by {
                    assert(!holds_char(a, '=')(j));
                }
                match first_at(a, '"', eq + 2) {
                    Some(quote) => {
                        assert forall|j: int| eq + 2 <= j < quote implies a[j] != '"' by {
                            assert(!holds_char(a, '"')(j));
                        }
                    },
                    None => {},
                }
            },
            None => {},
        }
    }
}

/// The pairs of `a` from index `from` on, in the order in which they stand,
/// each with its key and its value trimmed. The search for the next pair
/// starts behind the closing quote of the last one; what stands between two
/// pairs and belongs to neither is dropped.
pub open spec fn raw_pairs(a: Seq<char>, from: int) -> Seq<(Seq<char>, Seq<char>)>
    decreases a.len() - from,
{
    match next_pair(a, from) {
        None => Seq::empty(),
        Some(start) => match pair_at(a, start) {
            None => Seq::empty(),
            Some((eq, quote)) => {
                proof {
                    lemma_first_index(from, a.len() as int, holds_pair(a));
                    lemma_pair_at(a, start);
                }
                seq![(trim(a.subrange(start, eq)), trim(a.subrange(eq + 2, quote)))] + raw_pairs(
                    a,
                    quote + 1,
                )
            },
        },
    }
}

/// The attributes that the attribute clause `a` gives: its pairs, a later
/// value of a key replacing an earlier one.
pub open spec fn attributes_in(a: Seq<char>) -> Seq<(Seq<char>, Seq<char>)> {
    put_all(Seq::empty(), raw_pairs(a, 0))
}

/// The attributes of a clause hold no key twice.
pub proof fn lemma_attributes_in_distinct(a: Seq<char>)
    ensures
        distinct_keys(attributes_in(a)),
{
    lemma_put_all_distinct_keys(Seq::empty(), raw_pairs(a, 0));
}

/// The payload that the text between an opening and a closing tag gives: the
/// trimmed text, unless that is empty or begins with `<`.
pub open spec fn payload_in(region: Seq<char>) -> Option<Seq<char>> {
    let body = trim(region);
    if body.len() > 0 && body[0] != '<' {
        Some(body)
    } else {
        None
    }
}

/// A payload is never empty, has no outer white space and does not begin
/// with `<`.
pub proof fn lemma_payload_shape(region: Seq<char>)
    ensures
        payload_in(region) matches Some(body) ==> body.len() > 0 && is_trimmed(body) && body[0] != '<',
{
    lemma_trim_is_trimmed(region);
}

/// The invocation whose opening tag begins with the `<` at index `open`, and
/// the index behind its closing tag.
///
/// The name runs from behind the `<` to the first `>` or space. The opening tag
/// ends at the first `>`. The closing tag is the first `</name>` at or after
/// `open`; without one there is no invocation. A name that a space ends is
/// followed by the attribute clause, which runs to the end of the opening
/// tag. The payload stands between the two tags; where the closing tag begins
/// before the opening tag has ended there is none.
pub open spec fn tag_at(s: Seq<char>, open: int) -> Option<(InvocationView, int)> {
    if 0 <= open < s.len() && s[open] == '<' {
        match (name_terminator(s, open), first_at(s, '>', open)) {
            (Some(term), Some(gt)) => {
                let name = s.subrange(open + 1, term);
                match first_occurrence(s, closing_tag(name), open) {
                    Some(close) => Some(
                        (
                            InvocationView {
                                action: name,
                                attributes: if s[term] == ' ' {
                                    Some(attributes_in(s.subrange(term + 1, gt)))
                                } else {
                                    None
                                },
                                payload: if gt + 1 <= close {
                                    payload_in(s.subrange(gt + 1, close))
                                } else {
                                    None
                                },
                            },
                            close + closing_tag(name).len(),
                        ),
                    ),
                    None => None,
                }
            },
            _ => None,
        }
    } else {
        None
    }
}

/// The shape of a tag: where its parts lie.
pub proof fn lemma_tag_at(s: Seq<char>, open: int)
    ensures
        match tag_at(s, open) {
            Some((invocation, end)) => {
                &&& name_terminator(s, open) matches Some(term)
                &&& first_at(s, '>', open) matches Some(gt)
                &&& first_occurrence(s, closing_tag(invocation.action), open) matches Some(close)
                &&& 0 <= open < term <= gt < s.len()
                &&& open <= close
                &&& end == close + invocation.action.len() + 3
                &&& end <= s.len()
                &&& gt < end
                &&& invocation.action == s.subrange(open + 1, term)
                &&& (s[term] == ' ' ==> term < gt)
            },
            None => true,
        },
{
    if 0 <= open < s.len() && s[open] == '<' {
        lemma_first_index(open, s.len() as int, holds_terminator(s));
        lemma_first_index(open, s.len() as int, holds_char(s, '>'));
        match (name_terminator(s, open), first_at(s, '>', open)) {
            (Some(term), Some(gt)) => {
                let name = s.subrange(open + 1, term);
                lemma_first_index(open, s.len() as int, holds_pattern(s, closing_tag(name)));
                if term > gt {
                    assert(holds_terminator(s)(gt));
                }
                match first_occurrence(s, closing_tag(name), open) {
                    Some(close) => {
                        let tag = closing_tag(name);
                        assert(s.subrange(close, close + tag.len())[tag.len() - 1] == tag[tag.len()
                            - 1]);
                        assert(s[close + tag.len() - 1] == '>');
                        if close + tag.len() - 1 < gt {
                            assert(holds_char(s, '>')(close + tag.len() - 1));
                        }
                    },
                    None => {},
                }
            },
            _ => {},
        }
    }
}

/// The invocations of `s` from `cursor` on.
///
/// The scan goes to the next `<`. Where a tag begins there, its invocation is
/// taken and the scan goes on behind the closing tag, so that what stands
/// inside the tag is not scanned again. Else it goes on one character behind
/// the `<`.
pub open spec fn invocations_from(s: Seq<char>, cursor: int) -> Seq<InvocationView>
    decreases s.len() - cursor,
{
    match first_at(s, '<', cursor) {
        None => Seq::empty(),
        Some(open) => {
            proof {
                lemma_first_index(cursor, s.len() as int, holds_char(s, '<'));
                lemma_tag_at(s, open);
            }
            match tag_at(s, open) {
                Some((invocation, end)) => seq![invocation] + invocations_from(s, end),
                None => invocations_from(s, open + 1),
            }
        },
    }
}

/// The invocations of the text `s`.
pub open spec fn invocations_in(s: Seq<char>) -> Seq<InvocationView> {
    invocations_from(s, 0)
}

/// Finds the next tag open: the first `<` at or after `from`.
pub fn find_tag_open(chars: &Vec<char>, from: usize) -> (found: Option<usize>)
    ensures
        match found {
            Some(open) => first_at(chars@, '<', from as int) == Some(open as int) && from <= open
                < chars.len() && chars@[open as int] == '<',
            None => first_at(chars@, '<', from as int) is None,
        },
{
    find_char(chars, '<', from)
}

/// Finds the name terminator: the first `>` or space at or after `open`.
pub fn find_name_terminator(chars: &Vec<char>, open: usize) -> (found: Option<usize>)
    ensures
        match found {
            Some(term) => name_terminator(chars@, open as int) == Some(term as int) && open <= term
                < chars.len(),
            None => name_terminator(chars@, open as int) is None,
        },
{
    let mut i: usize = open;
    while i < chars.len()
        invariant
            open <= i,
            forall|j: int| open <= j < i ==> !#[trigger] holds_terminator(chars@)(j),
        decreases chars.len() - i,
    {
        if chars[i] == '>' || chars[i] == ' ' {
            proof {
                lemma_first_index_is(
                    open as int,
                    chars@.len() as int,
                    holds_terminator(chars@),
                    i as int,
                );
            }
            return Some(i);
        }
        i += 1;
    }
    proof {
        lemma_first_index_none(open as int, chars@.len() as int, holds_terminator(chars@));
    }
    None
}

/// Finds the matching close: the first closing tag of `name` at or after
/// `from`.
pub fn find_matching_close(chars: &Vec<char>, name: &Vec<char>, from: usize) -> (found: Option<usize>)
    ensures
        match found {
            Some(close) => first_occurrence(chars@, closing_tag(name@), from as int) == Some(
                close as int,
            ) && from <= close && close + name.len() + 3 <= chars.len(),
            None => first_occurrence(chars@, closing_tag(name@), from as int) is None,
        },
{
    let mut tag: Vec<char> = Vec::new();
    tag.push('<');
    tag.push('/');
    let mut i: usize = 0;
    while i < name.len()
        invariant
            i <= name.len(),
            tag@ == seq!['<', '/'] + name@.take(i as int),
        decreases name.len() - i,
    {
        tag.push(name[i]);
        assert(tag@ =~= seq!['<', '/'] + name@.take(i + 1));
        i += 1;
    }
    tag.push('>');
    assert(name@.take(name@.len() as int) =~= name@);
    assert(tag@ =~= closing_tag(name@));
    find_pattern(chars, &tag, from)
}

/// The characters `chars[from..to]`.
fn copy_of(chars: &Vec<char>, from: usize, to: usize) -> (part: Vec<char>)
    requires
        from <= to <= chars.len(),
    ensures
        part@ == chars@.subrange(from as int, to as int),
{
    let mut part: Vec<char> = Vec::new();
    let mut i: usize = from;
    while i < to
        invariant
            from <= i <= to <= chars.len(),
            part@ == chars@.subrange(from as int, i as int),
        decreases to - i,
    {
        part.push(chars[i]);
        assert(part@ =~= chars@.subrange(from as int, i + 1));
        i += 1;
    }
    part
}

/// Finds the next `key="value"` pair of the attribute clause `a` that begins
/// at or after `from`: the indices of its first character, of its `=` and of
/// its closing quote.
pub fn find_pair(a: &Vec<char>, from: usize) -> (found: Option<(usize, usize, usize)>)
    ensures
        match found {
            Some((start, eq, quote)) => {
                &&& next_pair(a@, from as int) == Some(start as int)
                &&& pair_at(a@, start as int) == Some((eq as int, quote as int))
                &&& from <= start < eq
                &&& eq + 2 < quote < a.len()
            },
            None => next_pair(a@, from as int) is None,
        },
{
    let mut pos: usize = from;
    while pos < a.len()
        invariant
            from <= pos,
            forall|j: int| from <= j < pos ==> !#[trigger] holds_pair(a@)(j),
        decreases a.len() - pos,
    {
        if a[pos] == '=' {
            pos += 1;
        } else {
            match find_char(a, '=', pos) {
                None => {
                    proof {
                        lemma_first_index(pos as int, a@.len() as int, holds_char(a@, '='));
                        assert forall|j: int| from <= j < a@.len() implies !#[trigger] holds_pair(
                            a@,
                        )(j) by {
                            if j >= pos {
                                assert forall|k: int| j <= k < a@.len() implies !#[trigger] holds_char(
                                    a@,
                                    '=',
                                )(k) by {
                                    assert(!holds_char(a@, '=')(k));
                                }
                                lemma_first_index_none(j, a@.len() as int, holds_char(a@, '='));
                            }
                        }
                        lemma_first_index_none(from as int, a@.len() as int, holds_pair(a@));
                    }
                    return None;
                },
                Some(eq) => {
                    let mut quote: Option<usize> = None;
                    if eq + 1 < a.len() && a[eq + 1] == '"' {
                        quote = find_char(a, '"', eq + 2);
                    }
                    match quote {
                        Some(q) => {
                            if q > eq + 2 {
                                proof {
                                    lemma_first_index_is(
                                        from as int,
                                        a@.len() as int,
                                        holds_pair(a@),
                                        pos as int,
                                    );
                                }
                                return Some((pos, eq, q));
                            }
                        },
                        None => {},
                    }
                    proof {
                        lemma_first_index(pos as int, a@.len() as int, holds_char(a@, '='));
                        assert forall|j: int| pos <= j <= eq implies !#[trigger] holds_pair(a@)(
                            j,
                        ) by {
                            if j < eq {
                                assert forall|k: int| j <= k < eq implies !#[trigger] holds_char(
                                    a@,
                                    '=',
                                )(k) by {
                                    assert(!holds_char(a@, '=')(k));
                                }
                                lemma_first_index_is(
                                    j,
                                    a@.len() as int,
                                    holds_char(a@, '='),
                                    eq as int,
                                );
                            }
                        }
                    }
                    pos = eq + 1;
                },
            }
        }
    }
    proof {
        lemma_first_index_none(from as int, a@.len() as int, holds_pair(a@));
    }
    None
}

/// Parses the attribute clause `a` of an opening tag.
pub fn parse_attributes(a: &Vec<char>) -> (attributes: Attributes)
    ensures
        attributes@ == attributes_in(a@),
        attributes.wf(),
{
    let mut attributes = Attributes::new();
    let mut pos: usize = 0;
    loop
        invariant
            attributes.wf(),
            put_all(attributes@, raw_pairs(a@, pos as int)) == attributes_in(a@),
        ensures
            attributes.wf(),
            attributes@ == attributes_in(a@),
        decreases a.len() - pos,
    {
        match find_pair(a, pos) {
            None => {
                break ;
            },
            Some((start, eq, quote)) => {
                let key_bounds = trim_bounds(a, start, eq);
                let value_bounds = trim_bounds(a, eq + 2, quote);
                let key = string_of(a, key_bounds.0, key_bounds.1);
                let value = string_of(a, value_bounds.0, value_bounds.1);
                proof {
                    let rest = raw_pairs(a@, quote + 1);
                    let all = raw_pairs(a@, pos as int);
                    assert(all == seq![(key@, value@)] + rest);
                    assert(all.drop_first() =~= rest);
                    assert(all[0] == (key@, value@));
                }
                attributes.insert(key, value);
                pos = quote + 1;
            },
        }
    }
    attributes
}

/// Parses the tag that begins at `open`: its invocation and the index behind
/// its closing tag.
pub fn parse_tag(chars: &Vec<char>, open: usize) -> (parsed: Option<(Invocation, usize)>)
    ensures
        match parsed {
            Some((invocation, end)) => {
                &&& tag_at(chars@, open as int) == Some((invocation@, end as int))
                &&& open < end <= chars.len()
                &&& attributes_wf(invocation)
            },
            None => tag_at(chars@, open as int) is None,
        },
{
    if open >= chars.len() || chars[open] != '<' {
        return None;
    }
    proof {
        lemma_tag_at(chars@, open as int);
    }
    let term = match find_name_terminator(chars, open) {
        Some(term) => term,
        None => {
            return None;
        },
    };
    let gt = match find_char(chars, '>', open) {
        Some(gt) => gt,
        None => {
            return None;
        },
    };
    proof {
        lemma_first_index(open as int, chars@.len() as int, holds_terminator(chars@));
        if term > gt {
            assert(holds_terminator(chars@)(gt as int));
        }
    }
    let name = copy_of(chars, open + 1, term);
    let close = match find_matching_close(chars, &name, open) {
        Some(close) => close,
        None => {
            return None;
        },
    };
    let action = string_of(chars, open + 1, term);
    let attributes = if chars[term] == ' ' {
        let clause = copy_of(chars, term + 1, gt);
        Some(parse_attributes(&clause))
    } else {
        None
    };
    let payload = if gt + 1 <= close {
        let bounds = trim_bounds(chars, gt + 1, close);
        if bounds.0 < bounds.1 && chars[bounds.0] != '<' {
            Some(string_of(chars, bounds.0, bounds.1))
        } else {
            None
        }
    } else {
        None
    };
    let end = close + (term - (open + 1)) + 3;
    Some((Invocation::new(action, attributes, payload), end))
}

/// Parses the invocations of a character sequence.
pub fn parse_chars(chars: &Vec<char>) -> (invocations: Vec<Invocation>)
    ensures
        views(invocations@) == invocations_in(chars@),
        forall|i: int| 0 <= i < invocations.len() ==> attributes_wf(#[trigger] invocations[i]),
{
    let mut invocations: Vec<Invocation> = Vec::new();
    let mut cursor: usize = 0;
    loop
        invariant
            views(invocations@) + invocations_from(chars@, cursor as int) == invocations_in(chars@),
            forall|i: int| 0 <= i < invocations.len() ==> attributes_wf(#[trigger] invocations[i]),
        ensures
            views(invocations@) == invocations_in(chars@),
            forall|i: int| 0 <= i < invocations.len() ==> attributes_wf(#[trigger] invocations[i]),
        decreases chars.len() - cursor,
    {
        match find_tag_open(chars, cursor) {
            None => {
                assert(views(invocations@) + Seq::<InvocationView>::empty() =~= views(invocations@));
                break ;
            },
            Some(open) => {
                match parse_tag(chars, open) {
                    Some((invocation, end)) => {
                        proof {
                            let before = views(invocations@);
                            let rest = invocations_from(chars@, end as int);
                            assert(views(invocations@.push(invocation)) =~= before.push(
                                invocation@,
                            ));
                            assert(before.push(invocation@) + rest =~= before + (seq![
                                invocation@,
                            ] + rest));
                        }
                        invocations.push(invocation);
                        cursor = end;
                    },
                    None => {
                        cursor = open + 1;
                    },
                }
            },
        }
    }
    invocations
}

/// Parses the invocations of a text.
///
/// Every text is accepted. What is no complete invocation is passed over, and
/// every `<` is looked at, unless it stands inside an invocation that was
/// taken.
pub fn parse_model_response(model_response: &str) -> (invocations: Vec<Invocation>)
    ensures
        views(invocations@) == invocations_in(model_response@),
        forall|i: int| 0 <= i < invocations.len() ==> attributes_wf(#[trigger] invocations[i]),
{
    let chars = chars_of(model_response);
    parse_chars(&chars)
}

} // verus!
