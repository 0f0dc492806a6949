//! Writing an invocation and scanning the text gives the invocation back.

use vstd::prelude::*;

use crate::invocation::distinct_keys;
use crate::invocation::holds_key;
use crate::invocation::put;
use crate::invocation::put_all;
use crate::invocation::InvocationView;
use crate::parser::attributes_in;
use crate::parser::closing_tag;
use crate::parser::holds_pair;
use crate::parser::holds_terminator;
use crate::parser::invocations_from;
use crate::parser::invocations_in;
use crate::parser::next_pair;
use crate::parser::pair_at;
use crate::parser::payload_in;
use crate::parser::raw_pairs;
use crate::parser::tag_at;
use crate::serializer::attribute_text;
use crate::serializer::attributes_text;
use crate::serializer::invocation_text;
use crate::serializer::tag_text;
use crate::text::lemma_trim_of_trimmed;
use crate::text::holds_char;
use crate::text::holds_pattern;
use crate::text::is_space;
use crate::text::is_trimmed;
use crate::text::lemma_first_index_is;
use crate::text::lemma_first_index_none;
use crate::text::occurs_at;
use crate::text::trim;
use crate::text::trim_start;

verus! {

/// Whether `s` does not hold the character `c`.
pub open spec fn lacks(s: Seq<char>, c: char) -> bool {
    forall|i: int| 0 <= i < s.len() ==> s[i] != c
}

/// Whether `name` can stand as the name of a tag: it holds no space, no `<`,
/// no `>` and no quote.
pub open spec fn is_plain_name(name: Seq<char>) -> bool {
    lacks(name, ' ') && lacks(name, '<') && lacks(name, '>') && lacks(name, '"')
}

/// Whether `key` can stand as the key of an attribute: it is not empty, has
/// no outer white space, and holds no `=` and no `>`.
pub open spec fn is_plain_key(key: Seq<char>) -> bool {
    key.len() > 0 && is_trimmed(key) && lacks(key, '=') && lacks(key, '>')
}

/// Whether `value` can stand as the value of an attribute: it is not empty,
/// has no outer white space, and holds no quote and no `>`.
pub open spec fn is_plain_value(value: Seq<char>) -> bool {
    value.len() > 0 && is_trimmed(value) && lacks(value, '"') && lacks(value, '>')
}

/// Whether every pair has a plain key and a plain value.
pub open spec fn are_plain_pairs(pairs: Seq<(Seq<char>, Seq<char>)>) -> bool {
    forall|i: int|
        0 <= i < pairs.len() ==> is_plain_key((#[trigger] pairs[i]).0) && is_plain_value(pairs[i].1)
}

/// Whether `body` can stand as the payload of a tag named `name`: it is not
/// empty, has no outer white space, does not begin with `<`, and does not
/// hold the closing tag.
pub open spec fn is_plain_payload(body: Seq<char>, name: Seq<char>) -> bool {
    &&& body.len() > 0
    &&& is_trimmed(body)
    &&& body[0] != '<'
    &&& forall|i: int| !occurs_at(body, closing_tag(name), i)
}

/// Whether an invocation is well formed: its name is plain, its attributes,
/// if it has any, are one or more plain pairs with distinct keys, and its
/// payload, if it has one, is plain.
pub open spec fn is_well_formed(invocation: InvocationView) -> bool {
    &&& is_plain_name(invocation.action)
    &&& invocation.attributes matches Some(pairs) ==> pairs.len() > 0 && are_plain_pairs(pairs)
        && distinct_keys(pairs)
    &&& invocation.payload matches Some(body) ==> is_plain_payload(body, invocation.action)
}

/// The attribute clause begins with its first attribute.
pub proof fn lemma_attributes_text_first(pairs: Seq<(Seq<char>, Seq<char>)>)
    requires
        pairs.len() > 0,
    ensures
        attributes_text(pairs) == attribute_text(pairs[0].0, pairs[0].1) + attributes_text(
            pairs.drop_first(),
        ),
    decreases pairs.len(),
{
    let first = attribute_text(pairs[0].0, pairs[0].1);
    let last = attribute_text(pairs.last().0, pairs.last().1);
    if pairs.len() == 1 {
        assert(attributes_text(pairs.drop_last()) =~= Seq::<char>::empty());
        assert(attributes_text(pairs.drop_first()) =~= Seq::<char>::empty());
        assert(attributes_text(pairs) =~= first + attributes_text(pairs.drop_first()));
    } else {
        let front = pairs.drop_last();
        lemma_attributes_text_first(front);
        assert(front.drop_first() =~= pairs.drop_first().drop_last());
        assert(front[0] == pairs[0]);
        assert(pairs.drop_first().last() == pairs.last());
        assert(attributes_text(pairs) =~= first + attributes_text(pairs.drop_first()));
    }
}

/// A clause of plain pairs holds no `>`.
pub proof fn lemma_attributes_text_lacks_gt(pairs: Seq<(Seq<char>, Seq<char>)>)
    requires
        are_plain_pairs(pairs),
    ensures
        lacks(attributes_text(pairs), '>'),
        pairs.len() > 0 ==> attributes_text(pairs).len() > 0 && attributes_text(pairs)[0] == ' '
            && attributes_text(pairs).last() == '"',
    decreases pairs.len(),
{
    if pairs.len() > 0 {
        let front = pairs.drop_last();
        assert(are_plain_pairs(front)) by {
            assert forall|i: int| 0 <= i < front.len() implies is_plain_key((#[trigger] front[i]).0)
                && is_plain_value(front[i].1) by {
                assert(front[i] == pairs[i]);
            }
        }
        lemma_attributes_text_lacks_gt(front);
        let key = pairs.last().0;
        let value = pairs.last().1;
        assert(is_plain_key(key) && is_plain_value(value));
        let one = attribute_text(key, value);
        assert forall|i: int| 0 <= i < one.len() implies one[i] != '>' by {
            if i == 0 {
            } else if i < 1 + key.len() {
                assert(one[i] == key[i - 1]);
            } else if i < 3 + key.len() {
            } else if i < 3 + key.len() + value.len() {
                assert(one[i] == value[i - 3 - key.len()]);
            } else {
            }
        }
        assert(one[0] == ' ');
        assert(one.last() == '"');
    }
}

/// Trimming drops a space that was put before a text without outer white
/// space.
pub proof fn lemma_trim_after_space(s: Seq<char>)
    requires
        s.len() > 0,
        is_trimmed(s),
    ensures
        trim(seq![' '] + s) == s,
{
    let padded = seq![' '] + s;
    assert(is_space(' '));
    assert(padded.drop_first() =~= s);
    assert(trim_start(padded) == trim_start(s));
}

/// Where a key, `="`, a value and a quote stand at `start`, a pair begins
/// there.
pub proof fn lemma_pair_found(a: Seq<char>, start: int, key: Seq<char>, value: Seq<char>)
    requires
        0 <= start,
        key.len() > 0,
        value.len() > 0,
        lacks(key, '='),
        lacks(value, '"'),
        occurs_at(a, key + seq!['=', '"'] + value + seq!['"'], start),
    ensures
        pair_at(a, start) == Some((start + key.len(), start + key.len() + 2 + value.len())),
        next_pair(a, start) == Some(start),
        a.subrange(start, start + key.len()) == key,
        a.subrange(start + key.len() + 2, start + key.len() + 2 + value.len()) == value,
{
    let text = key + seq!['=', '"'] + value + seq!['"'];
    let eq = start + key.len();
    let quote = eq + 2 + value.len();
    assert(text.len() == key.len() + value.len() + 3);
    assert forall|k: int| 0 <= k < text.len() implies a[start + k] == text[k] by {
        assert(a.subrange(start, start + text.len())[k] == text[k]);
    }
    assert forall|j: int| start <= j < eq implies !#[trigger] holds_char(a, '=')(j) by {
        assert(a[j] == text[j - start]);
        assert(text[j - start] == key[j - start]);
    }
    assert(a[eq] == text[key.len() as int]);
    assert(a[eq + 1] == text[key.len() as int + 1]);
    assert(a[start] == text[0]);
    assert(text[0] == key[0]);
    lemma_first_index_is(start, a.len() as int, holds_char(a, '='), eq);
    assert forall|j: int| eq + 2 <= j < quote implies !#[trigger] holds_char(a, '"')(j) by {
        assert(a[j] == text[j - start]);
        assert(text[j - start] == value[j - eq - 2]);
    }
    assert(a[quote] == text[text.len() - 1]);
    lemma_first_index_is(eq + 2, a.len() as int, holds_char(a, '"'), quote);
    assert(holds_pair(a)(start));
    lemma_first_index_is(start, a.len() as int, holds_pair(a), start);
    assert(a.subrange(start, start + key.len()) =~= key) by {
        assert forall|k: int| 0 <= k < key.len() implies a.subrange(start, start + key.len())[k]
            == key[k] by {
            assert(a[start + k] == text[k]);
        }
    }
    assert(a.subrange(eq + 2, quote) =~= value) by {
        assert forall|k: int| 0 <= k < value.len() implies a.subrange(eq + 2, quote)[k] == value[k] by {
            assert(a[start + (key.len() + 2 + k)] == text[key.len() + 2 + k]);
        }
    }
}

/// Scanning a clause of plain pairs gives the pairs back. The clause stands
/// at the end of `a`, from `from` on, with or without the space before its
/// first pair.
pub proof fn lemma_raw_pairs_of_text(
    a: Seq<char>,
    from: int,
    pairs: Seq<(Seq<char>, Seq<char>)>,
    spaced: bool,
)
    requires
        0 <= from <= a.len(),
        are_plain_pairs(pairs),
        spaced || pairs.len() > 0,
        a.subrange(from, a.len() as int) == if spaced {
            attributes_text(pairs)
        } else {
            attributes_text(pairs).drop_first()
        },
    ensures
        raw_pairs(a, from) == pairs,
    decreases pairs.len(),
{
    if pairs.len() == 0 {
        assert(a.subrange(from, a.len() as int).len() == 0);
        assert(from == a.len());
        assert(raw_pairs(a, from) =~= pairs);
    } else {
        let key = pairs[0].0;
        let value = pairs[0].1;
        let rest = pairs.drop_first();
        assert(is_plain_key(key) && is_plain_value(value));
        lemma_attributes_text_first(pairs);
        let tail = attributes_text(rest);
        let raw_key = if spaced {
            seq![' '] + key
        } else {
            key
        };
        let item = raw_key + seq!['=', '"'] + value + seq!['"'];
        let here = a.subrange(from, a.len() as int);
        assert(here =~= item + tail) by {
            assert(attribute_text(key, value) =~= seq![' '] + (key + seq!['=', '"'] + value + seq![
                '"',
            ]));
            if spaced {
                assert(item =~= attribute_text(key, value));
            } else {
                assert((attribute_text(key, value) + tail).drop_first() =~= item + tail);
            }
        }
        assert(occurs_at(a, item, from)) by {
            assert(here.len() == a.len() - from);
            assert(here.len() == item.len() + tail.len());
            assert(a.subrange(from, from + item.len()) =~= here.subrange(0, item.len() as int));
            assert(here.subrange(0, item.len() as int) =~= item);
        }
        assert(lacks(raw_key, '=')) by {
            assert forall|i: int| 0 <= i < raw_key.len() implies raw_key[i] != '=' by {
                if spaced && i > 0 {
                    assert(raw_key[i] == key[i - 1]);
                }
            }
        }
        lemma_pair_found(a, from, raw_key, value);
        let eq = from + raw_key.len();
        let quote = eq + 2 + value.len();
        assert(trim(raw_key) == key) by {
            if spaced {
                lemma_trim_after_space(key);
            }
        }
        assert(trim(value) == value);
        assert(a.subrange(quote + 1, a.len() as int) =~= tail) by {
            assert(a.subrange(quote + 1, a.len() as int) =~= here.subrange(
                item.len() as int,
                here.len() as int,
            ));
        }
        assert(are_plain_pairs(rest)) by {
            assert forall|i: int| 0 <= i < rest.len() implies is_plain_key((#[trigger] rest[i]).0)
                && is_plain_value(rest[i].1) by {
                assert(rest[i] == pairs[i + 1]);
            }
        }
        lemma_raw_pairs_of_text(a, quote + 1, rest, true);
        assert(raw_pairs(a, from) == seq![(key, value)] + raw_pairs(a, quote + 1));
        assert(seq![(key, value)] + rest =~= pairs);
    }
}

/// Putting pairs with distinct keys, none of them in `acc`, appends them.
pub proof fn lemma_put_all_distinct(acc: Seq<(Seq<char>, Seq<char>)>, pairs: Seq<(Seq<char>, Seq<char>)>)
    requires
        distinct_keys(acc + pairs),
    ensures
        put_all(acc, pairs) == acc + pairs,
    decreases pairs.len(),
{
    if pairs.len() == 0 {
        assert(acc + pairs =~= acc);
    } else {
        let all = acc + pairs;
        let key = pairs[0].0;
        assert forall|j: int| 0 <= j < acc.len() implies !#[trigger] holds_key(acc, key)(j) by {
            assert(all[j] == acc[j]);
            assert(all[acc.len() as int] == pairs[0]);
            assert(all[j].0 != all[acc.len() as int].0);
        }
        lemma_first_index_none(0, acc.len() as int, holds_key(acc, key));
        let next = acc.push(pairs[0]);
        assert(put(acc, key, pairs[0].1) == next);
        assert(next + pairs.drop_first() =~= all);
        lemma_put_all_distinct(next, pairs.drop_first());
    }
}

/// Scanning the attribute clause that was written for plain pairs with
/// distinct keys gives the pairs back.
pub proof fn lemma_attributes_round_trip(pairs: Seq<(Seq<char>, Seq<char>)>)
    requires
        pairs.len() > 0,
        are_plain_pairs(pairs),
        distinct_keys(pairs),
    ensures
        attributes_in(attributes_text(pairs).drop_first()) == pairs,
{
    let a = attributes_text(pairs).drop_first();
    lemma_attributes_text_lacks_gt(pairs);
    assert(a.subrange(0, a.len() as int) =~= a);
    lemma_raw_pairs_of_text(a, 0, pairs, false);
    assert(Seq::<(Seq<char>, Seq<char>)>::empty() + pairs =~= pairs);
    lemma_put_all_distinct(Seq::empty(), pairs);
}

/// The text between the name and the `>` of the opening tag.
pub open spec fn clause_of(attributes: Option<Seq<(Seq<char>, Seq<char>)>>) -> Seq<char> {
    match attributes {
        Some(pairs) => attributes_text(pairs),
        None => Seq::empty(),
    }
}

/// The text between the opening and the closing tag.
pub open spec fn body_of(payload: Option<Seq<char>>) -> Seq<char> {
    match payload {
        Some(body) => body,
        None => Seq::empty(),
    }
}

/// The index at which the closing tag is written.
pub open spec fn close_index(invocation: InvocationView) -> int {
    (2 + invocation.action.len() + clause_of(invocation.attributes).len() + body_of(
        invocation.payload,
    ).len()) as int
}

/// Whether scanning the text written for an invocation can give it back.
///
/// The name holds no space and no `>`. The attributes, if there are any, are
/// one or more plain pairs with distinct keys. The payload, if there is one, is
/// not empty, has no outer white space and does not begin with `<`. And in the
/// written text the closing tag stands nowhere before its own place.
pub open spec fn is_recoverable(invocation: InvocationView) -> bool {
    &&& lacks(invocation.action, ' ')
    &&& lacks(invocation.action, '>')
    &&& invocation.attributes matches Some(pairs) ==> pairs.len() > 0 && are_plain_pairs(pairs)
        && distinct_keys(pairs)
    &&& invocation.payload matches Some(body) ==> body.len() > 0 && is_trimmed(body) && body[0]
        != '<'
    &&& forall|j: int|
        0 <= j < close_index(invocation) ==> !#[trigger] occurs_at(
            invocation_text(invocation),
            closing_tag(invocation.action),
            j,
        )
}

/// Where the parts of a written tag lie.
pub proof fn lemma_tag_text_layout(
    name: Seq<char>,
    attributes: Option<Seq<(Seq<char>, Seq<char>)>>,
    payload: Option<Seq<char>>,
)
    ensures
        ({
            let t = tag_text(name, attributes, payload);
            let n = name.len() as int;
            let gt = 1 + n + clause_of(attributes).len() as int;
            let close = gt + 1 + body_of(payload).len() as int;
            &&& t.len() == close + n + 3
            &&& t[0] == '<'
            &&& t.subrange(1, 1 + n) == name
            &&& t.subrange(1 + n, gt) == clause_of(attributes)
            &&& t[gt] == '>'
            &&& t.subrange(gt + 1, close) == body_of(payload)
            &&& t.subrange(close, t.len() as int) == closing_tag(name)
        }),
{
    let t = tag_text(name, attributes, payload);
    let clause = clause_of(attributes);
    let body = body_of(payload);
    let n = name.len() as int;
    let gt = 1 + n + clause.len() as int;
    let close = gt + 1 + body.len() as int;
    assert(closing_tag(name).len() == n + 3);
    assert(t =~= seq!['<'] + name + clause + seq!['>'] + body + closing_tag(name));
    assert(t.subrange(1, 1 + n) =~= name);
    assert(t.subrange(1 + n, gt) =~= clause);
    assert(t.subrange(gt + 1, close) =~= body);
    assert(t.subrange(close, t.len() as int) =~= closing_tag(name));
}

/// In the text written for a well-formed invocation, the closing tag stands
/// behind the payload and nowhere before.
pub proof fn lemma_closing_tag_is_first(invocation: InvocationView, j: int)
    requires
        is_well_formed(invocation),
        0 <= j < close_index(invocation),
    ensures
        !occurs_at(invocation_text(invocation), closing_tag(invocation.action), j),
{
    let name = invocation.action;
    let t = invocation_text(invocation);
    let clause = clause_of(invocation.attributes);
    let body = body_of(invocation.payload);
    let tag = closing_tag(name);
    let n = name.len() as int;
    let m = n + 3;
    let gt = 1 + n + clause.len() as int;
    let close = gt + 1 + body.len() as int;
    lemma_tag_text_layout(name, invocation.attributes, invocation.payload);
    assert(tag.len() == m);
    assert(tag[0] == '<' && tag[1] == '/' && tag[m - 1] == '>');
    assert forall|i: int| 0 <= i < n implies tag[2 + i] == name[i] by {}
    assert forall|k: int| 0 <= k < m - 1 implies tag[k] != '>' by {
        if k >= 2 {
            assert(tag[k] == name[k - 2]);
        }
    }
    assert forall|k: int| 1 <= k < m implies tag[k] != '<' by {
        if 2 <= k < m - 1 {
            assert(tag[k] == name[k - 2]);
        }
    }
    match invocation.attributes {
        Some(pairs) => {
            lemma_attributes_text_lacks_gt(pairs);
        },
        None => {},
    }
    assert forall|i: int| 0 <= i < gt implies t[i] != '>' by {
        if i == 0 {
        } else if i < 1 + n {
            assert(t.subrange(1, 1 + n)[i - 1] == name[i - 1]);
        } else {
            assert(t.subrange(1 + n, gt)[i - 1 - n] == clause[i - 1 - n]);
        }
    }
    if occurs_at(t, tag, j) {
        assert forall|k: int| 0 <= k < m implies t[j + k] == tag[k] by {
            assert(t.subrange(j, j + m)[k] == tag[k]);
        }
        if j + m - 1 < gt {
            assert(t[j + m - 1] == tag[m - 1]);
        } else if j <= gt {
            let k = gt - j;
            assert(t[j + k] == tag[k]);
            assert(k == m - 1);
            assert(clause.len() >= 1);
            assert(t.subrange(1 + n, gt)[clause.len() - 1] == clause.last());
            assert(t[gt - 1] == '"');
            assert(t[j + (m - 2)] == tag[m - 2]);
            if n >= 1 {
                assert(tag[m - 2] == name[n - 1]);
            }
        } else {
            let i = j - gt - 1;
            if j + m <= close {
                assert forall|k: int| 0 <= k < m implies #[trigger] body[i + k] == tag[k] by {
                    assert(t.subrange(gt + 1, close)[i + k] == body[i + k]);
                    assert(t[j + k] == tag[k]);
                }
                assert(body.subrange(i, i + m) =~= tag);
                assert(occurs_at(body, tag, i));
            } else {
                let k = close - j;
                assert(t[j + k] == tag[k]);
                assert(t.subrange(close, t.len() as int)[0] == tag[0]);
            }
        }
    }
}

/// A well-formed invocation is recoverable.
pub proof fn lemma_well_formed_is_recoverable(invocation: InvocationView)
    requires
        is_well_formed(invocation),
    ensures
        is_recoverable(invocation),
{
    assert forall|j: int| 0 <= j < close_index(invocation) implies !#[trigger] occurs_at(
        invocation_text(invocation),
        closing_tag(invocation.action),
        j,
    ) by {
        lemma_closing_tag_is_first(invocation, j);
    }
}

/// Writing a well-formed invocation and scanning the text gives exactly that
/// invocation back.
pub proof fn lemma_well_formed_round_trip(invocation: InvocationView)
    requires
        is_well_formed(invocation),
    ensures
        invocations_in(invocation_text(invocation)) == seq![invocation],
{
    lemma_well_formed_is_recoverable(invocation);
    lemma_round_trip(invocation);
}

/// Writing a recoverable invocation and scanning the text gives exactly that
/// invocation back.
pub proof fn lemma_round_trip(invocation: InvocationView)
    requires
        is_recoverable(invocation),
    ensures
        invocations_in(invocation_text(invocation)) == seq![invocation],
{
    let name = invocation.action;
    let t = invocation_text(invocation);
    let clause = clause_of(invocation.attributes);
    let body = body_of(invocation.payload);
    let tag = closing_tag(name);
    let n = name.len() as int;
    let m = n + 3;
    let term = 1 + n;
    let gt = 1 + n + clause.len() as int;
    let close = gt + 1 + body.len() as int;
    lemma_tag_text_layout(name, invocation.attributes, invocation.payload);
    assert(tag.len() == m);
    match invocation.attributes {
        Some(pairs) => {
            lemma_attributes_text_lacks_gt(pairs);
        },
        None => {},
    }
    assert forall|i: int| 0 <= i < n implies t[1 + i] == name[i] by {
        assert(t.subrange(1, 1 + n)[i] == name[i]);
    }
    assert forall|i: int| 0 <= i < clause.len() implies t[1 + n + i] == clause[i] by {
        assert(t.subrange(1 + n, gt)[i] == clause[i]);
    }
    // the tag opens at the first character
    assert(holds_char(t, '<')(0));
    lemma_first_index_is(0, t.len() as int, holds_char(t, '<'), 0);
    // the name ends where the clause or the `>` begins
    assert(holds_terminator(t)(term)) by {
        if clause.len() > 0 {
            assert(t[1 + n + 0] == clause[0]);
        }
    }
    assert forall|i: int| 0 <= i < term implies !#[trigger] holds_terminator(t)(i) by {
        if i > 0 {
            assert(t[1 + (i - 1)] == name[i - 1]);
        }
    }
    lemma_first_index_is(0, t.len() as int, holds_terminator(t), term);
    // the opening tag ends behind the clause
    assert forall|i: int| 0 <= i < gt implies !#[trigger] holds_char(t, '>')(i) by {
        if i == 0 {
        } else if i < 1 + n {
            assert(t[1 + (i - 1)] == name[i - 1]);
        } else {
            assert(t[1 + n + (i - 1 - n)] == clause[i - 1 - n]);
        }
    }
    lemma_first_index_is(0, t.len() as int, holds_char(t, '>'), gt);
    // the closing tag is found behind the payload
    assert(t.subrange(1, term) == name);
    assert(occurs_at(t, tag, close));
    assert forall|j: int| 0 <= j < close implies !#[trigger] holds_pattern(t, tag)(j) by {
        assert(!occurs_at(t, tag, j));
    }
    lemma_first_index_is(0, t.len() as int, holds_pattern(t, tag), close);
    // the attributes
    let attributes = if t[term] == ' ' {
        Some(attributes_in(t.subrange(term + 1, gt)))
    } else {
        None
    };
    assert(attributes == invocation.attributes) by {
        match invocation.attributes {
            Some(pairs) => {
                assert(t[1 + n + 0] == clause[0]);
                assert(t.subrange(term + 1, gt) =~= clause.drop_first());
                lemma_attributes_round_trip(pairs);
            },
            None => {
                assert(term == gt);
            },
        }
    }
    // the payload
    let payload = if gt + 1 <= close {
        payload_in(t.subrange(gt + 1, close))
    } else {
        None
    };
    assert(payload == invocation.payload) by {
        match invocation.payload {
            Some(b) => {
                lemma_trim_of_trimmed(b);
            },
            None => {},
        }
    }
    let found = InvocationView { action: name, attributes, payload };
    assert(found == invocation);
    assert(tag_at(t, 0) == Some((found, close + m)));
    // nothing follows
    assert(close + m == t.len());
    assert(invocations_from(t, t.len() as int) =~= Seq::<InvocationView>::empty());
    assert(invocations_from(t, 0) =~= seq![invocation] + invocations_from(t, t.len() as int));
}

} // verus!
