//! One detected call of an action: its name, its attributes and its payload.

use vstd::prelude::*;

use crate::keyed::holds_key_by;
use crate::keyed::index_by;
use crate::keyed::lemma_set_by;
use crate::text::first_index;
use crate::text::lemma_first_index_is;
use crate::text::lemma_first_index_none;

verus! {

/// Whether `pairs` holds `key` at index `i`.
pub open spec fn holds_key(pairs: Seq<(Seq<char>, Seq<char>)>, key: Seq<char>) -> spec_fn(int) -> bool {
    |i: int| 0 <= i < pairs.len() && pairs[i].0 == key
}

/// The index of the first pair of `pairs` whose key is `key`.
pub open spec fn key_index(pairs: Seq<(Seq<char>, Seq<char>)>, key: Seq<char>) -> Option<int> {
    first_index(0, pairs.len() as int, holds_key(pairs, key))
}

/// The value that `pairs` holds for `key`.
pub open spec fn value_of(pairs: Seq<(Seq<char>, Seq<char>)>, key: Seq<char>) -> Option<Seq<char>> {
    match key_index(pairs, key) {
        Some(i) => Some(pairs[i].1),
        None => None,
    }
}

/// Whether no key occurs twice in `pairs`.
pub open spec fn distinct_keys(pairs: Seq<(Seq<char>, Seq<char>)>) -> bool {
    forall|i: int, j: int| 0 <= i < j < pairs.len() ==> (#[trigger] pairs[i]).0 != (#[trigger] pairs[j]).0
}

/// `pairs` after `key` is set to `value`: a key that is present keeps its
/// place and gets the new value, a new key goes to the end.
pub open spec fn put(pairs: Seq<(Seq<char>, Seq<char>)>, key: Seq<char>, value: Seq<char>) -> Seq<
    (Seq<char>, Seq<char>),
> {
    match key_index(pairs, key) {
        Some(i) => pairs.update(i, (key, value)),
        None => pairs.push((key, value)),
    }
}

/// `acc` after every pair of `pairs` is put into it, first to last.
pub open spec fn put_all(acc: Seq<(Seq<char>, Seq<char>)>, pairs: Seq<(Seq<char>, Seq<char>)>) -> Seq<
    (Seq<char>, Seq<char>),
>
    decreases pairs.len(),
{
    if pairs.len() == 0 {
        acc
    } else {
        put_all(put(acc, pairs[0].0, pairs[0].1), pairs.drop_first())
    }
}

/// The key of a pair.
pub open spec fn pair_key() -> spec_fn((Seq<char>, Seq<char>)) -> Seq<char> {
    |pair: (Seq<char>, Seq<char>)| pair.0
}

/// The index of a key is the index by the key of a pair.
pub proof fn lemma_key_index_by(pairs: Seq<(Seq<char>, Seq<char>)>, key: Seq<char>)
    ensures
        key_index(pairs, key) == index_by(pairs, pair_key(), key),
{
    assert(holds_key(pairs, key) =~= holds_key_by(pairs, pair_key(), key));
}

/// Putting a pair keeps the keys distinct.
pub proof fn lemma_put_distinct(pairs: Seq<(Seq<char>, Seq<char>)>, key: Seq<char>, value: Seq<char>)
    requires
        distinct_keys(pairs),
    ensures
        distinct_keys(put(pairs, key, value)),
        value_of(put(pairs, key, value), key) == Some(value),
        forall|other: Seq<char>| other != key ==> value_of(put(pairs, key, value), other) == value_of(pairs, other),
{
    let after = put(pairs, key, value);
    lemma_key_index_by(pairs, key);
    lemma_key_index_by(after, key);
    lemma_set_by(pairs, pair_key(), (key, value));
    assert forall|other: Seq<char>| other != key implies value_of(after, other) == value_of(
        pairs,
        other,
    ) by {
        lemma_key_index_by(pairs, other);
        lemma_key_index_by(after, other);
    }
}

/// Putting pairs one after the other keeps the keys distinct.
pub proof fn lemma_put_all_distinct_keys(
    acc: Seq<(Seq<char>, Seq<char>)>,
    pairs: Seq<(Seq<char>, Seq<char>)>,
)
    requires
        distinct_keys(acc),
    ensures
        distinct_keys(put_all(acc, pairs)),
    decreases pairs.len(),
{
    if pairs.len() > 0 {
        lemma_put_distinct(acc, pairs[0].0, pairs[0].1);
        lemma_put_all_distinct_keys(put(acc, pairs[0].0, pairs[0].1), pairs.drop_first());
    }
}

/// The attributes of an invocation: a mapping from names to values that keeps
/// the order in which the names first came.
#[derive(Debug, Clone)]
pub struct Attributes {
    pairs: Vec<(String, String)>,
}

impl View for Attributes {
    type V = Seq<(Seq<char>, Seq<char>)>;

    closed spec fn view(&self) -> Seq<(Seq<char>, Seq<char>)> {
        Seq::new(self.pairs@.len(), |i: int| (self.pairs@[i].0@, self.pairs@[i].1@))
    }
}

impl Attributes {
    /// Whether the mapping is well formed: it holds no name twice.
    pub open spec fn wf(&self) -> bool {
        distinct_keys(self@)
    }

    /// An empty mapping.
    pub fn new() -> (attributes: Attributes)
        ensures
            attributes@ == Seq::<(Seq<char>, Seq<char>)>::empty(),
            attributes.wf(),
    {
        let attributes = Attributes { pairs: Vec::new() };
        assert(attributes@ =~= Seq::<(Seq<char>, Seq<char>)>::empty());
        attributes
    }

    /// The number of names.
    pub fn len(&self) -> (n: usize)
        ensures
            n == self@.len(),
    {
        self.pairs.len()
    }

    /// Whether the mapping holds no name.
    pub fn is_empty(&self) -> (empty: bool)
        ensures
            empty == (self@.len() == 0),
    {
        self.pairs.len() == 0
    }

    /// The place of `key` among the names.
    fn position(&self, key: &String) -> (found: Option<usize>)
        ensures
            match found {
                Some(i) => key_index(self@, key@) == Some(i as int) && i < self.pairs.len(),
                None => key_index(self@, key@) is None,
            },
    {
        let mut i: usize = 0;
        while i < self.pairs.len()
            invariant
                i <= self.pairs.len(),
                forall|j: int| 0 <= j < i ==> !#[trigger] holds_key(self@, key@)(j),
            decreases self.pairs.len() - i,
        {
            if self.pairs[i].0 == *key {
                proof {
                    lemma_first_index_is(0, self@.len() as int, holds_key(self@, key@), i as int);
                }
                return Some(i);
            }
            i += 1;
        }
        proof {
            lemma_first_index_none(0, self@.len() as int, holds_key(self@, key@));
        }
        None
    }

    /// Sets `key` to `value` and returns the value that `key` had.
    pub fn insert(&mut self, key: String, value: String) -> (previous: Option<String>)
        requires
            old(self).wf(),
        ensures
            final(self).wf(),
            final(self)@ == put(old(self)@, key@, value@),
            match previous {
                Some(v) => value_of(old(self)@, key@) == Some(v@),
                None => value_of(old(self)@, key@) is None,
            },
    {
        proof {
            lemma_put_distinct(self@, key@, value@);
        }
        let ghost before = self@;
        match self.position(&key) {
            Some(i) => {
                let previous = self.pairs[i].1.clone();
                self.pairs.set(i, (key, value));
                assert(self@ =~= put(before, key@, value@));
                Some(previous)
            },
            None => {
                self.pairs.push((key, value));
                assert(self@ =~= put(before, key@, value@));
                None
            },
        }
    }

    /// A mapping that holds the same names with the same values, in the same
    /// order.
    pub fn duplicate(&self) -> (copy: Attributes)
        ensures
            copy@ == self@,
    {
        let mut pairs: Vec<(String, String)> = Vec::new();
        let mut i: usize = 0;
        while i < self.pairs.len()
            invariant
                i <= self.pairs.len(),
                pairs@.len() == i,
                forall|j: int|
                    0 <= j < i ==> (#[trigger] pairs@[j]).0@ == self.pairs@[j].0@ && pairs@[j].1@
                        == self.pairs@[j].1@,
            decreases self.pairs.len() - i,
        {
            pairs.push((self.pairs[i].0.clone(), self.pairs[i].1.clone()));
            i += 1;
        }
        let copy = Attributes { pairs };
        assert(copy@ =~= self@);
        copy
    }

    /// The value of `key`.
    pub fn get(&self, key: &str) -> (value: Option<&String>)
        ensures
            match value {
                Some(v) => value_of(self@, key@) == Some(v@),
                None => value_of(self@, key@) is None,
            },
    {
        let owned = key.to_owned();
        match self.position(&owned) {
            Some(i) => Some(&self.pairs[i].1),
            None => None,
        }
    }

    /// The name and value at place `i`, in the order in which the names came.
    pub fn get_index(&self, i: usize) -> (pair: Option<(&String, &String)>)
        ensures
            match pair {
                Some((k, v)) => i < self@.len() && (k@, v@) == self@[i as int],
                None => i >= self@.len(),
            },
    {
        if i < self.pairs.len() {
            Some((&self.pairs[i].0, &self.pairs[i].1))
        } else {
            None
        }
    }
}

/// One detected call of an action.
#[derive(Debug, Clone)]
pub struct Invocation {
    /// The name of the action; no catalogue is consulted.
    pub action: String,
    /// The attributes of the opening tag, if it had an attribute clause.
    pub attributes: Option<Attributes>,
    /// The trimmed body of the tag, if it had one.
    pub payload: Option<String>,
}

/// What an invocation holds, as plain sequences.
pub struct InvocationView {
    pub action: Seq<char>,
    pub attributes: Option<Seq<(Seq<char>, Seq<char>)>>,
    pub payload: Option<Seq<char>>,
}

impl View for Invocation {
    type V = InvocationView;

    open spec fn view(&self) -> InvocationView {
        InvocationView {
            action: self.action@,
            attributes: match self.attributes {
                Some(a) => Some(a@),
                None => None,
            },
            payload: match self.payload {
                Some(p) => Some(p@),
                None => None,
            },
        }
    }
}

impl Invocation {
    /// An invocation of `action` with the given attributes and payload.
    pub fn new(action: String, attributes: Option<Attributes>, payload: Option<String>) -> (invocation:
        Invocation)
        ensures
            invocation.action == action,
            invocation.attributes == attributes,
            invocation.payload == payload,
    {
        Invocation { action, attributes, payload }
    }
}

/// Whether the attributes of an invocation, if it has any, hold no name twice.
pub open spec fn attributes_wf(invocation: Invocation) -> bool {
    invocation.attributes matches Some(a) ==> a.wf()
}

/// The views of a sequence of invocations.
pub open spec fn views(invocations: Seq<Invocation>) -> Seq<InvocationView> {
    Seq::new(invocations.len(), |i: int| invocations[i]@)
}

} // verus!
