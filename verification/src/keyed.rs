//! Sequences whose elements are found by a key: what setting an element does
//! to the order, to the keys and to what is found under each key.

use vstd::prelude::*;

use crate::text::first_index;
use crate::text::lemma_first_index;
use crate::text::lemma_first_index_is;
use crate::text::lemma_first_index_none;

verus! {

/// Whether `s` holds an element of key `key` at index `i`.
pub open spec fn holds_key_by<E, K>(s: Seq<E>, key_of: spec_fn(E) -> K, key: K) -> spec_fn(int) -> bool {
    |i: int| 0 <= i < s.len() && key_of(s[i]) == key
}

/// The index of the first element of `s` whose key is `key`.
pub open spec fn index_by<E, K>(s: Seq<E>, key_of: spec_fn(E) -> K, key: K) -> Option<int> {
    first_index(0, s.len() as int, holds_key_by(s, key_of, key))
}

/// Whether no two elements of `s` have the same key.
pub open spec fn distinct_by<E, K>(s: Seq<E>, key_of: spec_fn(E) -> K) -> bool {
    forall|i: int, j: int| 0 <= i < j < s.len() ==> key_of(#[trigger] s[i]) != key_of(#[trigger] s[j])
}

/// `s` after `e` is set: an element of the same key is replaced in its
/// place, else `e` goes to the end.
pub open spec fn set_by<E, K>(s: Seq<E>, key_of: spec_fn(E) -> K, e: E) -> Seq<E> {
    match index_by(s, key_of, key_of(e)) {
        Some(i) => s.update(i, e),
        None => s.push(e),
    }
}

/// Setting an element keeps the keys distinct, is found under its key, and
/// leaves every other key where it was, with what it had.
pub proof fn lemma_set_by<E, K>(s: Seq<E>, key_of: spec_fn(E) -> K, e: E)
    requires
        distinct_by(s, key_of),
    ensures
        distinct_by(set_by(s, key_of, e), key_of),
        index_by(set_by(s, key_of, e), key_of, key_of(e)) matches Some(i) && set_by(s, key_of, e)[i]
            == e,
        set_by(s, key_of, e).len() == if index_by(s, key_of, key_of(e)) is Some {
            s.len()
        } else {
            s.len() + 1
        },
        forall|j: int|
            0 <= j < set_by(s, key_of, e).len() ==> #[trigger] set_by(s, key_of, e)[j] == e || (j
                < s.len() && set_by(s, key_of, e)[j] == s[j]),
        forall|other: K|
            other != key_of(e) ==> #[trigger] index_by(set_by(s, key_of, e), key_of, other)
                == index_by(s, key_of, other) && (index_by(s, key_of, other) matches Some(i)
                ==> set_by(s, key_of, e)[i] == s[i]),
{
    let key = key_of(e);
    let after = set_by(s, key_of, e);
    lemma_first_index(0, s.len() as int, holds_key_by(s, key_of, key));
    match index_by(s, key_of, key) {
        Some(i) => {
            assert forall|a: int, b: int| 0 <= a < b < after.len() implies key_of(#[trigger] after[a])
                != key_of(#[trigger] after[b]) by {
                if a == i {
                    assert(!holds_key_by(s, key_of, key)(b)) by {
                        assert(key_of(s[i]) != key_of(s[b]));
                    }
                } else if b == i {
                    assert(key_of(s[a]) != key_of(s[i]));
                } else {
                    assert(key_of(s[a]) != key_of(s[b]));
                }
            }
            assert forall|j: int| 0 <= j < i implies !#[trigger] holds_key_by(after, key_of, key)(
                j,
            ) by {
                assert(!holds_key_by(s, key_of, key)(j));
            }
            lemma_first_index_is(0, after.len() as int, holds_key_by(after, key_of, key), i);
        },
        None => {
            assert forall|a: int, b: int| 0 <= a < b < after.len() implies key_of(#[trigger] after[a])
                != key_of(#[trigger] after[b]) by {
                if b == s.len() {
                    assert(!holds_key_by(s, key_of, key)(a));
                } else {
                    assert(key_of(s[a]) != key_of(s[b]));
                }
            }
            assert forall|j: int| 0 <= j < s.len() implies !#[trigger] holds_key_by(
                after,
                key_of,
                key,
            )(j) by {
                assert(!holds_key_by(s, key_of, key)(j));
            }
            lemma_first_index_is(
                0,
                after.len() as int,
                holds_key_by(after, key_of, key),
                s.len() as int,
            );
        },
    }
    assert forall|other: K| other != key implies #[trigger] index_by(after, key_of, other)
        == index_by(s, key_of, other) && (index_by(s, key_of, other) matches Some(i) ==> after[i]
        == s[i]) by {
        lemma_first_index(0, s.len() as int, holds_key_by(s, key_of, other));
        match index_by(s, key_of, other) {
            Some(k) => {
                assert forall|j: int| 0 <= j < k implies !#[trigger] holds_key_by(
                    after,
                    key_of,
                    other,
                )(j) by {
                    assert(!holds_key_by(s, key_of, other)(j));
                }
                lemma_first_index_is(0, after.len() as int, holds_key_by(after, key_of, other), k);
            },
            None => {
                assert forall|j: int| 0 <= j < after.len() implies !#[trigger] holds_key_by(
                    after,
                    key_of,
                    other,
                )(j) by {
                    if j < s.len() {
                        assert(!holds_key_by(s, key_of, other)(j));
                    }
                }
                lemma_first_index_none(0, after.len() as int, holds_key_by(after, key_of, other));
            },
        }
    }
}

} // verus!
