//! Named stores of the agent's working memory.
//!
//! A store is created with a discipline and keeps it. Its entries are held in
//! the order in which their keys first came. An operation is for one
//! discipline only; calling it on a store of another is ruled out by its
//! precondition.

use indexmap::IndexMap;
use vstd::prelude::*;

use crate::keyed::holds_key_by;
use crate::keyed::index_by;
use crate::keyed::lemma_set_by;
use crate::ordered::entries_of;
use crate::ordered::holds_slot;
use crate::ordered::map_clear;
use crate::ordered::map_get;
use crate::ordered::map_get_index;
use crate::ordered::map_insert;
use crate::ordered::map_len;
use crate::ordered::map_new;
use crate::ordered::map_shift_remove;
use crate::ordered::slot_index;
use crate::ordered::upsert;
use crate::ordered::without;
use crate::text::decimal;
use crate::text::decimal_string;
use crate::text::lemma_decimal_injective;
use crate::text::lemma_first_index;
use crate::text::lemma_first_index_is;
use crate::text::lemma_first_index_none;
use crate::serializer::push_text;
use crate::text::trim;
use crate::text::trimmed;

verus! {

/// The fixed access pattern of a store.
#[derive(Debug, Clone, Copy, PartialEq, Eq, Structural)]
pub enum StorageType {
    /// An ordered list whose elements are addressed by their position.
    Untagged,
    /// A key=value store.
    Tagged,
    /// A single current state with an optional previous state.
    CurrentPrevious,
    /// A list whose elements also carry a completion flag.
    Completion,
}

impl StorageType {
    /// The numeric code of a discipline.
    pub open spec fn code(self) -> u8 {
        match self {
            StorageType::CurrentPrevious => 0,
            StorageType::Untagged => 1,
            StorageType::Tagged => 2,
            StorageType::Completion => 3,
        }
    }

    /// Returns the numeric code of this discipline.
    pub fn as_u8(&self) -> (code: u8)
        ensures
            code == self.code(),
    {
        match self {
            StorageType::CurrentPrevious => 0,
            StorageType::Untagged => 1,
            StorageType::Tagged => 2,
            StorageType::Completion => 3,
        }
    }

    /// Distinct disciplines have distinct codes.
    pub proof fn lemma_code_injective(a: StorageType, b: StorageType)
        requires
            a.code() == b.code(),
        ensures
            a == b,
    {
    }
}

/// A stored value.
#[derive(Debug)]
pub struct Entry {
    /// The text of the value.
    pub data: String,
    /// Whether the value is marked complete; read by stores of the
    /// completion discipline only.
    pub complete: bool,
}

impl Entry {
    /// An entry that holds `data` and is not complete.
    pub fn new(data: String) -> (entry: Entry)
        ensures
            entry.data == data,
            !entry.complete,
    {
        Entry { data, complete: false }
    }
}

/// The key under which a store of the current/previous discipline holds its
/// current value.
pub open spec fn current_key() -> Seq<char> {
    "__current"@
}

/// The key under which a store of the current/previous discipline holds its
/// previous value.
pub open spec fn previous_key() -> Seq<char> {
    "__previous"@
}

/// Whether no key occurs twice in `entries`.
pub open spec fn distinct_slots(entries: Seq<(Seq<char>, Seq<char>, bool)>) -> bool {
    forall|i: int, j: int|
        0 <= i < j < entries.len() ==> (#[trigger] entries[i]).0 != (#[trigger] entries[j]).0
}

/// The text that `entries` holds for `key`.
pub open spec fn data_of(entries: Seq<(Seq<char>, Seq<char>, bool)>, key: Seq<char>) -> Option<
    Seq<char>,
> {
    match slot_index(entries, key) {
        Some(i) => Some(entries[i].1),
        None => None,
    }
}

/// Whether `key` is the numeral of a position from 1 to `appended`.
pub open spec fn is_position(key: Seq<char>, appended: nat) -> bool {
    exists|p: nat| 1 <= p <= appended && key == #[trigger] decimal(p)
}

/// What a store holds.
pub struct StorageView {
    /// The name of the store.
    pub name: Seq<char>,
    /// The discipline of the store.
    pub kind: StorageType,
    /// The entries in their order: key, text, completion flag.
    pub entries: Seq<(Seq<char>, Seq<char>, bool)>,
    /// The number of positions given out since the store was created or
    /// last cleared.
    pub appended: nat,
}

impl StorageView {
    /// Whether this is what a store can hold.
    ///
    /// No key occurs twice. Only a store of the completion discipline holds
    /// entries that are complete. The keys of a positional store are numerals
    /// of positions that were given out. A store of the current/previous
    /// discipline holds the two reserved keys at most, and a previous value
    /// only beside a current one.
    pub open spec fn wf(self) -> bool {
        &&& distinct_slots(self.entries)
        &&& self.kind != StorageType::Completion ==> forall|i: int|
            0 <= i < self.entries.len() ==> !(#[trigger] self.entries[i]).2
        &&& self.kind == StorageType::Untagged ==> forall|i: int|
            0 <= i < self.entries.len() ==> is_position(
                (#[trigger] self.entries[i]).0,
                self.appended,
            )
        &&& self.kind == StorageType::CurrentPrevious ==> {
            &&& forall|i: int|
                0 <= i < self.entries.len() ==> (#[trigger] self.entries[i]).0 == current_key()
                    || self.entries[i].0 == previous_key()
            &&& data_of(self.entries, previous_key()) is Some ==> data_of(
                self.entries,
                current_key(),
            ) is Some
        }
    }

    /// A store of the given name and discipline, without entries.
    pub open spec fn empty(name: Seq<char>, kind: StorageType) -> StorageView {
        StorageView { name, kind, entries: Seq::empty(), appended: 0 }
    }

    /// The store after `data` was appended under the next position.
    pub open spec fn with_appended(self, data: Seq<char>) -> StorageView {
        StorageView {
            entries: self.entries.push((decimal(self.appended + 1), data, false)),
            appended: self.appended + 1,
            ..self
        }
    }

    /// The store after every text of `texts` was appended, first to last.
    pub open spec fn with_all_appended(self, texts: Seq<Seq<char>>) -> StorageView
        decreases texts.len(),
    {
        if texts.len() == 0 {
            self
        } else {
            self.with_all_appended(texts.drop_last()).with_appended(texts.last())
        }
    }

    /// The current value of a store of the current/previous discipline.
    pub open spec fn current(self) -> Option<Seq<char>> {
        data_of(self.entries, current_key())
    }

    /// The previous value of a store of the current/previous discipline.
    pub open spec fn previous(self) -> Option<Seq<char>> {
        data_of(self.entries, previous_key())
    }
}

/// A named store with a fixed discipline.
#[derive(Debug)]
pub struct Storage {
    name: String,
    type_: StorageType,
    inner: IndexMap<String, Entry>,
    appended: usize,
}

impl View for Storage {
    type V = StorageView;

    closed spec fn view(&self) -> StorageView {
        StorageView {
            name: self.name@,
            kind: self.type_,
            entries: entries_of(self.inner),
            appended: self.appended as nat,
        }
    }
}

/// The key of an entry.
pub open spec fn slot_key() -> spec_fn((Seq<char>, Seq<char>, bool)) -> Seq<char> {
    |entry: (Seq<char>, Seq<char>, bool)| entry.0
}

/// The index of a key is the index by the key of an entry.
pub proof fn lemma_slot_index_by(entries: Seq<(Seq<char>, Seq<char>, bool)>, key: Seq<char>)
    ensures
        slot_index(entries, key) == index_by(entries, slot_key(), key),
{
    assert(holds_slot(entries, key) =~= holds_key_by(entries, slot_key(), key));
}

/// Upserting keeps the keys distinct, and says where the key is found.
pub proof fn lemma_upsert(
    entries: Seq<(Seq<char>, Seq<char>, bool)>,
    key: Seq<char>,
    data: Seq<char>,
    complete: bool,
)
    requires
        distinct_slots(entries),
    ensures
        distinct_slots(upsert(entries, key, data, complete)),
        data_of(upsert(entries, key, data, complete), key) == Some(data),
        upsert(entries, key, data, complete).len() == if slot_index(entries, key) is Some {
            entries.len()
        } else {
            entries.len() + 1
        },
        forall|j: int|
            0 <= j < upsert(entries, key, data, complete).len() ==> #[trigger] upsert(
                entries,
                key,
                data,
                complete,
            )[j] == (key, data, complete) || (j < entries.len() && upsert(
                entries,
                key,
                data,
                complete,
            )[j] == entries[j]),
        forall|other: Seq<char>|
            other != key ==> slot_index(upsert(entries, key, data, complete), other) == slot_index(
                entries,
                other,
            ),
        forall|other: Seq<char>|
            other != key ==> data_of(upsert(entries, key, data, complete), other) == data_of(
                entries,
                other,
            ),
{
    let after = upsert(entries, key, data, complete);
    lemma_slot_index_by(entries, key);
    lemma_slot_index_by(after, key);
    lemma_set_by(entries, slot_key(), (key, data, complete));
    assert forall|other: Seq<char>| other != key implies slot_index(after, other) == slot_index(
        entries,
        other,
    ) && data_of(after, other) == data_of(entries, other) by {
        lemma_slot_index_by(entries, other);
        lemma_slot_index_by(after, other);
    }
}

/// Removing a key keeps the keys distinct, leaves the key absent and the
/// other keys with what they had.
pub proof fn lemma_without(entries: Seq<(Seq<char>, Seq<char>, bool)>, key: Seq<char>)
    requires
        distinct_slots(entries),
    ensures
        distinct_slots(without(entries, key)),
        slot_index(without(entries, key), key) is None,
        forall|other: Seq<char>|
            other != key ==> data_of(without(entries, key), other) == data_of(entries, other),
        forall|j: int|
            0 <= j < without(entries, key).len() ==> exists|k: int|
                0 <= k < entries.len() && entries[k] == #[trigger] without(entries, key)[j],
{
    let after = without(entries, key);
    lemma_first_index(0, entries.len() as int, holds_slot(entries, key));
    match slot_index(entries, key) {
        Some(i) => {
            assert forall|j: int| 0 <= j < after.len() implies exists|k: int|
                0 <= k < entries.len() && entries[k] == #[trigger] after[j] by {
                if j < i {
                    assert(after[j] == entries[j]);
                } else {
                    assert(after[j] == entries[j + 1]);
                }
            }
            assert forall|a: int, b: int| 0 <= a < b < after.len() implies (#[trigger] after[a]).0 != (
            #[trigger] after[b]).0 by {
                let a0 = if a < i {
                    a
                } else {
                    a + 1
                };
                let b0 = if b < i {
                    b
                } else {
                    b + 1
                };
                assert(after[a] == entries[a0]);
                assert(after[b] == entries[b0]);
            }
            assert forall|j: int| 0 <= j < after.len() implies !#[trigger] holds_slot(after, key)(
                j,
            ) by {
                if j < i {
                    assert(!holds_slot(entries, key)(j));
                } else {
                    assert(after[j] == entries[j + 1]);
                    assert(entries[i].0 != entries[j + 1].0);
                }
            }
            lemma_first_index_none(0, after.len() as int, holds_slot(after, key));
            assert forall|other: Seq<char>| other != key implies data_of(after, other) == data_of(
                entries,
                other,
            ) by {
                lemma_first_index(0, entries.len() as int, holds_slot(entries, other));
                match slot_index(entries, other) {
                    Some(k) => {
                        let k1 = if k < i {
                            k
                        } else {
                            k - 1
                        };
                        assert(after[k1] == entries[k]);
                        assert forall|j: int| 0 <= j < k1 implies !#[trigger] holds_slot(
                            after,
                            other,
                        )(j) by {
                            if j < i {
                                assert(!holds_slot(entries, other)(j));
                            } else {
                                assert(after[j] == entries[j + 1]);
                                assert(!holds_slot(entries, other)(j + 1));
                            }
                        }
                        lemma_first_index_is(0, after.len() as int, holds_slot(after, other), k1);
                    },
                    None => {
                        assert forall|j: int| 0 <= j < after.len() implies !#[trigger] holds_slot(
                            after,
                            other,
                        )(j) by {
                            if j < i {
                                assert(!holds_slot(entries, other)(j));
                            } else {
                                assert(after[j] == entries[j + 1]);
                                assert(!holds_slot(entries, other)(j + 1));
                            }
                        }
                        lemma_first_index_none(0, after.len() as int, holds_slot(after, other));
                    },
                }
            }
        },
        None => {
            assert forall|j: int| 0 <= j < after.len() implies exists|k: int|
                0 <= k < entries.len() && entries[k] == #[trigger] after[j] by {
                assert(after[j] == entries[j]);
            }
        },
    }
}

/// The position that the next append gives out is held by no entry, whatever
/// was removed before: a position is not used again.
pub proof fn lemma_next_position_is_fresh(store: StorageView)
    requires
        store.wf(),
        store.kind == StorageType::Untagged,
    ensures
        slot_index(store.entries, decimal(store.appended + 1)) is None,
        forall|p: nat| 1 <= p <= store.appended ==> decimal(store.appended + 1) != #[trigger] decimal(p),
{
    let entries = store.entries;
    let tag = decimal(store.appended + 1);
    assert forall|p: nat| 1 <= p <= store.appended implies tag != #[trigger] decimal(p) by {
        if tag == decimal(p) {
            lemma_decimal_injective(store.appended + 1, p);
        }
    }
    assert forall|j: int| 0 <= j < entries.len() implies !#[trigger] holds_slot(entries, tag)(j) by {
        assert(is_position(entries[j].0, store.appended));
    }
    lemma_first_index_none(0, entries.len() as int, holds_slot(entries, tag));
}

/// Appending keeps a positional store well formed.
pub proof fn lemma_with_appended_wf(store: StorageView, data: Seq<char>)
    requires
        store.wf(),
        store.kind == StorageType::Untagged,
    ensures
        store.with_appended(data).wf(),
        store.with_appended(data).entries == upsert(
            store.entries,
            decimal(store.appended + 1),
            data,
            false,
        ),
{
    let entries = store.entries;
    let tag = decimal(store.appended + 1);
    let after = store.with_appended(data).entries;
    lemma_next_position_is_fresh(store);
    lemma_upsert(entries, tag, data, false);
    assert forall|i: int| 0 <= i < after.len() implies is_position(
        (#[trigger] after[i]).0,
        store.appended + 1,
    ) by {
        if i < entries.len() {
            assert(is_position(entries[i].0, store.appended));
            let p = choose|p: nat| 1 <= p <= store.appended && entries[i].0 == #[trigger] decimal(p);
            assert(1 <= p <= store.appended + 1 && after[i].0 == decimal(p));
        } else {
            assert(after[i].0 == decimal(store.appended + 1));
        }
    }
}

/// Appends to a new positional store, however many and in whatever order
/// they arrive, fill the positions from 1 on without a gap: the store then
/// holds one entry for each append, the entry at place `i` under position
/// `i + 1`.
pub proof fn lemma_appends_fill_positions(name: Seq<char>, texts: Seq<Seq<char>>)
    ensures
        ({
            let store = StorageView::empty(name, StorageType::Untagged).with_all_appended(texts);
            &&& store.wf()
            &&& store.name == name
            &&& store.kind == StorageType::Untagged
            &&& store.appended == texts.len()
            &&& store.entries.len() == texts.len()
            &&& forall|i: int|
                0 <= i < texts.len() ==> #[trigger] store.entries[i] == (
                    decimal((i + 1) as nat),
                    texts[i],
                    false,
                )
        }),
    decreases texts.len(),
{
    let start = StorageView::empty(name, StorageType::Untagged);
    if texts.len() == 0 {
        lemma_first_index_none(0, 0, holds_slot(start.entries, previous_key()));
    } else {
        let front = texts.drop_last();
        lemma_appends_fill_positions(name, front);
        let before = start.with_all_appended(front);
        lemma_with_appended_wf(before, texts.last());
        let store = start.with_all_appended(texts);
        assert forall|i: int| 0 <= i < texts.len() implies #[trigger] store.entries[i] == (
            decimal((i + 1) as nat),
            texts[i],
            false,
        ) by {
            if i < front.len() {
                assert(store.entries[i] == before.entries[i]);
                assert(front[i] == texts[i]);
            }
        }
    }
}

/// After appends to a new positional store, in whatever order they arrived,
/// position `p` is found exactly when it lies between 1 and the number of
/// appends, and it holds the text of the append that came `p`-th: no append
/// is lost and none overwrites another.
pub proof fn lemma_appended_positions_are_found(name: Seq<char>, texts: Seq<Seq<char>>, p: nat)
    ensures
        data_of(
            StorageView::empty(name, StorageType::Untagged).with_all_appended(texts).entries,
            decimal(p),
        ) == if 1 <= p <= texts.len() {
            Some(texts[p - 1])
        } else {
            None
        },
{
    let entries = StorageView::empty(name, StorageType::Untagged).with_all_appended(texts).entries;
    lemma_appends_fill_positions(name, texts);
    assert forall|j: int| 0 <= j < entries.len() && j != p - 1 implies !#[trigger] holds_slot(
        entries,
        decimal(p),
    )(j) by {
        assert(entries[j].0 == decimal((j + 1) as nat));
        if entries[j].0 == decimal(p) {
            lemma_decimal_injective((j + 1) as nat, p);
        }
    }
    if 1 <= p <= texts.len() {
        assert(entries[p - 1].0 == decimal(p));
        lemma_first_index_is(0, entries.len() as int, holds_slot(entries, decimal(p)), p - 1);
    } else {
        lemma_first_index_none(0, entries.len() as int, holds_slot(entries, decimal(p)));
    }
}

/// One entry as a line of the rendered store: `  - key=value` in a key=value
/// store, `  - value: COMPLETED` or `  - value: not completed` in a
/// completion store and `  - value` in any other, each ended by a line feed.
pub open spec fn entry_line(kind: StorageType, entry: (Seq<char>, Seq<char>, bool)) -> Seq<char> {
    match kind {
        StorageType::Tagged => "  - "@ + entry.0 + "="@ + entry.1 + "\n"@,
        StorageType::Completion => "  - "@ + entry.1 + if entry.2 {
            ": COMPLETED"@
        } else {
            ": not completed"@
        } + "\n"@,
        _ => "  - "@ + entry.1 + "\n"@,
    }
}

/// The lines of the entries, in their order.
pub open spec fn entry_lines(kind: StorageType, entries: Seq<(Seq<char>, Seq<char>, bool)>) -> Seq<
    char,
>
    decreases entries.len(),
{
    if entries.len() == 0 {
        Seq::empty()
    } else {
        entry_lines(kind, entries.drop_last()) + entry_line(kind, entries.last())
    }
}

/// The text of a store.
///
/// A store without entries renders as the empty text. A store of the
/// current/previous discipline renders as `* Current name: value` and, if it
/// has a previous value, a second line `* Previous name: value`, both values
/// trimmed; without a current value it renders as the empty text. Any other
/// store renders as `<name>`, one line for each entry, and `</name>`.
pub open spec fn rendered(store: StorageView) -> Seq<char> {
    if store.entries.len() == 0 {
        Seq::empty()
    } else if store.kind == StorageType::CurrentPrevious {
        match store.current() {
            Some(current) => "* Current "@ + store.name + ": "@ + trim(current) + match store.previous() {
                Some(previous) => "\n* Previous "@ + store.name + ": "@ + trim(previous),
                None => Seq::empty(),
            },
            None => Seq::empty(),
        }
    } else {
        "<"@ + store.name + ">\n"@ + entry_lines(store.kind, store.entries) + "</"@ + store.name
            + ">"@
    }
}

/// Appends the line of one entry to `out`.
pub fn push_entry_line(out: &mut String, kind: StorageType, key: &str, entry: &Entry)
    ensures
        final(out)@ == old(out)@ + entry_line(kind, (key@, entry.data@, entry.complete)),
{
    push_text(out, "  - ");
    match kind {
        StorageType::Tagged => {
            push_text(out, key);
            push_text(out, "=");
            push_text(out, entry.data.as_str());
        },
        StorageType::Completion => {
            push_text(out, entry.data.as_str());
            if entry.complete {
                push_text(out, ": COMPLETED");
            } else {
                push_text(out, ": not completed");
            }
        },
        _ => {
            push_text(out, entry.data.as_str());
        },
    }
    push_text(out, "\n");
    assert(out@ =~= old(out)@ + entry_line(kind, (key@, entry.data@, entry.complete)));
}

impl Storage {
    /// Whether the store is well formed; every store that this module hands
    /// out is.
    pub open spec fn wf(&self) -> bool {
        self@.wf()
    }

    /// A store of the given name and discipline, without entries.
    pub fn new(name: &str, type_: StorageType) -> (storage: Storage)
        ensures
            storage.wf(),
            storage@ == StorageView::empty(name@, type_),
    {
        let storage = Storage { name: name.to_owned(), type_, inner: map_new(), appended: 0 };
        proof {
            lemma_first_index_none(0, 0, holds_slot(storage@.entries, previous_key()));
        }
        storage
    }

    /// The discipline of the store.
    pub fn get_type(&self) -> (type_: &StorageType)
        ensures
            *type_ == self@.kind,
    {
        &self.type_
    }

    /// The name of the store.
    pub fn get_name(&self) -> (name: &str)
        ensures
            name@ == self@.name,
    {
        self.name.as_str()
    }

    /// The number of entries.
    pub fn len(&self) -> (n: usize)
        ensures
            n == self@.entries.len(),
    {
        map_len(&self.inner)
    }

    /// The number of positions given out since the store was created or
    /// last cleared.
    pub fn appended(&self) -> (n: usize)
        ensures
            n == self@.appended,
    {
        self.appended
    }

    /// Renders the store as text.
    pub fn to_structured_string(&self) -> (text: String)
        ensures
            text@ == rendered(self@),
    {
        let mut text = String::new();
        let n = map_len(&self.inner);
        if n == 0 {
            return text;
        }
        match self.type_ {
            StorageType::CurrentPrevious => {
                match map_get(&self.inner, "__current") {
                    Some(current) => {
                        push_text(&mut text, "* Current ");
                        push_text(&mut text, self.name.as_str());
                        push_text(&mut text, ": ");
                        let current_text = trimmed(current.data.as_str());
                        push_text(&mut text, current_text.as_str());
                        match map_get(&self.inner, "__previous") {
                            Some(previous) => {
                                push_text(&mut text, "\n* Previous ");
                                push_text(&mut text, self.name.as_str());
                                push_text(&mut text, ": ");
                                let previous_text = trimmed(previous.data.as_str());
                                push_text(&mut text, previous_text.as_str());
                                assert(text@ =~= rendered(self@));
                            },
                            None => {
                                assert(text@ =~= rendered(self@));
                            },
                        }
                    },
                    None => {},
                }
            },
            _ => {
                push_text(&mut text, "<");
                push_text(&mut text, self.name.as_str());
                push_text(&mut text, ">\n");
                let ghost head = text@;
                let ghost entries = self@.entries;
                let mut i: usize = 0;
                while i < n
                    invariant
                        i <= n == entries.len(),
                        entries == entries_of(self.inner),
                        text@ == head + entry_lines(self.type_, entries.take(i as int)),
                    decreases n - i,
                {
                    match map_get_index(&self.inner, i) {
                        Some((key, entry)) => {
                            push_entry_line(&mut text, self.type_, key.as_str(), entry);
                            proof {
                                let next = entries.take(i + 1);
                                assert(next.drop_last() =~= entries.take(i as int));
                                assert(next.last() == entries[i as int]);
                            }
                        },
                        None => {},
                    }
                    i += 1;
                }
                assert(entries.take(n as int) =~= entries);
                push_text(&mut text, "</");
                push_text(&mut text, self.name.as_str());
                push_text(&mut text, ">");
                assert(text@ =~= rendered(self@));
            },
        }
        text
    }

    /// Sets `key` to `data`. A key that is present keeps its place; a new
    /// key goes to the end.
    pub fn add_tagged(&mut self, key: &str, data: &str)
        requires
            old(self).wf(),
            old(self)@.kind == StorageType::Tagged,
        ensures
            final(self).wf(),
            final(self)@ == (StorageView {
                entries: upsert(old(self)@.entries, key@, data@, false),
                ..old(self)@
            }),
    {
        proof {
            lemma_upsert(self@.entries, key@, data@, false);
        }
        map_insert(&mut self.inner, key.to_owned(), Entry::new(data.to_owned()));
    }

    /// Removes `key` and returns its text; reports an absent key and leaves
    /// the store as it is.
    pub fn del_tagged(&mut self, key: &str) -> (removed: Option<String>)
        requires
            old(self).wf(),
            old(self)@.kind == StorageType::Tagged,
        ensures
            final(self).wf(),
            final(self)@ == (StorageView { entries: without(old(self)@.entries, key@), ..old(self)@ }),
            match removed {
                Some(data) => data_of(old(self)@.entries, key@) == Some(data@),
                None => data_of(old(self)@.entries, key@) is None && final(self)@ == old(self)@,
            },
    {
        proof {
            lemma_without(self@.entries, key@);
        }
        match map_shift_remove(&mut self.inner, key) {
            Some(entry) => Some(entry.data),
            None => None,
        }
    }

    /// The text of `key`.
    pub fn get_tagged(&self, key: &str) -> (found: Option<String>)
        requires
            self@.kind == StorageType::Tagged,
        ensures
            match found {
                Some(data) => data_of(self@.entries, key@) == Some(data@),
                None => data_of(self@.entries, key@) is None,
            },
    {
        match map_get(&self.inner, key) {
            Some(entry) => Some(entry.data.clone()),
            None => None,
        }
    }

    /// Appends `data` under the next position. Positions are counted from 1,
    /// and one that was given out is not given out again before the store is
    /// cleared.
    pub fn add_untagged(&mut self, data: &str)
        requires
            old(self).wf(),
            old(self)@.kind == StorageType::Untagged,
            old(self)@.appended < usize::MAX,
        ensures
            final(self).wf(),
            final(self)@ == old(self)@.with_appended(data@),
    {
        let position = self.appended + 1;
        let tag = decimal_string(position);
        proof {
            lemma_with_appended_wf(self@, data@);
        }
        map_insert(&mut self.inner, tag, Entry::new(data.to_owned()));
        self.appended = position;
    }

    /// Removes the entry that was appended under position `pos` and returns
    /// its text; the other entries keep their positions. Reports an absent
    /// position and leaves the store as it is.
    pub fn del_untagged(&mut self, pos: usize) -> (removed: Option<String>)
        requires
            old(self).wf(),
            old(self)@.kind == StorageType::Untagged,
        ensures
            final(self).wf(),
            final(self)@ == (StorageView {
                entries: without(old(self)@.entries, decimal(pos as nat)),
                ..old(self)@
            }),
            match removed {
                Some(data) => data_of(old(self)@.entries, decimal(pos as nat)) == Some(data@),
                None => data_of(old(self)@.entries, decimal(pos as nat)) is None && final(self)@ == old(
                    self,
                )@,
            },
    {
        let tag = decimal_string(pos);
        proof {
            lemma_without(self@.entries, tag@);
        }
        match map_shift_remove(&mut self.inner, tag.as_str()) {
            Some(entry) => Some(entry.data),
            None => None,
        }
    }

    /// Makes `data` the current value. The value that was current becomes
    /// the previous one, and the value that was previous is dropped.
    pub fn set_current(&mut self, data: &str)
        requires
            old(self).wf(),
            old(self)@.kind == StorageType::CurrentPrevious,
        ensures
            final(self).wf(),
            final(self)@.current() == Some(data@),
            final(self)@.previous() == old(self)@.current(),
            final(self)@.entries.len() == if old(self)@.current() is Some {
                2nat
            } else {
                1nat
            },
            final(self)@.name == old(self)@.name,
            final(self)@.kind == old(self)@.kind,
            final(self)@.appended == old(self)@.appended,
    {
        proof {
            reveal_strlit("__current");
            reveal_strlit("__previous");
            assert(current_key() != previous_key()) by {
                assert(current_key().len() != previous_key().len());
            }
        }
        let ghost before = self@.entries;
        proof {
            lemma_without(before, current_key());
            lemma_first_index(0, before.len() as int, holds_slot(before, current_key()));
        }
        let old_current = map_shift_remove(&mut self.inner, "__current");
        let ghost removed = self@.entries;
        proof {
            lemma_first_index(0, removed.len() as int, holds_slot(removed, current_key()));
            lemma_first_index(0, removed.len() as int, holds_slot(removed, previous_key()));
            assert forall|j: int| 0 <= j < removed.len() implies (#[trigger] removed[j]).0
                == previous_key() && !removed[j].2 by {
                let k = choose|k: int| 0 <= k < before.len() && before[k] == removed[j];
                assert(!holds_slot(removed, current_key())(j));
            }
            if removed.len() >= 2 {
                assert(removed[0].0 != removed[1].0);
            }
            if removed.len() == 1 {
                assert(holds_slot(removed, previous_key())(0));
            }
            if old_current is None {
                assert(data_of(before, previous_key()) is None);
            }
            lemma_upsert(removed, current_key(), data@, false);
        }
        map_insert(&mut self.inner, "__current".to_owned(), Entry::new(data.to_owned()));
        let ghost inserted = self@.entries;
        match old_current {
            Some(entry) => {
                proof {
                    lemma_upsert(inserted, previous_key(), entry.data@, entry.complete);
                }
                map_insert(&mut self.inner, "__previous".to_owned(), entry);
            },
            None => {},
        }
    }

    /// Removes every entry and starts the positions anew.
    pub fn clear(&mut self)
        ensures
            final(self).wf(),
            final(self)@ == (StorageView { entries: Seq::empty(), appended: 0, ..old(self)@ }),
    {
        map_clear(&mut self.inner);
        self.appended = 0;
        proof {
            lemma_first_index_none(0, 0, holds_slot(self@.entries, previous_key()));
        }
    }
}

} // verus!
