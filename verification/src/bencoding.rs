//! Bencoded values and their mathematical model.

use vstd::prelude::*;

pub mod decoder;
pub mod dict;
pub mod encoder;
pub mod laws;
pub mod text;

use text::{int_text, nat_text};

verus! {

/// A bencoded value as it is held in memory.
///
/// A dictionary is a list of entries; it is well formed when its keys stand
/// in strictly ascending byte order (see [`Bencode::wf`]).
#[derive(Debug, PartialEq, Eq)]
pub enum Bencode {
    Int(i64),
    List(Vec<Bencode>),
    Bytes(Vec<u8>),
    Dict(Vec<(Vec<u8>, Bencode)>),
}

/// The mathematical model of a bencoded value.
pub enum Value {
    Int(i64),
    List(Seq<Value>),
    Bytes(Seq<u8>),
    Dict(Seq<(Seq<u8>, Value)>),
}

/// The models of the first `n` values of `items`, in order.
pub open spec fn list_view(items: Seq<Bencode>, n: nat) -> Seq<Value>
    decreases items, n,
{
    if n == 0 || n > items.len() {
        Seq::empty()
    } else {
        list_view(items, (n - 1) as nat).push(items[n - 1]@)
    }
}

/// The models of the first `n` entries of `entries`, in order.
pub open spec fn dict_view(entries: Seq<(Vec<u8>, Bencode)>, n: nat) -> Seq<(Seq<u8>, Value)>
    decreases entries, n,
{
    if n == 0 || n > entries.len() {
        Seq::empty()
    } else {
        dict_view(entries, (n - 1) as nat).push((entries[n - 1].0@, entries[n - 1].1@))
    }
}

impl View for Bencode {
    type V = Value;

    open spec fn view(&self) -> Value
        decreases self,
    {
        match self {
            Bencode::Int(i) => Value::Int(*i),
            Bencode::List(items) => Value::List(list_view(items@, items@.len())),
            Bencode::Bytes(b) => Value::Bytes(b@),
            Bencode::Dict(entries) => Value::Dict(dict_view(entries@, entries@.len())),
        }
    }
}

/// `list_view` holds the models of the first `n` items, in order.
pub proof fn lemma_list_view(items: Seq<Bencode>, n: nat)
    requires
        n <= items.len(),
    ensures
        list_view(items, n).len() == n,
        forall|i: int| 0 <= i < n ==> (#[trigger] list_view(items, n)[i]) == items[i]@,
    decreases n,
{
    if n > 0 {
        lemma_list_view(items, (n - 1) as nat);
        assert(list_view(items, n) == list_view(items, (n - 1) as nat).push(items[n - 1]@));
    } else {
        assert(list_view(items, 0) == Seq::<Value>::empty());
    }
}

/// `dict_view` holds the models of the first `n` entries, in order.
pub proof fn lemma_dict_view(entries: Seq<(Vec<u8>, Bencode)>, n: nat)
    requires
        n <= entries.len(),
    ensures
        dict_view(entries, n).len() == n,
        forall|i: int|
            0 <= i < n ==> (#[trigger] dict_view(entries, n)[i]) == (entries[i].0@, entries[i].1@),
    decreases n,
{
    if n > 0 {
        lemma_dict_view(entries, (n - 1) as nat);
        assert(dict_view(entries, n) == dict_view(entries, (n - 1) as nat).push(
            (entries[n - 1].0@, entries[n - 1].1@),
        ));
    } else {
        assert(dict_view(entries, 0) == Seq::<(Seq<u8>, Value)>::empty());
    }
}

/// Whether `a` comes before `b` in byte-wise lexicographic order, looking
/// only at the bytes from position `i` on.
pub open spec fn bytes_lt_from(a: Seq<u8>, b: Seq<u8>, i: int) -> bool
    decreases a.len() - i,
{
    if i < 0 || i >= b.len() {
        false
    } else if i >= a.len() {
        true
    } else if a[i] != b[i] {
        a[i] < b[i]
    } else {
        bytes_lt_from(a, b, i + 1)
    }
}

/// Whether `a` comes strictly before `b` in byte-wise lexicographic order.
pub open spec fn bytes_lt(a: Seq<u8>, b: Seq<u8>) -> bool {
    bytes_lt_from(a, b, 0)
}

/// Whether the keys of `entries` stand in strictly ascending order.
pub open spec fn keys_ascending(entries: Seq<(Seq<u8>, Value)>) -> bool {
    forall|i: int|
        0 <= i < entries.len() - 1 ==> bytes_lt((#[trigger] entries[i]).0, entries[i + 1].0)
}

impl Value {
    /// Whether every dictionary inside the value has its keys in strictly
    /// ascending order.
    pub open spec fn wf(self) -> bool
        decreases self,
    {
        match self {
            Value::Int(_) => true,
            Value::Bytes(_) => true,
            Value::List(items) => forall|i: int| 0 <= i < items.len() ==> (#[trigger] items[i]).wf(),
            Value::Dict(entries) => {
                &&& keys_ascending(entries)
                &&& forall|i: int| 0 <= i < entries.len() ==> (#[trigger] entries[i]).1.wf()
            },
        }
    }

    /// The canonical encoding of the value.
    pub open spec fn encoding(self) -> Seq<u8>
        decreases self,
    {
        match self {
            Value::Int(i) => seq![0x69u8] + int_text(i as int) + seq![0x65u8],
            Value::Bytes(b) => bytes_encoding(b),
            Value::List(items) => seq![0x6cu8] + list_encoding(items) + seq![0x65u8],
            Value::Dict(entries) => seq![0x64u8] + dict_encoding(entries) + seq![0x65u8],
        }
    }
}

/// The encoding of a byte string: its length in decimal, a colon, the bytes.
pub open spec fn bytes_encoding(b: Seq<u8>) -> Seq<u8> {
    nat_text(b.len()) + seq![0x3au8] + b
}

/// The encodings of `items`, one after the other.
pub open spec fn list_encoding(items: Seq<Value>) -> Seq<u8>
    decreases items,
{
    if items.len() == 0 {
        Seq::empty()
    } else {
        items[0].encoding() + list_encoding(items.drop_first())
    }
}

/// The encodings of the entries, each key before its value, one entry after
/// the other.
pub open spec fn dict_encoding(entries: Seq<(Seq<u8>, Value)>) -> Seq<u8>
    decreases entries,
{
    if entries.len() == 0 {
        Seq::empty()
    } else {
        bytes_encoding(entries[0].0) + entries[0].1.encoding() + dict_encoding(
            entries.drop_first(),
        )
    }
}

/// The value of the first entry of `entries` whose key is `key`.
pub open spec fn lookup(entries: Seq<(Seq<u8>, Value)>, key: Seq<u8>) -> Option<Value>
    decreases entries.len(),
{
    if entries.len() == 0 {
        None
    } else if entries[0].0 == key {
        Some(entries[0].1)
    } else {
        lookup(entries.drop_first(), key)
    }
}

/// `lookup` in terms of positions: it finds the entry at the first position
/// that holds `key`, and nothing when no position does.
pub proof fn lemma_lookup(entries: Seq<(Seq<u8>, Value)>, key: Seq<u8>)
    ensures
        match lookup(entries, key) {
            Some(v) => exists|i: int|
                0 <= i < entries.len() && #[trigger] entries[i] == (key, v) && forall|j: int|
                    0 <= j < i ==> (#[trigger] entries[j]).0 != key,
            None => forall|j: int| 0 <= j < entries.len() ==> (#[trigger] entries[j]).0 != key,
        },
    decreases entries.len(),
{
    if entries.len() > 0 && entries[0].0 != key {
        let rest = entries.drop_first();
        lemma_lookup(rest, key);
        match lookup(rest, key) {
            Some(v) => {
                let i = choose|i: int|
                    0 <= i < rest.len() && #[trigger] rest[i] == (key, v) && forall|j: int|
                        0 <= j < i ==> (#[trigger] rest[j]).0 != key;
                assert(entries[i + 1] == (key, v));
                assert forall|j: int| 0 <= j < i + 1 implies (#[trigger] entries[j]).0 != key by {
                    if j > 0 {
                        assert(entries[j] == rest[j - 1]);
                    }
                }
            },
            None => {
                assert forall|j: int| 0 <= j < entries.len() implies (#[trigger] entries[j]).0
                    != key by {
                    if j > 0 {
                        assert(entries[j] == rest[j - 1]);
                    }
                }
            },
        }
    } else if entries.len() > 0 {
        assert(entries[0] == (key, entries[0].1));
    }
}

/// The entry at the first position that holds `key` is what `lookup` finds.
pub proof fn lemma_lookup_at(entries: Seq<(Seq<u8>, Value)>, key: Seq<u8>, i: int)
    requires
        0 <= i <= entries.len(),
        forall|j: int| 0 <= j < i ==> (#[trigger] entries[j]).0 != key,
        i < entries.len() ==> entries[i].0 == key,
    ensures
        lookup(entries, key) == if i < entries.len() {
            Some(entries[i].1)
        } else {
            None
        },
    decreases i,
{
    if entries.len() > 0 && i > 0 {
        let rest = entries.drop_first();
        assert(entries[0].0 != key);
        assert forall|j: int| 0 <= j < i - 1 implies (#[trigger] rest[j]).0 != key by {
            assert(rest[j] == entries[j + 1]);
        }
        if i < entries.len() {
            assert(rest[i - 1] == entries[i]);
        }
        lemma_lookup_at(rest, key, i - 1);
    }
}

impl Value {
    /// The value that the dictionary holds under `key`; nothing when the
    /// value is no dictionary or holds no such key.
    pub open spec fn get(self, key: Seq<u8>) -> Option<Value> {
        match self {
            Value::Dict(entries) => lookup(entries, key),
            _ => None,
        }
    }
}

/// Whether `a` and `b` hold the same bytes.
pub fn bytes_equal(a: &[u8], b: &[u8]) -> (same: bool)
    ensures
        same == (a@ == b@),
{
    if a.len() != b.len() {
        return false;
    }
    let mut i: usize = 0;
    while i < a.len()
        invariant
            i <= a.len(),
            a.len() == b.len(),
            forall|j: int| 0 <= j < i ==> a@[j] == b@[j],
        decreases a.len() - i,
    {
        if a[i] != b[i] {
            return false;
        }
        i += 1;
    }
    assert(a@ =~= b@);
    true
}

impl Bencode {
    /// Whether every dictionary inside the value has its keys in strictly
    /// ascending order, so that the value has a canonical encoding.
    pub open spec fn wf(&self) -> bool {
        self@.wf()
    }

    /// Whether the value is well formed: whether every dictionary inside it
    /// has its keys in strictly ascending order.
    pub fn is_wf(&self) -> (ok: bool)
        ensures
            ok == self.wf(),
        decreases self,
    {
        match self {
            Bencode::Int(_) => true,
            Bencode::Bytes(_) => true,
            Bencode::List(items) => {
                let ghost model = list_view(items@, items@.len());
                proof {
                    lemma_list_view(items@, items@.len());
                    assert(self@ == Value::List(model));
                }
                let mut k: usize = 0;
                while k < items.len()
                    invariant
                        k <= items.len(),
                        *self == Bencode::List(*items),
                        self@ == Value::List(model),
                        model == list_view(items@, items@.len()),
                        model.len() == items@.len(),
                        forall|j: int| 0 <= j < items@.len() ==> #[trigger] model[j] == items@[j]@,
                        forall|j: int| 0 <= j < k ==> (#[trigger] model[j]).wf(),
                    decreases items.len() - k,
                {
                    proof {
                        assert(self->List_0 == *items);
                        assert(decreases_to!(self => self->List_0));
                        assert(decreases_to!(items => items@));
                        assert(decreases_to!(items@ => items@[k as int]));
                    }
                    if !items[k].is_wf() {
                        proof {
                            assert(!model[k as int].wf());
                            assert(self@->List_0 == model);
                            if self@.wf() {
                                assert(self@->List_0[k as int].wf());
                            }
                        }
                        return false;
                    }
                    k += 1;
                }
                true
            },
            Bencode::Dict(entries) => {
                let ghost model = dict_view(entries@, entries@.len());
                proof {
                    lemma_dict_view(entries@, entries@.len());
                    assert(self@ == Value::Dict(model));
                }
                let mut k: usize = 0;
                while k < entries.len()
                    invariant
                        k <= entries.len(),
                        *self == Bencode::Dict(*entries),
                        self@ == Value::Dict(model),
                        model == dict_view(entries@, entries@.len()),
                        model.len() == entries@.len(),
                        forall|j: int|
                            0 <= j < entries@.len() ==> #[trigger] model[j] == (
                                entries@[j].0@,
                                entries@[j].1@,
                            ),
                        forall|j: int| 0 <= j < k ==> (#[trigger] model[j]).1.wf(),
                        forall|j: int|
                            0 <= j < k - 1 ==> bytes_lt((#[trigger] model[j]).0, model[j + 1].0),
                    decreases entries.len() - k,
                {
                    proof {
                        assert(self->Dict_0 == *entries);
                        assert(decreases_to!(self => self->Dict_0));
                        assert(decreases_to!(entries => entries@));
                        assert(decreases_to!(entries@ => entries@[k as int]));
                        assert(decreases_to!(entries@[k as int] => entries@[k as int].1));
                    }
                    if !entries[k].1.is_wf() {
                        proof {
                            assert(!model[k as int].1.wf());
                            assert(self@->Dict_0 == model);
                            if self@.wf() {
                                assert(self@->Dict_0[k as int].1.wf());
                            }
                        }
                        return false;
                    }
                    if k > 0 && !decoder::bytes_less(
                        entries[k - 1].0.as_slice(),
                        entries[k].0.as_slice(),
                    ) {
                        assert(!bytes_lt(model[k - 1].0, model[(k - 1) + 1].0));
                        assert(!keys_ascending(model));
                        return false;
                    }
                    k += 1;
                }
                assert(keys_ascending(model));
                true
            },
        }
    }

    /// The value that the dictionary holds under `key`; nothing when `self`
    /// is no dictionary or holds no such key. What a well-formed dictionary
    /// holds is well formed.
    pub fn get(&self, key: &[u8]) -> (found: Option<&Bencode>)
        ensures
            match found {
                Some(value) => self@.get(key@) == Some(value@) && (self.wf() ==> value.wf()),
                None => self@.get(key@) is None,
            },
    {
        match self {
            Bencode::Dict(entries) => {
                let mut i: usize = 0;
                proof {
                    lemma_dict_view(entries@, entries@.len());
                }
                while i < entries.len()
                    invariant
                        i <= entries.len(),
                        *self == Bencode::Dict(*entries),
                        forall|j: int|
                            0 <= j < i ==> (#[trigger] dict_view(
                                entries@,
                                entries@.len(),
                            )[j]).0 != key@,
                        forall|j: int|
                            0 <= j < entries@.len() ==> (#[trigger] dict_view(
                                entries@,
                                entries@.len(),
                            )[j]) == (entries@[j].0@, entries@[j].1@),
                        dict_view(entries@, entries@.len()).len() == entries@.len(),
                    decreases entries.len() - i,
                {
                    if bytes_equal(entries[i].0.as_slice(), key) {
                        proof {
                            let model = dict_view(entries@, entries@.len());
                            lemma_lookup_at(model, key@, i as int);
                            assert(self@ == Value::Dict(model));
                            if self.wf() {
                                assert(model[i as int].1.wf());
                            }
                        }
                        return Some(&entries[i].1);
                    }
                    i += 1;
                }
                proof {
                    lemma_lookup_at(dict_view(entries@, entries@.len()), key@, i as int);
                }
                None
            },
            _ => None,
        }
    }
}

} // verus!
