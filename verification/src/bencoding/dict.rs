//! Dictionaries as lists of entries in ascending key order: how an entry is
//! put in, and why the order in which entries are put in does not matter.

use super::decoder::bytes_less;
use super::{bytes_equal, bytes_lt, bytes_lt_from, dict_view, keys_ascending, lemma_dict_view,
    lookup, Bencode, Value};
use crate::search::{first_where, lemma_first_where, lemma_first_where_is};
use vstd::prelude::*;

verus! {

/// No byte string comes before itself.
pub proof fn lemma_lt_irreflexive(a: Seq<u8>, i: int)
    requires
        0 <= i,
    ensures
        !bytes_lt_from(a, a, i),
    decreases a.len() - i,
{
    if i < a.len() {
        lemma_lt_irreflexive(a, i + 1);
    }
}

/// Of two byte strings that agree before position `i`, one comes before the
/// other, or they are the same.
pub proof fn lemma_lt_total(a: Seq<u8>, b: Seq<u8>, i: int)
    requires
        0 <= i <= a.len(),
        i <= b.len(),
        a.subrange(0, i) == b.subrange(0, i),
    ensures
        a == b || bytes_lt_from(a, b, i) || bytes_lt_from(b, a, i),
    decreases a.len() - i,
{
    if i < a.len() && i < b.len() && a[i] == b[i] {
        assert(a.subrange(0, i + 1) =~= a.subrange(0, i).push(a[i]));
        assert(b.subrange(0, i + 1) =~= b.subrange(0, i).push(b[i]));
        lemma_lt_total(a, b, i + 1);
    } else if i == a.len() && i == b.len() {
        assert(a =~= a.subrange(0, i));
        assert(b =~= b.subrange(0, i));
    }
}

/// What comes before something that comes before a third comes before the
/// third.
pub proof fn lemma_lt_transitive(a: Seq<u8>, b: Seq<u8>, c: Seq<u8>, i: int)
    requires
        0 <= i,
        bytes_lt_from(a, b, i),
        bytes_lt_from(b, c, i),
    ensures
        bytes_lt_from(a, c, i),
    decreases a.len() - i,
{
    if i < a.len() && a[i] == b[i] && b[i] == c[i] {
        lemma_lt_transitive(a, b, c, i + 1);
    }
}

/// In a list with ascending keys, the key at a later position comes after
/// the key at an earlier one.
pub proof fn lemma_ascending(entries: Seq<(Seq<u8>, Value)>, i: int, j: int)
    requires
        keys_ascending(entries),
        0 <= i < j < entries.len(),
    ensures
        bytes_lt(entries[i].0, entries[j].0),
    decreases j - i,
{
    if i + 1 < j {
        lemma_ascending(entries, i, j - 1);
        assert(bytes_lt(entries[j - 1].0, entries[j].0));
        lemma_lt_transitive(entries[i].0, entries[j - 1].0, entries[j].0, 0);
    } else {
        assert(bytes_lt(entries[i].0, entries[i + 1].0));
    }
}

/// The position at which an entry with key `key` belongs: the first
/// position whose key does not come before `key`.
pub open spec fn insert_pos(entries: Seq<(Seq<u8>, Value)>, key: Seq<u8>) -> int {
    first_where(entries.len() as int, |i: int| !bytes_lt(entries[i].0, key))
}

/// `insert_pos` is a position before which every key comes before `key`, and
/// at which the key does not.
pub proof fn lemma_insert_pos(entries: Seq<(Seq<u8>, Value)>, key: Seq<u8>)
    ensures
        0 <= insert_pos(entries, key) <= entries.len(),
        forall|j: int|
            0 <= j < insert_pos(entries, key) ==> bytes_lt((#[trigger] entries[j]).0, key),
        insert_pos(entries, key) < entries.len() ==> !bytes_lt(
            entries[insert_pos(entries, key)].0,
            key,
        ),
{
    let p = |i: int| !bytes_lt(entries[i].0, key);
    lemma_first_where(entries.len() as int, p);
    assert forall|j: int| 0 <= j < insert_pos(entries, key) implies bytes_lt(
        (#[trigger] entries[j]).0,
        key,
    ) by {
        assert(!p(j));
    }
}

/// The entries with `value` under `key`: in place of the entry that has the
/// key, or else where an entry with the key belongs.
pub open spec fn inserted(entries: Seq<(Seq<u8>, Value)>, key: Seq<u8>, value: Value) -> Seq<
    (Seq<u8>, Value),
> {
    let p = insert_pos(entries, key);
    if p < entries.len() && entries[p].0 == key {
        entries.update(p, (key, value))
    } else {
        entries.insert(p, (key, value))
    }
}

impl Value {
    /// The dictionary with `value` under `key`; a value that is no
    /// dictionary stays as it is.
    pub open spec fn with_entry(self, key: Seq<u8>, value: Value) -> Value {
        match self {
            Value::Dict(entries) => Value::Dict(inserted(entries, key, value)),
            _ => self,
        }
    }
}

/// Putting an entry into a list with ascending keys leaves the keys
/// ascending.
pub proof fn lemma_inserted_ascending(entries: Seq<(Seq<u8>, Value)>, key: Seq<u8>, value: Value)
    requires
        keys_ascending(entries),
    ensures
        keys_ascending(inserted(entries, key, value)),
{
    let p = insert_pos(entries, key);
    lemma_insert_pos(entries, key);
    let after = inserted(entries, key, value);
    assert forall|i: int| 0 <= i < after.len() - 1 implies bytes_lt(
        (#[trigger] after[i]).0,
        after[i + 1].0,
    ) by {
        if p < entries.len() && entries[p].0 == key {
            assert(after[i].0 == entries[i].0);
            assert(after[i + 1].0 == entries[i + 1].0);
            assert(bytes_lt(entries[i].0, entries[i + 1].0));
        } else {
            if i + 1 < p {
                assert(after[i] == entries[i]);
                assert(after[i + 1] == entries[i + 1]);
                assert(bytes_lt(entries[i].0, entries[i + 1].0));
            } else if i + 1 == p {
                assert(after[i] == entries[i]);
                assert(bytes_lt(entries[i].0, key));
            } else if i == p {
                assert(after[i + 1] == entries[p]);
                assert(key.subrange(0, 0) =~= entries[p].0.subrange(0, 0));
                lemma_lt_total(key, entries[p].0, 0);
            } else {
                assert(after[i] == entries[i - 1]);
                assert(after[i + 1] == entries[i]);
                assert(bytes_lt(entries[i - 1].0, entries[i].0));
            }
        }
    }
}

/// In a list with ascending keys, `lookup` finds the entry with the key
/// wherever it stands.
pub proof fn lemma_lookup_ascending(entries: Seq<(Seq<u8>, Value)>, key: Seq<u8>, i: int)
    requires
        keys_ascending(entries),
        0 <= i <= entries.len(),
        i < entries.len() ==> entries[i].0 == key,
        i == entries.len() ==> forall|j: int|
            0 <= j < entries.len() ==> (#[trigger] entries[j]).0 != key,
    ensures
        lookup(entries, key) == if i < entries.len() {
            Some(entries[i].1)
        } else {
            None
        },
{
    if i < entries.len() {
        assert forall|j: int| 0 <= j < i implies (#[trigger] entries[j]).0 != key by {
            lemma_ascending(entries, j, i);
            lemma_lt_irreflexive(key, 0);
        }
    }
    super::lemma_lookup_at(entries, key, i);
}

/// After `value` has been put under `key`, it is what is found under
/// `key`, and what is found under every other key is what was found before.
pub proof fn lemma_lookup_inserted(
    entries: Seq<(Seq<u8>, Value)>,
    key: Seq<u8>,
    value: Value,
    other: Seq<u8>,
)
    requires
        keys_ascending(entries),
    ensures
        lookup(inserted(entries, key, value), other) == if other == key {
            Some(value)
        } else {
            lookup(entries, other)
        },
{
    let p = insert_pos(entries, key);
    lemma_insert_pos(entries, key);
    let after = inserted(entries, key, value);
    lemma_inserted_ascending(entries, key, value);
    let replaced = p < entries.len() && entries[p].0 == key;
    if other == key {
        lemma_lookup_ascending(after, key, p);
    } else {
        super::lemma_lookup(entries, other);
        match lookup(entries, other) {
            Some(v) => {
                let i = choose|i: int|
                    0 <= i < entries.len() && #[trigger] entries[i] == (other, v) && forall|j: int|
                        0 <= j < i ==> (#[trigger] entries[j]).0 != other;
                let at = if replaced || i < p {
                    i
                } else {
                    i + 1
                };
                assert(after[at] == entries[i]);
                lemma_lookup_ascending(after, other, at);
            },
            None => {
                assert forall|j: int| 0 <= j < after.len() implies (#[trigger] after[j]).0
                    != other by {
                    if replaced {
                        assert(after[j].0 == entries[j].0);
                    } else if j < p {
                        assert(after[j] == entries[j]);
                    } else if j > p {
                        assert(after[j] == entries[j - 1]);
                    }
                }
                lemma_lookup_ascending(after, other, after.len() as int);
            },
        }
    }
}

/// Two lists with ascending keys under which the same is found for every
/// key are the same list.
pub proof fn lemma_ascending_unique(a: Seq<(Seq<u8>, Value)>, b: Seq<(Seq<u8>, Value)>)
    requires
        keys_ascending(a),
        keys_ascending(b),
        forall|key: Seq<u8>| lookup(a, key) == lookup(b, key),
    ensures
        a == b,
    decreases a.len(),
{
    if a.len() == 0 {
        if b.len() > 0 {
            lemma_lookup_ascending(b, b[0].0, 0);
            assert(lookup(a, b[0].0) is None);
        }
        assert(a =~= b);
    } else {
        lemma_lookup_ascending(a, a[0].0, 0);
        super::lemma_lookup(b, a[0].0);
        let j = choose|j: int|
            0 <= j < b.len() && #[trigger] b[j] == (a[0].0, a[0].1) && forall|x: int|
                0 <= x < j ==> (#[trigger] b[x]).0 != a[0].0;
        lemma_lookup_ascending(b, b[0].0, 0);
        super::lemma_lookup(a, b[0].0);
        let i = choose|i: int|
            0 <= i < a.len() && #[trigger] a[i] == (b[0].0, b[0].1) && forall|x: int|
                0 <= x < i ==> (#[trigger] a[x]).0 != b[0].0;
        if j > 0 {
            lemma_ascending(b, 0, j);
            if i > 0 {
                lemma_ascending(a, 0, i);
                lemma_lt_transitive(a[0].0, b[0].0, a[0].0, 0);
            }
            lemma_lt_irreflexive(a[0].0, 0);
        }
        assert(a[0] == b[0]);
        let ta = a.drop_first();
        let tb = b.drop_first();
        assert(keys_ascending(ta)) by {
            assert forall|x: int| 0 <= x < ta.len() - 1 implies bytes_lt(
                (#[trigger] ta[x]).0,
                ta[x + 1].0,
            ) by {
                assert(ta[x] == a[x + 1]);
                assert(ta[x + 1] == a[x + 2]);
                assert(bytes_lt(a[x + 1].0, a[x + 2].0));
            }
        }
        assert(keys_ascending(tb)) by {
            assert forall|x: int| 0 <= x < tb.len() - 1 implies bytes_lt(
                (#[trigger] tb[x]).0,
                tb[x + 1].0,
            ) by {
                assert(tb[x] == b[x + 1]);
                assert(tb[x + 1] == b[x + 2]);
                assert(bytes_lt(b[x + 1].0, b[x + 2].0));
            }
        }
        assert forall|key: Seq<u8>| lookup(ta, key) == lookup(tb, key) by {
            if key == a[0].0 {
                assert forall|x: int| 0 <= x < ta.len() implies (#[trigger] ta[x]).0 != key by {
                    assert(ta[x] == a[x + 1]);
                    lemma_ascending(a, 0, x + 1);
                    lemma_lt_irreflexive(key, 0);
                }
                assert forall|x: int| 0 <= x < tb.len() implies (#[trigger] tb[x]).0 != key by {
                    assert(tb[x] == b[x + 1]);
                    lemma_ascending(b, 0, x + 1);
                    lemma_lt_irreflexive(key, 0);
                }
                lemma_lookup_ascending(ta, key, ta.len() as int);
                lemma_lookup_ascending(tb, key, tb.len() as int);
            } else {
                assert(lookup(a, key) == lookup(ta, key));
                assert(lookup(b, key) == lookup(tb, key));
            }
        }
        lemma_ascending_unique(ta, tb);
        assert(a =~= seq![a[0]] + ta);
        assert(b =~= seq![b[0]] + tb);
    }
}

/// The order in which two entries with different keys are put into a
/// dictionary does not matter: the dictionary, and with it its encoding and
/// every hash of that encoding, is the same.
pub proof fn lemma_insert_order(
    entries: Seq<(Seq<u8>, Value)>,
    k1: Seq<u8>,
    v1: Value,
    k2: Seq<u8>,
    v2: Value,
)
    requires
        keys_ascending(entries),
        k1 != k2,
    ensures
        inserted(inserted(entries, k1, v1), k2, v2) == inserted(inserted(entries, k2, v2), k1, v1),
        Value::Dict(inserted(inserted(entries, k1, v1), k2, v2)).encoding() == Value::Dict(
            inserted(inserted(entries, k2, v2), k1, v1),
        ).encoding(),
{
    let first = inserted(entries, k1, v1);
    let second = inserted(entries, k2, v2);
    let a = inserted(first, k2, v2);
    let b = inserted(second, k1, v1);
    lemma_inserted_ascending(entries, k1, v1);
    lemma_inserted_ascending(entries, k2, v2);
    lemma_inserted_ascending(first, k2, v2);
    lemma_inserted_ascending(second, k1, v1);
    assert forall|key: Seq<u8>| lookup(a, key) == lookup(b, key) by {
        lemma_lookup_inserted(first, k2, v2, key);
        lemma_lookup_inserted(entries, k1, v1, key);
        lemma_lookup_inserted(second, k1, v1, key);
        lemma_lookup_inserted(entries, k2, v2, key);
    }
    lemma_ascending_unique(a, b);
}

/// Putting a well-formed value into a well-formed dictionary leaves it well
/// formed.
pub proof fn lemma_with_entry_wf(dict: Value, key: Seq<u8>, value: Value)
    requires
        dict.wf(),
        value.wf(),
    ensures
        dict.with_entry(key, value).wf(),
{
    match dict {
        Value::Dict(entries) => {
            let p = insert_pos(entries, key);
            lemma_insert_pos(entries, key);
            lemma_inserted_ascending(entries, key, value);
            let after = inserted(entries, key, value);
            assert forall|i: int| 0 <= i < after.len() implies (#[trigger] after[i]).1.wf() by {
                if p < entries.len() && entries[p].0 == key {
                    if i != p {
                        assert(after[i] == entries[i]);
                    }
                } else if i < p {
                    assert(after[i] == entries[i]);
                } else if i > p {
                    assert(after[i] == entries[i - 1]);
                }
            }
        },
        _ => {},
    }
}

impl Bencode {
    /// A dictionary without entries.
    pub fn dict() -> (empty: Bencode)
        ensures
            empty@ == Value::Dict(Seq::empty()),
            empty.wf(),
    {
        let entries: Vec<(Vec<u8>, Bencode)> = Vec::new();
        let empty = Bencode::Dict(entries);
        proof {
            lemma_dict_view(entries@, 0);
            assert(dict_view(entries@, 0) =~= Seq::empty());
        }
        empty
    }

    /// The dictionary with `value` under `key`: in place of what was under
    /// the key, or else where the key belongs in ascending order. A value
    /// that is no dictionary comes back as it is.
    pub fn insert(self, key: Vec<u8>, value: Bencode) -> (after: Bencode)
        ensures
            after@ == self@.with_entry(key@, value@),
            self.wf() && value.wf() ==> after.wf(),
    {
        proof {
            if self.wf() && value.wf() {
                lemma_with_entry_wf(self@, key@, value@);
            }
        }
        match self {
            Bencode::Dict(mut entries) => {
                let ghost before = entries@;
                let ghost model = dict_view(before, before.len());
                proof {
                    lemma_dict_view(before, before.len());
                }
                let mut p: usize = 0;
                while p < entries.len() && bytes_less(entries[p].0.as_slice(), key.as_slice())
                    invariant
                        p <= entries.len(),
                        entries@ == before,
                        model == dict_view(before, before.len()),
                        model.len() == before.len(),
                        forall|j: int|
                            0 <= j < before.len() ==> (#[trigger] model[j]) == (
                                before[j].0@,
                                before[j].1@,
                            ),
                        forall|j: int| 0 <= j < p ==> bytes_lt((#[trigger] model[j]).0, key@),
                    decreases entries.len() - p,
                {
                    p += 1;
                }
                proof {
                    let test = |i: int| !bytes_lt(model[i].0, key@);
                    assert forall|j: int| 0 <= j < p implies !(#[trigger] test(j)) by {
                        assert(bytes_lt(model[j].0, key@));
                    }
                    if p < before.len() {
                        assert(model[p as int].0 == before[p as int].0@);
                    }
                    lemma_first_where_is(model.len() as int, test, p as int);
                }
                let ghost entry = (key@, value@);
                if p < entries.len() && bytes_equal(entries[p].0.as_slice(), key.as_slice()) {
                    entries[p] = (key, value);
                    proof {
                        lemma_dict_view(entries@, entries@.len());
                        assert(dict_view(entries@, entries@.len()) =~= model.update(
                            p as int,
                            entry,
                        ));
                    }
                } else {
                    entries.insert(p, (key, value));
                    proof {
                        lemma_dict_view(entries@, entries@.len());
                        assert(dict_view(entries@, entries@.len()) =~= model.insert(
                            p as int,
                            entry,
                        ));
                    }
                }
                Bencode::Dict(entries)
            },
            other => other,
        }
    }
}

} // verus!
