//! What decoding and encoding owe each other.

use super::decoder::{bytes_at, decoded, entries_at, int_at, items_at, value_at, DecodeError};
use super::text::{digits_end, digits_value, holds_at, int_text, is_digit, lemma_digits_end,
    lemma_digits_end_is, lemma_digits_value_of_text, lemma_digits_value_positive,
    lemma_nat_text_shape, lemma_text_of_digits_value, nat_text};
use super::{bytes_encoding, bytes_lt, dict_encoding, keys_ascending, list_encoding, Value};
use vstd::prelude::*;

verus! {

/// A text made of two parts stands at `pos` exactly when the first part
/// stands there and the second right behind it.
pub proof fn lemma_holds_at_concat(s: Seq<u8>, pos: int, a: Seq<u8>, b: Seq<u8>)
    ensures
        holds_at(s, pos, a + b) <==> holds_at(s, pos, a) && holds_at(s, pos + a.len(), b),
{
    let ab = a + b;
    if holds_at(s, pos, ab) {
        assert forall|i: int| 0 <= i < a.len() implies s.subrange(pos, pos + a.len())[i]
            == a[i] by {
            assert(s[pos + i] == s.subrange(pos, pos + ab.len())[i]);
            assert(ab[i] == a[i]);
        }
        assert(s.subrange(pos, pos + a.len()) =~= a);
        assert forall|i: int| 0 <= i < b.len() implies s.subrange(
            pos + a.len(),
            pos + a.len() + b.len(),
        )[i] == b[i] by {
            assert(s[pos + a.len() + i] == s.subrange(pos, pos + ab.len())[a.len() + i]);
            assert(ab[a.len() + i] == b[i]);
        }
        assert(s.subrange(pos + a.len(), pos + a.len() + b.len()) =~= b);
    }
    if holds_at(s, pos, a) && holds_at(s, pos + a.len(), b) {
        assert forall|i: int| 0 <= i < ab.len() implies s.subrange(pos, pos + ab.len())[i]
            == ab[i] by {
            if i < a.len() {
                assert(s[pos + i] == s.subrange(pos, pos + a.len())[i]);
            } else {
                assert(s[pos + i] == s.subrange(pos + a.len(), pos + a.len() + b.len())[i
                    - a.len()]);
            }
        }
        assert(s.subrange(pos, pos + ab.len()) =~= ab);
    }
}

/// Where a text stands at `pos`, the bytes from `pos` on are the bytes of
/// the text.
pub proof fn lemma_holds_at_index(s: Seq<u8>, pos: int, text: Seq<u8>, i: int)
    requires
        holds_at(s, pos, text),
        0 <= i < text.len(),
    ensures
        s[pos + i] == text[i],
{
    assert(s[pos + i] == s.subrange(pos, pos + text.len())[i]);
}

/// Every encoding starts with the byte that tells its kind, and has at
/// least two bytes.
pub proof fn lemma_encoding_head(v: Value)
    ensures
        v.encoding().len() >= 2,
        v is Int ==> v.encoding()[0] == 0x69,
        v is List ==> v.encoding()[0] == 0x6c,
        v is Dict ==> v.encoding()[0] == 0x64,
        v is Bytes ==> is_digit(v.encoding()[0]),
{
    match v {
        Value::Int(i) => {
            lemma_nat_text_shape(
                if i < 0 {
                    (-i) as nat
                } else {
                    i as nat
                },
            );
        },
        Value::Bytes(b) => {
            lemma_bytes_encoding_head(b);
        },
        Value::List(_) => {},
        Value::Dict(_) => {},
    }
}

/// The encoding of a byte string starts with a digit.
pub proof fn lemma_bytes_encoding_head(b: Seq<u8>)
    ensures
        bytes_encoding(b).len() >= 2,
        is_digit(bytes_encoding(b)[0]),
{
    lemma_nat_text_shape(b.len());
    assert(bytes_encoding(b)[0] == nat_text(b.len())[0]);
}

/// Where the text of a number stands, followed by a byte that is no digit,
/// the run of digits there ends behind the text and spells the number.
proof fn lemma_number_at(s: Seq<u8>, pos: int, n: nat)
    requires
        holds_at(s, pos, nat_text(n)),
        pos + nat_text(n).len() < s.len(),
        !is_digit(s[pos + nat_text(n).len()]),
    ensures
        digits_end(s, pos) == pos + nat_text(n).len(),
        digits_value(s, pos, pos + nat_text(n).len()) == n,
        s[pos] == 0x30 <==> n == 0,
        n == 0 ==> nat_text(n).len() == 1,
        nat_text(n).len() >= 1,
{
    lemma_nat_text_shape(n);
    lemma_digits_value_of_text(s, pos, n);
    lemma_digits_end_is(s, pos, pos + nat_text(n).len());
    lemma_holds_at_index(s, pos, nat_text(n), 0);
}

/// The integer read where the encoding of `i` stands is `i`.
proof fn lemma_int_at_encoding(s: Seq<u8>, pos: int, i: i64)
    requires
        holds_at(s, pos, Value::Int(i).encoding()),
    ensures
        value_at(s, pos) == Ok::<(Value, int), DecodeError>(
            (Value::Int(i), pos + Value::Int(i).encoding().len()),
        ),
{
    let text = int_text(i as int);
    let enc = Value::Int(i).encoding();
    assert(enc == seq![0x69u8] + text + seq![0x65u8]);
    lemma_holds_at_concat(s, pos, seq![0x69u8] + text, seq![0x65u8]);
    lemma_holds_at_concat(s, pos, seq![0x69u8], text);
    lemma_holds_at_index(s, pos, seq![0x69u8], 0);
    lemma_holds_at_index(s, pos + 1 + text.len(), seq![0x65u8], 0);
    assert(s[pos] == 0x69);
    assert(s[pos + 1 + text.len()] == 0x65);
    if i < 0 {
        let m = (-i) as nat;
        assert(text == seq![0x2du8] + nat_text(m));
        lemma_holds_at_concat(s, pos + 1, seq![0x2du8], nat_text(m));
        lemma_holds_at_index(s, pos + 1, seq![0x2du8], 0);
        assert(s[pos + 1] == 0x2d);
        lemma_number_at(s, pos + 2, m);
        assert(int_at(s, pos + 1) == Ok::<(Value, int), DecodeError>(
            (Value::Int(i), pos + enc.len()),
        ));
    } else {
        let m = i as nat;
        assert(text == nat_text(m));
        lemma_nat_text_shape(m);
        lemma_holds_at_index(s, pos + 1, text, 0);
        assert(is_digit(s[pos + 1]));
        lemma_number_at(s, pos + 1, m);
        assert(int_at(s, pos + 1) == Ok::<(Value, int), DecodeError>(
            (Value::Int(i), pos + enc.len()),
        ));
    }
}

/// The byte string read where the encoding of `b` stands is `b`.
proof fn lemma_bytes_at_encoding(s: Seq<u8>, pos: int, b: Seq<u8>)
    requires
        holds_at(s, pos, bytes_encoding(b)),
    ensures
        bytes_at(s, pos) == Ok::<(Seq<u8>, int), DecodeError>(
            (b, pos + bytes_encoding(b).len()),
        ),
        is_digit(s[pos]),
{
    let n = b.len();
    let text = nat_text(n);
    assert(bytes_encoding(b) == text + seq![0x3au8] + b);
    lemma_holds_at_concat(s, pos, text + seq![0x3au8], b);
    lemma_holds_at_concat(s, pos, text, seq![0x3au8]);
    lemma_holds_at_index(s, pos + text.len(), seq![0x3au8], 0);
    assert(s[pos + text.len()] == 0x3a);
    lemma_number_at(s, pos, n);
    lemma_nat_text_shape(n);
    lemma_holds_at_index(s, pos, text, 0);
}

/// The value read where the encoding of a well-formed value stands is that
/// value, and reading stops right behind the encoding.
pub proof fn lemma_value_at_encoding(s: Seq<u8>, pos: int, v: Value)
    requires
        v.wf(),
        holds_at(s, pos, v.encoding()),
    ensures
        value_at(s, pos) == Ok::<(Value, int), DecodeError>((v, pos + v.encoding().len())),
    decreases v,
{
    lemma_encoding_head(v);
    lemma_holds_at_index(s, pos, v.encoding(), 0);
    match v {
        Value::Int(i) => {
            lemma_int_at_encoding(s, pos, i);
        },
        Value::Bytes(b) => {
            lemma_bytes_at_encoding(s, pos, b);
        },
        Value::List(items) => {
            let body = list_encoding(items) + seq![0x65u8];
            assert(v.encoding() =~= seq![0x6cu8] + body);
            lemma_holds_at_concat(s, pos, seq![0x6cu8], body);
            lemma_items_at_encoding(s, pos + 1, items);
        },
        Value::Dict(entries) => {
            let body = dict_encoding(entries) + seq![0x65u8];
            assert(v.encoding() =~= seq![0x64u8] + body);
            lemma_holds_at_concat(s, pos, seq![0x64u8], body);
            lemma_entries_at_encoding(s, pos + 1, entries, None);
        },
    }
}

/// The items read where the encodings of well-formed items stand, closed by
/// an `e`, are those items.
pub proof fn lemma_items_at_encoding(s: Seq<u8>, pos: int, items: Seq<Value>)
    requires
        forall|i: int| 0 <= i < items.len() ==> (#[trigger] items[i]).wf(),
        holds_at(s, pos, list_encoding(items) + seq![0x65u8]),
    ensures
        items_at(s, pos) == Ok::<(Seq<Value>, int), DecodeError>(
            (items, pos + list_encoding(items).len() + 1),
        ),
    decreases items,
{
    let body = list_encoding(items) + seq![0x65u8];
    if items.len() == 0 {
        lemma_holds_at_index(s, pos, body, 0);
        assert(items =~= Seq::<Value>::empty());
    } else {
        let first = items[0];
        let rest = items.drop_first();
        let tail = list_encoding(rest) + seq![0x65u8];
        assert(body =~= first.encoding() + tail);
        lemma_holds_at_concat(s, pos, first.encoding(), tail);
        lemma_encoding_head(first);
        lemma_holds_at_index(s, pos, first.encoding(), 0);
        assert(first.wf());
        lemma_value_at_encoding(s, pos, first);
        assert forall|i: int| 0 <= i < rest.len() implies (#[trigger] rest[i]).wf() by {
            assert(rest[i] == items[i + 1]);
        }
        lemma_items_at_encoding(s, pos + first.encoding().len(), rest);
        assert(seq![first] + rest =~= items);
    }
}

/// The entries read where the encodings of well-formed entries with
/// ascending keys stand, closed by an `e`, are those entries.
pub proof fn lemma_entries_at_encoding(
    s: Seq<u8>,
    pos: int,
    entries: Seq<(Seq<u8>, Value)>,
    prev: Option<Seq<u8>>,
)
    requires
        keys_ascending(entries),
        forall|i: int| 0 <= i < entries.len() ==> (#[trigger] entries[i]).1.wf(),
        prev is Some && entries.len() > 0 ==> bytes_lt(prev->0, entries[0].0),
        holds_at(s, pos, dict_encoding(entries) + seq![0x65u8]),
    ensures
        entries_at(s, pos, prev) == Ok::<(Seq<(Seq<u8>, Value)>, int), DecodeError>(
            (entries, pos + dict_encoding(entries).len() + 1),
        ),
    decreases entries,
{
    let body = dict_encoding(entries) + seq![0x65u8];
    if entries.len() == 0 {
        lemma_holds_at_index(s, pos, body, 0);
        assert(entries =~= Seq::<(Seq<u8>, Value)>::empty());
    } else {
        let key = entries[0].0;
        let value = entries[0].1;
        let rest = entries.drop_first();
        let tail = dict_encoding(rest) + seq![0x65u8];
        assert(body =~= bytes_encoding(key) + (value.encoding() + tail));
        lemma_holds_at_concat(s, pos, bytes_encoding(key), value.encoding() + tail);
        let at = pos + bytes_encoding(key).len();
        lemma_holds_at_concat(s, at, value.encoding(), tail);
        lemma_bytes_at_encoding(s, pos, key);
        lemma_bytes_encoding_head(key);
        lemma_encoding_head(value);
        assert(value.wf());
        lemma_value_at_encoding(s, at, value);
        assert forall|i: int| 0 <= i < rest.len() implies (#[trigger] rest[i]).1.wf() by {
            assert(rest[i] == entries[i + 1]);
        }
        assert(keys_ascending(rest)) by {
            assert forall|i: int| 0 <= i < rest.len() - 1 implies bytes_lt(
                (#[trigger] rest[i]).0,
                rest[i + 1].0,
            ) by {
                assert(rest[i] == entries[i + 1]);
                assert(rest[i + 1] == entries[i + 2]);
                assert(bytes_lt(entries[i + 1].0, entries[i + 2].0));
            }
        }
        if rest.len() > 0 {
            assert(rest[0] == entries[1]);
            assert(bytes_lt(entries[0].0, entries[1].0));
        }
        lemma_entries_at_encoding(s, at + value.encoding().len(), rest, Some(key));
        assert(seq![(key, value)] + rest =~= entries);
    }
}

/// Decoding the encoding of a well-formed value, with any bytes behind it,
/// gives the value back and leaves those bytes.
pub proof fn lemma_decode_encode(v: Value, rest: Seq<u8>)
    requires
        v.wf(),
    ensures
        decoded(v.encoding() + rest) == Ok::<(Value, Seq<u8>), DecodeError>((v, rest)),
{
    let s = v.encoding() + rest;
    assert(s.subrange(0, v.encoding().len() as int) =~= v.encoding());
    lemma_value_at_encoding(s, 0, v);
    assert(s.subrange(v.encoding().len() as int, s.len() as int) =~= rest);
}

/// Two adjoining ranges of `s` make up the range that spans both.
pub proof fn lemma_subrange_join(s: Seq<u8>, a: int, b: int, c: int)
    requires
        0 <= a <= b <= c <= s.len(),
    ensures
        s.subrange(a, c) == s.subrange(a, b) + s.subrange(b, c),
{
    assert(s.subrange(a, c) =~= s.subrange(a, b) + s.subrange(b, c));
}

/// Where an integer is read, the bytes read are its encoding.
proof fn lemma_encoding_of_int_at(s: Seq<u8>, pos: int)
    requires
        0 <= pos < s.len(),
        s[pos] == 0x69,
        int_at(s, pos + 1) is Ok,
    ensures
        ({
            let (v, end) = int_at(s, pos + 1)->Ok_0;
            &&& pos < end <= s.len()
            &&& v.wf()
            &&& s.subrange(pos, end) == v.encoding()
        }),
{
    let p = pos + 1;
    let negative = 0 <= p < s.len() && s[p] == 0x2d;
    let start = if negative {
        p + 1
    } else {
        p
    };
    lemma_digits_end(s, start);
    let end = digits_end(s, start);
    let m = digits_value(s, start, end);
    let (v, stop) = int_at(s, p)->Ok_0;
    assert(stop == end + 1);
    lemma_text_of_digits_value(s, start, end);
    assert(nat_text(m) == s.subrange(start, end));
    if negative {
        lemma_digits_value_positive(s, start, end);
        assert(v == Value::Int((-m) as i64));
        assert(int_text(-m) == seq![0x2du8] + nat_text(m));
        assert(s.subrange(pos, stop) =~= seq![0x69u8] + int_text(-m) + seq![0x65u8]);
    } else {
        assert(v == Value::Int(m as i64));
        assert(int_text(m as int) == nat_text(m));
        assert(s.subrange(pos, stop) =~= seq![0x69u8] + int_text(m as int) + seq![0x65u8]);
    }
}

/// Where a byte string is read, the bytes read are its encoding.
proof fn lemma_encoding_of_bytes_at(s: Seq<u8>, pos: int)
    requires
        0 <= pos <= s.len(),
        bytes_at(s, pos) is Ok,
    ensures
        ({
            let (b, end) = bytes_at(s, pos)->Ok_0;
            &&& pos < end <= s.len()
            &&& s.subrange(pos, end) == bytes_encoding(b)
        }),
{
    lemma_digits_end(s, pos);
    let mid = digits_end(s, pos);
    let n = digits_value(s, pos, mid);
    let (b, end) = bytes_at(s, pos)->Ok_0;
    lemma_text_of_digits_value(s, pos, mid);
    assert(b.len() == n);
    assert(s.subrange(pos, end) =~= nat_text(n) + seq![0x3au8] + b);
}

/// Where a value is read, it is well formed and the bytes read are its
/// encoding.
pub proof fn lemma_encoding_of_value_at(s: Seq<u8>, pos: int)
    requires
        0 <= pos <= s.len(),
        value_at(s, pos) is Ok,
    ensures
        ({
            let (v, end) = value_at(s, pos)->Ok_0;
            &&& pos < end <= s.len()
            &&& v.wf()
            &&& s.subrange(pos, end) == v.encoding()
        }),
    decreases s.len() - pos, 0nat,
{
    let (v, end) = value_at(s, pos)->Ok_0;
    if s[pos] == 0x69 {
        lemma_encoding_of_int_at(s, pos);
    } else if s[pos] == 0x6c {
        lemma_encoding_of_items_at(s, pos + 1);
        let items = items_at(s, pos + 1)->Ok_0.0;
        assert(v == Value::List(items));
        assert(s.subrange(pos, end) =~= seq![0x6cu8] + s.subrange(pos + 1, end));
        assert(s.subrange(pos, end) =~= seq![0x6cu8] + list_encoding(items) + seq![0x65u8]);
    } else if s[pos] == 0x64 {
        lemma_encoding_of_entries_at(s, pos + 1, None);
        let entries = entries_at(s, pos + 1, None)->Ok_0.0;
        assert(v == Value::Dict(entries));
        assert(s.subrange(pos, end) =~= seq![0x64u8] + s.subrange(pos + 1, end));
        assert(s.subrange(pos, end) =~= seq![0x64u8] + dict_encoding(entries) + seq![0x65u8]);
    } else {
        lemma_encoding_of_bytes_at(s, pos);
    }
}

/// Where the items of a list are read, they are well formed and the bytes
/// read are their encodings and the closing `e`.
pub proof fn lemma_encoding_of_items_at(s: Seq<u8>, pos: int)
    requires
        0 <= pos <= s.len(),
        items_at(s, pos) is Ok,
    ensures
        ({
            let (items, end) = items_at(s, pos)->Ok_0;
            &&& pos < end <= s.len()
            &&& forall|i: int| 0 <= i < items.len() ==> (#[trigger] items[i]).wf()
            &&& s.subrange(pos, end) == list_encoding(items) + seq![0x65u8]
        }),
    decreases s.len() - pos, 1nat,
{
    let (items, end) = items_at(s, pos)->Ok_0;
    if s[pos] == 0x65 {
        assert(list_encoding(items) =~= Seq::<u8>::empty());
        assert(s.subrange(pos, end) =~= list_encoding(items) + seq![0x65u8]);
    } else {
        lemma_encoding_of_value_at(s, pos);
        let (first, next) = value_at(s, pos)->Ok_0;
        lemma_encoding_of_items_at(s, next);
        let (rest, stop) = items_at(s, next)->Ok_0;
        assert(items == seq![first] + rest);
        assert(items.drop_first() =~= rest);
        assert(items[0] == first);
        assert forall|i: int| 0 <= i < items.len() implies (#[trigger] items[i]).wf() by {
            if i > 0 {
                assert(items[i] == rest[i - 1]);
            }
        }
        lemma_subrange_join(s, pos, next, end);
        assert(s.subrange(pos, end) =~= list_encoding(items) + seq![0x65u8]);
    }
}

/// Where the entries of a dictionary are read, their keys ascend from the
/// key before them, their values are well formed and the bytes read are
/// their encodings and the closing `e`.
pub proof fn lemma_encoding_of_entries_at(s: Seq<u8>, pos: int, prev: Option<Seq<u8>>)
    requires
        0 <= pos <= s.len(),
        entries_at(s, pos, prev) is Ok,
    ensures
        ({
            let (entries, end) = entries_at(s, pos, prev)->Ok_0;
            &&& pos < end <= s.len()
            &&& keys_ascending(entries)
            &&& prev is Some && entries.len() > 0 ==> bytes_lt(prev->0, entries[0].0)
            &&& forall|i: int| 0 <= i < entries.len() ==> (#[trigger] entries[i]).1.wf()
            &&& s.subrange(pos, end) == dict_encoding(entries) + seq![0x65u8]
        }),
    decreases s.len() - pos, 1nat,
{
    let (entries, end) = entries_at(s, pos, prev)->Ok_0;
    if s[pos] == 0x65 {
        assert(dict_encoding(entries) =~= Seq::<u8>::empty());
        assert(s.subrange(pos, end) =~= dict_encoding(entries) + seq![0x65u8]);
    } else {
        lemma_encoding_of_bytes_at(s, pos);
        let (key, at) = bytes_at(s, pos)->Ok_0;
        lemma_encoding_of_value_at(s, at);
        let (value, next) = value_at(s, at)->Ok_0;
        lemma_encoding_of_entries_at(s, next, Some(key));
        let (rest, stop) = entries_at(s, next, Some(key))->Ok_0;
        assert(entries == seq![(key, value)] + rest);
        assert(entries.drop_first() =~= rest);
        assert(entries[0] == (key, value));
        assert forall|i: int| 0 <= i < entries.len() implies (#[trigger] entries[i]).1.wf() by {
            if i > 0 {
                assert(entries[i] == rest[i - 1]);
            }
        }
        assert forall|i: int| 0 <= i < entries.len() - 1 implies bytes_lt(
            (#[trigger] entries[i]).0,
            entries[i + 1].0,
        ) by {
            assert(entries[i + 1] == rest[i]);
            if i > 0 {
                assert(entries[i] == rest[i - 1]);
                assert(bytes_lt(rest[i - 1].0, rest[i].0));
            }
        }
        lemma_subrange_join(s, pos, at, end);
        lemma_subrange_join(s, at, next, end);
        assert(s.subrange(pos, end) =~= dict_encoding(entries) + seq![0x65u8]);
    }
}

/// Whatever decodes is the canonical encoding of the well-formed value it
/// decodes to, followed by the bytes that decoding leaves.
pub proof fn lemma_encode_decode(s: Seq<u8>)
    requires
        decoded(s) is Ok,
    ensures
        decoded(s)->Ok_0.0.wf(),
        s == decoded(s)->Ok_0.0.encoding() + decoded(s)->Ok_0.1,
{
    lemma_encoding_of_value_at(s, 0);
    let end = value_at(s, 0)->Ok_0.1;
    lemma_subrange_join(s, 0, end, s.len() as int);
    assert(s.subrange(0, s.len() as int) =~= s);
}

} // verus!
