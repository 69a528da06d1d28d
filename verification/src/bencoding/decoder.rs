//! The strict decoder.
//!
//! The grammar is given by the spec functions `value_at`, `items_at`,
//! `entries_at`, `int_at` and `bytes_at`, which read a value at a position
//! of a byte sequence. The executable functions compute exactly what those
//! say, errors included.

use super::text::{all_digits, digits_end, digits_value, is_digit, lemma_digits_value_grows};
use super::{bytes_lt, bytes_lt_from, dict_view, lemma_dict_view, lemma_list_view, list_view,
    Bencode, Value};
use super::laws::lemma_encode_decode;
use vstd::prelude::*;

verus! {

/// Why a byte sequence is not the encoding of a value.
#[derive(Debug, Clone, Copy, PartialEq, Eq)]
pub enum DecodeError {
    /// The input ends inside a value.
    Truncated,
    /// A byte that the grammar does not allow where it stands: an unknown
    /// type byte, a wrong delimiter, a number with a leading zero or without
    /// digits, `-0`, or an integer beyond 64 bits.
    Syntax,
    /// A dictionary key that is not strictly greater than the key before it.
    KeyOrder,
    /// A dictionary key that is an integer, a list or a dictionary.
    NotBytesKey,
}

/// The integer whose text starts at `pos`, just behind the `i`, and the
/// position behind its closing `e`.
pub open spec fn int_at(s: Seq<u8>, pos: int) -> Result<(Value, int), DecodeError> {
    let negative = 0 <= pos < s.len() && s[pos] == 0x2d;
    let start = if negative {
        pos + 1
    } else {
        pos
    };
    let end = digits_end(s, start);
    if end >= s.len() {
        Err(DecodeError::Truncated)
    } else if s[end] != 0x65 {
        Err(DecodeError::Syntax)
    } else if end == start {
        Err(DecodeError::Syntax)
    } else if s[start] == 0x30 && (negative || end - start > 1) {
        Err(DecodeError::Syntax)
    } else {
        let magnitude = digits_value(s, start, end);
        let value = if negative {
            -magnitude
        } else {
            magnitude as int
        };
        if i64::MIN <= value <= i64::MAX {
            Ok((Value::Int(value as i64), end + 1))
        } else {
            Err(DecodeError::Syntax)
        }
    }
}

/// The byte string whose length prefix starts at `pos`, and the position
/// behind its last byte.
pub open spec fn bytes_at(s: Seq<u8>, pos: int) -> Result<(Seq<u8>, int), DecodeError> {
    let end = digits_end(s, pos);
    if end >= s.len() {
        Err(DecodeError::Truncated)
    } else if s[end] != 0x3a {
        Err(DecodeError::Syntax)
    } else if end == pos {
        Err(DecodeError::Syntax)
    } else if s[pos] == 0x30 && end - pos > 1 {
        Err(DecodeError::Syntax)
    } else {
        let n = digits_value(s, pos, end);
        if end + 1 + n > s.len() {
            Err(DecodeError::Truncated)
        } else {
            Ok((s.subrange(end + 1, end + 1 + n), end + 1 + n))
        }
    }
}

/// The value that starts at `pos`, and the position behind it.
pub open spec fn value_at(s: Seq<u8>, pos: int) -> Result<(Value, int), DecodeError>
    decreases s.len() - pos, 0nat,
{
    if pos < 0 || pos >= s.len() {
        Err(DecodeError::Truncated)
    } else if s[pos] == 0x69 {
        int_at(s, pos + 1)
    } else if s[pos] == 0x6c {
        match items_at(s, pos + 1) {
            Ok((items, end)) => Ok((Value::List(items), end)),
            Err(e) => Err(e),
        }
    } else if s[pos] == 0x64 {
        match entries_at(s, pos + 1, None) {
            Ok((entries, end)) => Ok((Value::Dict(entries), end)),
            Err(e) => Err(e),
        }
    } else if is_digit(s[pos]) {
        match bytes_at(s, pos) {
            Ok((b, end)) => Ok((Value::Bytes(b), end)),
            Err(e) => Err(e),
        }
    } else {
        Err(DecodeError::Syntax)
    }
}

/// The items of a list from `pos` up to its closing `e`, and the position
/// behind that `e`.
///
/// The bounds on where an item ends are there for termination only: a
/// value always ends behind where it starts and within `s`, as
/// `lemma_encoding_of_value_at` shows.
pub open spec fn items_at(s: Seq<u8>, pos: int) -> Result<(Seq<Value>, int), DecodeError>
    decreases s.len() - pos, 1nat,
{
    if pos < 0 || pos >= s.len() {
        Err(DecodeError::Truncated)
    } else if s[pos] == 0x65 {
        Ok((Seq::empty(), pos + 1))
    } else {
        match value_at(s, pos) {
            Err(e) => Err(e),
            Ok((first, next)) => if next <= pos || next > s.len() {
                Err(DecodeError::Syntax)
            } else {
                match items_at(s, next) {
                    Err(e) => Err(e),
                    Ok((rest, end)) => Ok((seq![first] + rest, end)),
                }
            },
        }
    }
}

/// The entries of a dictionary from `pos` up to its closing `e`, and the
/// position behind that `e`; `prev` is the key of the entry before `pos`.
///
/// The bounds on where a key and a value end are there for termination
/// only, as in `items_at`.
pub open spec fn entries_at(s: Seq<u8>, pos: int, prev: Option<Seq<u8>>) -> Result<
    (Seq<(Seq<u8>, Value)>, int),
    DecodeError,
>
    decreases s.len() - pos, 1nat,
{
    if pos < 0 || pos >= s.len() {
        Err(DecodeError::Truncated)
    } else if s[pos] == 0x65 {
        Ok((Seq::empty(), pos + 1))
    } else if s[pos] == 0x69 || s[pos] == 0x6c || s[pos] == 0x64 {
        Err(DecodeError::NotBytesKey)
    } else if !is_digit(s[pos]) {
        Err(DecodeError::Syntax)
    } else {
        match bytes_at(s, pos) {
            Err(e) => Err(e),
            Ok((key, at)) => if prev is Some && !bytes_lt(prev->0, key) {
                Err(DecodeError::KeyOrder)
            } else if at <= pos {
                Err(DecodeError::Syntax)
            } else {
                match value_at(s, at) {
                    Err(e) => Err(e),
                    Ok((value, next)) => if next <= at || next > s.len() {
                        Err(DecodeError::Syntax)
                    } else {
                        match entries_at(s, next, Some(key)) {
                            Err(e) => Err(e),
                            Ok((rest, end)) => Ok((seq![(key, value)] + rest, end)),
                        }
                    },
                }
            },
        }
    }
}

/// What decoding `s` gives: the value that `s` starts with and the bytes
/// behind it, or the reason why `s` starts with no value.
pub open spec fn decoded(s: Seq<u8>) -> Result<(Value, Seq<u8>), DecodeError> {
    match value_at(s, 0) {
        Ok((value, end)) => Ok((value, s.subrange(end, s.len() as int))),
        Err(e) => Err(e),
    }
}

/// Whether `r`, computed from bytes, is what the grammar gives as `spec`.
pub open spec fn value_agrees(
    r: Result<(Bencode, usize), DecodeError>,
    spec: Result<(Value, int), DecodeError>,
) -> bool {
    match r {
        Ok((b, end)) => spec == Ok::<(Value, int), DecodeError>((b@, end as int)),
        Err(e) => spec == Err::<(Value, int), DecodeError>(e),
    }
}

/// `spec` with `prefix` put before the items it holds.
pub open spec fn items_after(
    prefix: Seq<Value>,
    spec: Result<(Seq<Value>, int), DecodeError>,
) -> Result<(Seq<Value>, int), DecodeError> {
    match spec {
        Ok((rest, end)) => Ok((prefix + rest, end)),
        Err(e) => Err(e),
    }
}

/// `spec` with `prefix` put before the entries it holds.
pub open spec fn entries_after(
    prefix: Seq<(Seq<u8>, Value)>,
    spec: Result<(Seq<(Seq<u8>, Value)>, int), DecodeError>,
) -> Result<(Seq<(Seq<u8>, Value)>, int), DecodeError> {
    match spec {
        Ok((rest, end)) => Ok((prefix + rest, end)),
        Err(e) => Err(e),
    }
}

/// Whether `a` comes strictly before `b` in byte-wise lexicographic order.
pub fn bytes_less(a: &[u8], b: &[u8]) -> (less: bool)
    ensures
        less == bytes_lt(a@, b@),
{
    let mut i: usize = 0;
    while i < a.len() && i < b.len() && a[i] == b[i]
        invariant
            i <= a.len(),
            i <= b.len(),
            bytes_lt(a@, b@) == bytes_lt_from(a@, b@, i as int),
        decreases a.len() - i,
    {
        i += 1;
    }
    if i >= b.len() {
        false
    } else if i >= a.len() {
        true
    } else {
        a[i] < b[i]
    }
}

/// Reads the run of digits that starts at `start`: the position behind it
/// and the number it spells, unless that number is above `cap`.
fn scan_digits(input: &[u8], start: usize, cap: u64) -> (r: (usize, Option<u64>))
    requires
        start <= input.len(),
    ensures
        r.0 == digits_end(input@, start as int),
        start <= r.0 <= input.len(),
        match r.1 {
            Some(v) => v == digits_value(input@, start as int, r.0 as int) && v <= cap,
            None => digits_value(input@, start as int, r.0 as int) > cap,
        },
{
    let mut i: usize = start;
    let mut acc: u128 = 0;
    let mut over: bool = false;
    while i < input.len() && input[i] >= 0x30 && input[i] <= 0x39
        invariant
            start <= i <= input.len(),
            all_digits(input@, start as int, i as int),
            digits_end(input@, start as int) == digits_end(input@, i as int),
            !over ==> acc == digits_value(input@, start as int, i as int) && acc <= cap,
            over ==> digits_value(input@, start as int, i as int) > cap,
        decreases input.len() - i,
    {
        proof {
            assert(is_digit(input@[i as int]));
            assert(all_digits(input@, start as int, i + 1));
            lemma_digits_value_grows(input@, start as int, i as int, i + 1);
        }
        if !over {
            acc = acc * 10 + (input[i] - 0x30) as u128;
            if acc > cap as u128 {
                over = true;
            }
        }
        i += 1;
    }
    if over {
        (i, None)
    } else {
        (i, Some(acc as u64))
    }
}

/// Reads the integer whose text starts at `pos`, just behind the `i`.
fn parse_int(input: &[u8], pos: usize) -> (r: Result<(Bencode, usize), DecodeError>)
    requires
        pos <= input.len(),
    ensures
        value_agrees(r, int_at(input@, pos as int)),
        r matches Ok((_, end)) ==> pos < end <= input.len(),
{
    let negative = pos < input.len() && input[pos] == 0x2d;
    let start = if negative {
        pos + 1
    } else {
        pos
    };
    let (end, magnitude) = scan_digits(input, start, 0x8000_0000_0000_0000);
    if end >= input.len() {
        return Err(DecodeError::Truncated);
    }
    if input[end] != 0x65 {
        return Err(DecodeError::Syntax);
    }
    if end == start {
        return Err(DecodeError::Syntax);
    }
    if input[start] == 0x30 && (negative || end - start > 1) {
        return Err(DecodeError::Syntax);
    }
    match magnitude {
        None => Err(DecodeError::Syntax),
        Some(m) => {
            if negative {
                let value: i64 = if m == 0x8000_0000_0000_0000 {
                    i64::MIN
                } else {
                    -(m as i64)
                };
                Ok((Bencode::Int(value), end + 1))
            } else if m > 0x7fff_ffff_ffff_ffff {
                Err(DecodeError::Syntax)
            } else {
                Ok((Bencode::Int(m as i64), end + 1))
            }
        },
    }
}

/// Reads the byte string whose length prefix starts at `pos`.
fn parse_bytes(input: &[u8], pos: usize) -> (r: Result<(Vec<u8>, usize), DecodeError>)
    requires
        pos <= input.len(),
    ensures
        match r {
            Ok((b, end)) => bytes_at(input@, pos as int) == Ok::<(Seq<u8>, int), DecodeError>(
                (b@, end as int),
            ) && pos < end <= input.len(),
            Err(e) => bytes_at(input@, pos as int) == Err::<(Seq<u8>, int), DecodeError>(e),
        },
{
    let (end, length) = scan_digits(input, pos, input.len() as u64);
    if end >= input.len() {
        return Err(DecodeError::Truncated);
    }
    if input[end] != 0x3a {
        return Err(DecodeError::Syntax);
    }
    if end == pos {
        return Err(DecodeError::Syntax);
    }
    if input[pos] == 0x30 && end - pos > 1 {
        return Err(DecodeError::Syntax);
    }
    match length {
        None => Err(DecodeError::Truncated),
        Some(n) => {
            let n = n as usize;
            if n > input.len() - end - 1 {
                Err(DecodeError::Truncated)
            } else {
                let bytes = vstd::slice::slice_to_vec(
                    vstd::slice::slice_subrange(input, end + 1, end + 1 + n),
                );
                Ok((bytes, end + 1 + n))
            }
        },
    }
}

/// Reads the items of a list from `pos` up to its closing `e`.
fn parse_list(input: &[u8], pos: usize) -> (r: Result<(Vec<Bencode>, usize), DecodeError>)
    requires
        pos <= input.len(),
    ensures
        match r {
            Ok((items, end)) => items_at(input@, pos as int) == Ok::<
                (Seq<Value>, int),
                DecodeError,
            >((list_view(items@, items@.len()), end as int)) && pos < end <= input.len(),
            Err(e) => items_at(input@, pos as int) == Err::<(Seq<Value>, int), DecodeError>(e),
        },
    decreases input.len() - pos, 1nat,
{
    let mut items: Vec<Bencode> = Vec::new();
    let mut cur: usize = pos;
    loop
        invariant
            pos <= cur <= input.len(),
            items_at(input@, pos as int) == items_after(
                list_view(items@, items@.len()),
                items_at(input@, cur as int),
            ),
        decreases input.len() - cur,
    {
        if cur >= input.len() {
            return Err(DecodeError::Truncated);
        }
        if input[cur] == 0x65 {
            proof {
                assert(list_view(items@, items@.len()) + Seq::<Value>::empty() =~= list_view(
                    items@,
                    items@.len(),
                ));
            }
            return Ok((items, cur + 1));
        }
        match parse_value(input, cur) {
            Err(e) => {
                return Err(e);
            },
            Ok((item, next)) => {
                let ghost before = items@;
                let ghost item_view = item@;
                items.push(item);
                proof {
                    lemma_list_view(before, before.len());
                    lemma_list_view(items@, items@.len());
                    assert(list_view(items@, items@.len()) =~= list_view(before, before.len()).push(
                        item_view,
                    ));
                    match items_at(input@, next as int) {
                        Ok((rest, end)) => {
                            assert(list_view(before, before.len()) + (seq![item_view] + rest)
                                =~= list_view(items@, items@.len()) + rest);
                        },
                        Err(_) => {},
                    }
                }
                cur = next;
            },
        }
    }
}

/// Reads the entries of a dictionary from `pos` up to its closing `e`.
fn parse_dict(input: &[u8], pos: usize) -> (r: Result<
    (Vec<(Vec<u8>, Bencode)>, usize),
    DecodeError,
>)
    requires
        pos <= input.len(),
    ensures
        match r {
            Ok((entries, end)) => entries_at(input@, pos as int, None) == Ok::<
                (Seq<(Seq<u8>, Value)>, int),
                DecodeError,
            >((dict_view(entries@, entries@.len()), end as int)) && pos < end <= input.len(),
            Err(e) => entries_at(input@, pos as int, None) == Err::<
                (Seq<(Seq<u8>, Value)>, int),
                DecodeError,
            >(e),
        },
    decreases input.len() - pos, 1nat,
{
    let mut entries: Vec<(Vec<u8>, Bencode)> = Vec::new();
    let mut cur: usize = pos;
    loop
        invariant
            pos <= cur <= input.len(),
            entries_at(input@, pos as int, None) == entries_after(
                dict_view(entries@, entries@.len()),
                entries_at(
                    input@,
                    cur as int,
                    if entries@.len() == 0 {
                        None
                    } else {
                        Some(entries@[entries@.len() - 1].0@)
                    },
                ),
            ),
        decreases input.len() - cur,
    {
        if cur >= input.len() {
            return Err(DecodeError::Truncated);
        }
        let first = input[cur];
        if first == 0x65 {
            proof {
                assert(dict_view(entries@, entries@.len()) + Seq::<(Seq<u8>, Value)>::empty()
                    =~= dict_view(entries@, entries@.len()));
            }
            return Ok((entries, cur + 1));
        }
        if first == 0x69 || first == 0x6c || first == 0x64 {
            return Err(DecodeError::NotBytesKey);
        }
        if first < 0x30 || first > 0x39 {
            return Err(DecodeError::Syntax);
        }
        let (key, at) = match parse_bytes(input, cur) {
            Err(e) => {
                return Err(e);
            },
            Ok(found) => found,
        };
        let count = entries.len();
        if count > 0 && !bytes_less(entries[count - 1].0.as_slice(), key.as_slice()) {
            return Err(DecodeError::KeyOrder);
        }
        match parse_value(input, at) {
            Err(e) => {
                return Err(e);
            },
            Ok((value, next)) => {
                let ghost before = entries@;
                let ghost entry = (key@, value@);
                entries.push((key, value));
                proof {
                    lemma_dict_view(before, before.len());
                    lemma_dict_view(entries@, entries@.len());
                    assert(dict_view(entries@, entries@.len()) =~= dict_view(
                        before,
                        before.len(),
                    ).push(entry));
                    match entries_at(input@, next as int, Some(entry.0)) {
                        Ok((rest, end)) => {
                            assert(dict_view(before, before.len()) + (seq![entry] + rest)
                                =~= dict_view(entries@, entries@.len()) + rest);
                        },
                        Err(_) => {},
                    }
                }
                cur = next;
            },
        }
    }
}

/// Reads the value that starts at `pos`.
fn parse_value(input: &[u8], pos: usize) -> (r: Result<(Bencode, usize), DecodeError>)
    requires
        pos <= input.len(),
    ensures
        value_agrees(r, value_at(input@, pos as int)),
        r matches Ok((_, end)) ==> pos < end <= input.len(),
    decreases input.len() - pos, 0nat,
{
    if pos >= input.len() {
        return Err(DecodeError::Truncated);
    }
    let first = input[pos];
    if first == 0x69 {
        parse_int(input, pos + 1)
    } else if first == 0x6c {
        match parse_list(input, pos + 1) {
            Ok((items, end)) => Ok((Bencode::List(items), end)),
            Err(e) => Err(e),
        }
    } else if first == 0x64 {
        match parse_dict(input, pos + 1) {
            Ok((entries, end)) => Ok((Bencode::Dict(entries), end)),
            Err(e) => Err(e),
        }
    } else if first >= 0x30 && first <= 0x39 {
        match parse_bytes(input, pos) {
            Ok((bytes, end)) => Ok((Bencode::Bytes(bytes), end)),
            Err(e) => Err(e),
        }
    } else {
        Err(DecodeError::Syntax)
    }
}

/// Decodes the value that `input` starts with, and returns it with the
/// bytes behind it.
///
/// The first byte selects the kind: `i` an integer, `l` a list, `d` a
/// dictionary, a digit a byte string. Only canonical text is accepted.
pub fn decode(input: &[u8]) -> (r: Result<(Bencode, &[u8]), DecodeError>)
    ensures
        match r {
            Ok((value, rest)) => decoded(input@) == Ok::<(Value, Seq<u8>), DecodeError>(
                (value@, rest@),
            ),
            Err(e) => decoded(input@) == Err::<(Value, Seq<u8>), DecodeError>(e),
        },
        r matches Ok((value, rest)) ==> value.wf() && input@ == value@.encoding() + rest@,
{
    match parse_value(input, 0) {
        Ok((value, end)) => {
            let rest = vstd::slice::slice_subrange(input, end, input.len());
            proof {
                lemma_encode_decode(input@);
            }
            Ok((value, rest))
        },
        Err(e) => Err(e),
    }
}

} // verus!
