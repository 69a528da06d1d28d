//! The canonical encoder.

use super::decoder::{decoded, DecodeError};
use super::laws::lemma_decode_encode;
use super::text::{push_decimal, push_signed_decimal};
use super::{bytes_encoding, dict_encoding, lemma_dict_view, lemma_list_view, list_encoding,
    Bencode, Value};
use vstd::prelude::*;

verus! {

/// The encoding of a list with one more item is the encoding of the list
/// followed by that of the item.
pub proof fn lemma_list_encoding_push(items: Seq<Value>, last: Value)
    ensures
        list_encoding(items.push(last)) == list_encoding(items) + last.encoding(),
    decreases items.len(),
{
    let all = items.push(last);
    if items.len() == 0 {
        assert(all.drop_first() =~= Seq::<Value>::empty());
        assert(list_encoding(all.drop_first()) =~= Seq::<u8>::empty());
        assert(list_encoding(all) =~= last.encoding());
        assert(list_encoding(items) + last.encoding() =~= last.encoding());
    } else {
        assert(all.drop_first() =~= items.drop_first().push(last));
        lemma_list_encoding_push(items.drop_first(), last);
        assert(list_encoding(all) =~= list_encoding(items) + last.encoding());
    }
}

/// The encoding of a dictionary with one more entry is the encoding of the
/// dictionary followed by that of the entry.
pub proof fn lemma_dict_encoding_push(entries: Seq<(Seq<u8>, Value)>, last: (Seq<u8>, Value))
    ensures
        dict_encoding(entries.push(last)) == dict_encoding(entries) + bytes_encoding(last.0)
            + last.1.encoding(),
    decreases entries.len(),
{
    let all = entries.push(last);
    if entries.len() == 0 {
        assert(all.drop_first() =~= Seq::<(Seq<u8>, Value)>::empty());
        assert(dict_encoding(all.drop_first()) =~= Seq::<u8>::empty());
        assert(dict_encoding(all) =~= bytes_encoding(last.0) + last.1.encoding());
        assert(dict_encoding(entries) + bytes_encoding(last.0) + last.1.encoding()
            =~= bytes_encoding(last.0) + last.1.encoding());
    } else {
        assert(all.drop_first() =~= entries.drop_first().push(last));
        lemma_dict_encoding_push(entries.drop_first(), last);
        assert(dict_encoding(all) =~= dict_encoding(entries) + bytes_encoding(last.0)
            + last.1.encoding());
    }
}

/// Appends the encoding of the byte string `bytes` to `out`.
fn push_bytes(out: &mut Vec<u8>, bytes: &Vec<u8>)
    ensures
        final(out)@ == old(out)@ + bytes_encoding(bytes@),
{
    push_decimal(out, bytes.len() as u64);
    out.push(0x3a);
    let ghost mid = out@;
    out.extend_from_slice(bytes.as_slice());
    assert(out@ =~= mid + bytes@);
    assert(out@ =~= old(out)@ + bytes_encoding(bytes@));
}

/// Appends the encoding of `data` to `out`.
fn encode_into(data: &Bencode, out: &mut Vec<u8>)
    ensures
        final(out)@ == old(out)@ + data@.encoding(),
    decreases data,
{
    let ghost start = out@;
    match data {
        Bencode::Int(i) => {
            out.push(0x69);
            push_signed_decimal(out, *i);
            out.push(0x65);
            assert(out@ =~= start + data@.encoding());
        },
        Bencode::Bytes(b) => {
            push_bytes(out, b);
        },
        Bencode::List(items) => {
            out.push(0x6c);
            let mut k: usize = 0;
            while k < items.len()
                invariant
                    k <= items.len(),
                    *data == Bencode::List(*items),
                    out@ == start + seq![0x6cu8] + list_encoding(data@->List_0.take(k as int)),
                decreases items.len() - k,
            {
                proof {
                    assert(data->List_0 == *items);
                    assert(decreases_to!(data => data->List_0));
                    assert(decreases_to!(items => items@));
                    assert(decreases_to!(items@ => items@[k as int]));
                }
                encode_into(&items[k], out);
                proof {
                    lemma_list_view(items@, items@.len());
                    let all = data@->List_0;
                    assert(all.take(k + 1) =~= all.take(k as int).push(items@[k as int]@));
                    lemma_list_encoding_push(all.take(k as int), items@[k as int]@);
                    assert(out@ =~= start + seq![0x6cu8] + list_encoding(all.take(k + 1)));
                }
                k += 1;
            }
            out.push(0x65);
            proof {
                lemma_list_view(items@, items@.len());
            }
            assert(data@->List_0.take(k as int) =~= data@->List_0);
            assert(out@ =~= start + data@.encoding());
        },
        Bencode::Dict(entries) => {
            out.push(0x64);
            let mut k: usize = 0;
            while k < entries.len()
                invariant
                    k <= entries.len(),
                    *data == Bencode::Dict(*entries),
                    out@ == start + seq![0x64u8] + dict_encoding(data@->Dict_0.take(k as int)),
                decreases entries.len() - k,
            {
                push_bytes(out, &entries[k].0);
                proof {
                    assert(data->Dict_0 == *entries);
                    assert(decreases_to!(data => data->Dict_0));
                    assert(decreases_to!(entries => entries@));
                    assert(decreases_to!(entries@ => entries@[k as int]));
                    assert(decreases_to!(entries@[k as int] => entries@[k as int].1));
                }
                encode_into(&entries[k].1, out);
                proof {
                    lemma_dict_view(entries@, entries@.len());
                    let all = data@->Dict_0;
                    let entry = (entries@[k as int].0@, entries@[k as int].1@);
                    assert(all.take(k + 1) =~= all.take(k as int).push(entry));
                    lemma_dict_encoding_push(all.take(k as int), entry);
                    assert(out@ =~= start + seq![0x64u8] + dict_encoding(all.take(k + 1)));
                }
                k += 1;
            }
            out.push(0x65);
            proof {
                lemma_dict_view(entries@, entries@.len());
            }
            assert(data@->Dict_0.take(k as int) =~= data@->Dict_0);
            assert(out@ =~= start + data@.encoding());
        },
    }
}

/// Encodes `data`, which must be well formed.
///
/// Integers come out as `i<decimal>e`, byte strings as `<length>:<bytes>`,
/// lists as `l<items>e` and dictionaries as `d<entries>e`, the entries in
/// ascending order of their keys. The encoding is canonical: decoding it
/// gives `data` back and leaves nothing.
pub fn encode(data: &Bencode) -> (out: Vec<u8>)
    requires
        data.wf(),
    ensures
        out@ == data@.encoding(),
        decoded(out@) == Ok::<(Value, Seq<u8>), DecodeError>((data@, Seq::empty())),
{
    let mut out: Vec<u8> = Vec::new();
    encode_into(data, &mut out);
    proof {
        assert(out@ =~= data@.encoding());
        lemma_decode_encode(data@, Seq::empty());
        assert(data@.encoding() + Seq::<u8>::empty() =~= data@.encoding());
    }
    out
}

} // verus!
