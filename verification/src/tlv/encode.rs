//! Encoding: from items to a stream.

use std::collections::HashMap;
use vstd::prelude::*;
use crate::tlv::format::{
    chunk_bytes, encoded_len, encoding, entries, entries_from, item_chunks, stream_chunks, wire,
    CHUNK_MAX,
};
use crate::tlv::laws::{lemma_encoding_len, lemma_wire_concat};
use crate::tlv::views::{item_views, payloads};

verus! {

/// Appends one chunk to `out`.
fn push_chunk(tag: u8, value: &[u8], out: &mut Vec<u8>)
    requires
        value@.len() <= CHUNK_MAX,
    ensures
        final(out)@ == old(out)@ + chunk_bytes(tag, value@),
{
    out.push(tag);
    out.push(value.len() as u8);
    let mut i: usize = 0;
    while i < value.len()
        invariant
            i <= value@.len(),
            value@.len() <= CHUNK_MAX,
            out@ == old(out)@ + seq![tag, value@.len() as u8] + value@.take(i as int),
        decreases value@.len() - i,
    {
        out.push(value[i]);
        i += 1;
    }
    assert(value@.take(i as int) == value@);
}

/// Appends the chunks of one item to `out`: full chunks while more than
/// `CHUNK_MAX` bytes remain, then one chunk with the rest.
pub fn encode_item(tag: u8, payload: &[u8], out: &mut Vec<u8>)
    ensures
        final(out)@ == old(out)@ + wire(item_chunks(tag, payload@)),
{
    let mut pos: usize = 0;
    assert(payload@.skip(0) == payload@);
    while payload.len() - pos > CHUNK_MAX
        invariant
            pos <= payload@.len(),
            out@ + wire(item_chunks(tag, payload@.skip(pos as int))) == old(out)@ + wire(
                item_chunks(tag, payload@),
            ),
        decreases payload@.len() - pos,
    {
        proof {
            let rest = payload@.skip(pos as int);
            let head = seq![(tag, rest.take(CHUNK_MAX as int))];
            lemma_wire_concat(head, item_chunks(tag, rest.skip(CHUNK_MAX as int)));
            assert(wire(head.drop_first()) == Seq::<u8>::empty());
            assert(rest.skip(CHUNK_MAX as int) == payload@.skip(pos + CHUNK_MAX));
        }
        push_chunk(tag, &payload[pos..pos + CHUNK_MAX], out);
        pos += CHUNK_MAX;
    }
    proof {
        let rest = payload@.skip(pos as int);
        assert(wire(item_chunks(tag, rest).drop_first()) == Seq::<u8>::empty());
    }
    push_chunk(tag, &payload[pos..payload.len()], out);
}

/// Encodes a sequence of items, in the order given.
pub fn encode_items(items: &[(u8, Vec<u8>)]) -> (out: Vec<u8>)
    ensures
        out@ == encoding(item_views(items@)),
        out@.len() == encoded_len(item_views(items@)),
{
    let ghost all = item_views(items@);
    let mut out: Vec<u8> = Vec::new();
    let mut i: usize = 0;
    assert(all.skip(0) == all);
    assert(out@ + wire(stream_chunks(all)) == wire(stream_chunks(all)));
    while i < items.len()
        invariant
            i <= items@.len(),
            all == item_views(items@),
            out@ + wire(stream_chunks(all.skip(i as int))) == wire(stream_chunks(all)),
        decreases items@.len() - i,
    {
        proof {
            let rest = all.skip(i as int);
            lemma_wire_concat(
                item_chunks(rest[0].0, rest[0].1),
                stream_chunks(rest.drop_first()),
            );
            assert(rest.drop_first() == all.skip(i + 1));
        }
        encode_item(items[i].0, items[i].1.as_slice(), &mut out);
        i += 1;
    }
    proof {
        lemma_encoding_len(all);
    }
    out
}

/// Encodes a mapping of tags to payloads. Each entry is encoded on its own;
/// the entries follow one another in ascending order of tag.
pub fn encode(items: HashMap<u8, Vec<u8>>) -> (out: Vec<u8>)
    ensures
        out@ == encoding(entries(payloads(items@))),
        out@.len() == encoded_len(entries(payloads(items@))),
{
    broadcast use vstd::std_specs::hash::group_hash_axioms;

    let ghost all = payloads(items@);
    let mut out: Vec<u8> = Vec::new();
    let mut next: u16 = 0;
    assert(out@ + wire(stream_chunks(entries(all))) == wire(stream_chunks(entries(all))));
    while next <= 255
        invariant
            next <= 256,
            all == payloads(items@),
            out@ + wire(stream_chunks(entries_from(all, next as int))) == wire(
                stream_chunks(entries(all)),
            ),
        decreases 256 - next,
    {
        let tag = next as u8;
        match items.get(&tag) {
            Some(payload) => {
                proof {
                    lemma_wire_concat(
                        item_chunks(tag, payload@),
                        stream_chunks(entries_from(all, next + 1)),
                    );
                    assert(entries_from(all, next as int).drop_first() == entries_from(
                        all,
                        next + 1,
                    ));
                }
                encode_item(tag, payload.as_slice(), &mut out);
            },
            None => {},
        }
        next += 1;
    }
    proof {
        assert(out@ + wire(stream_chunks(entries_from(all, 256))) == out@);
        lemma_encoding_len(entries(all));
    }
    out
}

} // verus!
