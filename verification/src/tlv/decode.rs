//! Decoding: from a stream to items.

use std::collections::HashMap;
use vstd::prelude::*;
use crate::tlv::format::{
    collect, collect_into, decoding, gather, mapping, parse_chunks, place, read_on, DecodeError,
    DuplicatePolicy, CHUNK_MAX,
};
use crate::tlv::laws::{extend_last, lemma_gather_ends, lemma_gather_push};
use crate::tlv::views::{item_views, payloads};

verus! {

/// Appends `src` to `dst`.
fn append_bytes(dst: &mut Vec<u8>, src: &[u8])
    ensures
        final(dst)@ == old(dst)@ + src@,
{
    let mut i: usize = 0;
    while i < src.len()
        invariant
            i <= src@.len(),
            dst@ == old(dst)@ + src@.take(i as int),
        decreases src@.len() - i,
    {
        dst.push(src[i]);
        i += 1;
    }
    assert(src@.take(i as int) == src@);
}

/// Decodes a stream into its logical items, in stream order. A tag may come
/// up in more than one item.
pub fn decode_items(bytes: &[u8]) -> (result: Result<Vec<(u8, Vec<u8>)>, DecodeError>)
    ensures
        match result {
            Ok(items) => decoding(bytes@) == Some(item_views(items@)),
            Err(error) => error == DecodeError::MalformedStream && decoding(bytes@) is None,
        },
{
    let mut items: Vec<(u8, Vec<u8>)> = Vec::new();
    let mut pos: usize = 0;
    let mut open = false;
    let ghost mut chunks: Seq<(u8, Seq<u8>)> = Seq::empty();
    proof {
        assert(bytes@.skip(0) == bytes@);
        assert(item_views(items@) == gather(chunks));
        if let Some(all) = parse_chunks(bytes@) {
            assert(chunks + all == all);
        }
    }
    while pos < bytes.len()
        invariant
            pos <= bytes@.len(),
            parse_chunks(bytes@) == read_on(chunks, parse_chunks(bytes@.skip(pos as int))),
            item_views(items@) == gather(chunks),
            open == (chunks.len() > 0 && chunks.last().1.len() == CHUNK_MAX),
        decreases bytes@.len() - pos,
    {
        let ghost rest = bytes@.skip(pos as int);
        if bytes.len() - pos < 2 {
            return Err(DecodeError::MalformedStream);
        }
        let tag = bytes[pos];
        let len = bytes[pos + 1] as usize;
        if bytes.len() - pos - 2 < len {
            return Err(DecodeError::MalformedStream);
        }
        let value = &bytes[pos + 2..pos + 2 + len];
        proof {
            // the chunk at `pos` is read, and the rest of the stream follows it
            assert(rest[0] == tag && rest[1] == len);
            assert(value@ == rest.subrange(2, 2 + len));
            assert(rest.skip(2 + len) == bytes@.skip(pos + 2 + len));
            if let Some(more) = parse_chunks(bytes@.skip(pos + 2 + len)) {
                assert(chunks + (seq![(tag, value@)] + more) == chunks.push((tag, value@)) + more);
            }
            lemma_gather_push(chunks, tag, value@);
            if chunks.len() > 0 {
                lemma_gather_ends(chunks);
            }
        }
        if open && items[items.len() - 1].0 == tag {
            let ghost before = items@;
            let last = items.pop();
            match last {
                Some((kept, mut payload)) => {
                    append_bytes(&mut payload, value);
                    items.push((kept, payload));
                    assert(item_views(items@) == extend_last(item_views(before), value@));
                },
                None => {},
            }
        } else {
            let ghost before = items@;
            let mut payload: Vec<u8> = Vec::new();
            append_bytes(&mut payload, value);
            items.push((tag, payload));
            assert(item_views(items@) == item_views(before).push((tag, value@)));
        }
        open = len == CHUNK_MAX;
        pos = pos + 2 + len;
        proof {
            chunks = chunks.push((tag, value@));
        }
    }
    proof {
        assert(bytes@.skip(pos as int) == Seq::<u8>::empty());
        assert(chunks + Seq::<(u8, Seq<u8>)>::empty() == chunks);
    }
    Ok(items)
}

/// Puts decoded items into a mapping, in the order given, settling each
/// second use of a tag by `policy`.
pub fn collect_items(items: &[(u8, Vec<u8>)], policy: DuplicatePolicy) -> (result: Result<
    HashMap<u8, Vec<u8>>,
    DecodeError,
>)
    ensures
        match result {
            Ok(found) => collect(item_views(items@), policy) == Some(payloads(found@)),
            Err(error) => error == DecodeError::DuplicateTag && collect(
                item_views(items@),
                policy,
            ) is None,
        },
{
    broadcast use vstd::std_specs::hash::group_hash_axioms;

    let ghost all = item_views(items@);
    let mut found: HashMap<u8, Vec<u8>> = HashMap::new();
    let mut i: usize = 0;
    assert(all.skip(0) == all);
    assert(payloads(found@) == Map::<u8, Seq<u8>>::empty());
    while i < items.len()
        invariant
            i <= items@.len(),
            all == item_views(items@),
            collect_into(payloads(found@), all.skip(i as int), policy) == collect(all, policy),
        decreases items@.len() - i,
    {
        let tag = items[i].0;
        let ghost before = payloads(found@);
        let ghost rest = all.skip(i as int);
        assert(rest.drop_first() == all.skip(i + 1));
        let mut payload = match found.remove(&tag) {
            Some(earlier) => match policy {
                DuplicatePolicy::Overwrite => Vec::new(),
                DuplicatePolicy::Append => earlier,
                DuplicatePolicy::Reject => {
                    return Err(DecodeError::DuplicateTag);
                },
            },
            None => Vec::new(),
        };
        append_bytes(&mut payload, items[i].1.as_slice());
        found.insert(tag, payload);
        assert(Some(payloads(found@)) == place(before, tag, rest[0].1, policy));
        i += 1;
    }
    Ok(found)
}

/// Decodes a stream into a mapping of tags to payloads. Where a tag comes
/// up in more than one item, `policy` settles what becomes of the later
/// one.
pub fn decode(bytes: &[u8], policy: DuplicatePolicy) -> (result: Result<
    HashMap<u8, Vec<u8>>,
    DecodeError,
>)
    ensures
        match result {
            Ok(found) => mapping(bytes@, policy) == Ok::<_, DecodeError>(payloads(found@)),
            Err(error) => mapping(bytes@, policy) == Err::<Map<u8, Seq<u8>>, _>(error),
        },
{
    match decode_items(bytes) {
        Ok(items) => collect_items(items.as_slice(), policy),
        Err(error) => Err(error),
    }
}

} // verus!
