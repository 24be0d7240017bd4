//! What holds of the format: lengths, chunk counts, and that decoding
//! undoes encoding.

use vstd::prelude::*;
use crate::tlv::format::{
    chunk_bytes, chunk_count, chunks_fit, collect, collect_into, decoding, encoded_len, encoding,
    ends_full, entries, entries_from, gather, item_chunks, mapping, parse_chunks, place, read_on,
    separated, stream_chunks, wire, DecodeError, DuplicatePolicy, CHUNK_MAX,
};

verus! {

/// The bytes of two runs of chunks, one after the other, are the bytes of
/// the first followed by the bytes of the second.
pub proof fn lemma_wire_concat(a: Seq<(u8, Seq<u8>)>, b: Seq<(u8, Seq<u8>)>)
    ensures
        wire(a + b) == wire(a) + wire(b),
    decreases a.len(),
{
    if a.len() == 0 {
        assert(a + b == b);
        assert(wire(a) + wire(b) == wire(b));
    } else {
        lemma_wire_concat(a.drop_first(), b);
        assert((a + b).drop_first() == a.drop_first() + b);
    }
}

/// An item of `L` payload bytes is carried by one chunk if `L` is zero and
/// by `L / 255`, rounded up, chunks otherwise. Every chunk has the item's
/// tag, every chunk but the last is full, and the last holds what remains.
pub proof fn lemma_chunk_count(tag: u8, payload: Seq<u8>)
    ensures
        item_chunks(tag, payload).len() == chunk_count(payload.len()),
        forall|i: int|
            0 <= i < item_chunks(tag, payload).len() ==> (#[trigger] item_chunks(
                tag,
                payload,
            )[i]).0 == tag,
        forall|i: int|
            0 <= i < item_chunks(tag, payload).len() - 1 ==> (#[trigger] item_chunks(
                tag,
                payload,
            )[i]).1.len() == CHUNK_MAX,
        item_chunks(tag, payload).last().1.len() == payload.len() - CHUNK_MAX * (chunk_count(
            payload.len(),
        ) - 1),
        chunks_fit(item_chunks(tag, payload)),
    decreases payload.len(),
{
    if payload.len() > CHUNK_MAX {
        let rest = payload.skip(CHUNK_MAX as int);
        lemma_chunk_count(tag, rest);
        let head = seq![(tag, payload.take(CHUNK_MAX as int))];
        let chunks = item_chunks(tag, payload);
        assert(chunks == head + item_chunks(tag, rest));
        assert forall|i: int| 0 <= i < chunks.len() implies (#[trigger] chunks[i]).0 == tag by {
            if i > 0 {
                assert(chunks[i] == item_chunks(tag, rest)[i - 1]);
            }
        }
        assert forall|i: int| 0 <= i < chunks.len() - 1 implies (#[trigger] chunks[i]).1.len()
            == CHUNK_MAX by {
            if i > 0 {
                assert(chunks[i] == item_chunks(tag, rest)[i - 1]);
            }
        }
        assert(chunks.last() == item_chunks(tag, rest).last());
        assert forall|i: int| 0 <= i < chunks.len() implies (#[trigger] chunks[i]).1.len()
            <= CHUNK_MAX by {
            if i > 0 {
                assert(chunks[i] == item_chunks(tag, rest)[i - 1]);
            }
        }
    }
}

/// The bytes of one item's chunks: two header bytes for each chunk, and the
/// payload.
pub proof fn lemma_item_len(tag: u8, payload: Seq<u8>)
    ensures
        wire(item_chunks(tag, payload)).len() == 2 * chunk_count(payload.len()) + payload.len(),
    decreases payload.len(),
{
    if payload.len() <= CHUNK_MAX {
        let chunks = item_chunks(tag, payload);
        assert(wire(chunks.drop_first()) == Seq::<u8>::empty());
    } else {
        let rest = payload.skip(CHUNK_MAX as int);
        lemma_item_len(tag, rest);
        let head = seq![(tag, payload.take(CHUNK_MAX as int))];
        lemma_wire_concat(head, item_chunks(tag, rest));
        assert(wire(head.drop_first()) == Seq::<u8>::empty());
    }
}

/// The encoding of a sequence of items has two header bytes for each chunk
/// of each item, and the payload bytes.
pub proof fn lemma_encoding_len(items: Seq<(u8, Seq<u8>)>)
    ensures
        encoding(items).len() == encoded_len(items),
    decreases items.len(),
{
    if items.len() > 0 {
        lemma_encoding_len(items.drop_first());
        lemma_item_len(items[0].0, items[0].1);
        lemma_wire_concat(
            item_chunks(items[0].0, items[0].1),
            stream_chunks(items.drop_first()),
        );
    }
}

/// The items of a run of chunks that is not empty begin with an item of the
/// first chunk's tag and end with an item of the last chunk's tag.
pub proof fn lemma_gather_ends(chunks: Seq<(u8, Seq<u8>)>)
    requires
        chunks.len() > 0,
    ensures
        gather(chunks).len() > 0,
        gather(chunks).first().0 == chunks.first().0,
        gather(chunks).last().0 == chunks.last().0,
    decreases chunks.len(),
{
    let rest = chunks.drop_first();
    let found = gather(rest);
    if rest.len() == 0 {
        assert(gather(chunks) == seq![chunks[0]]);
    } else {
        lemma_gather_ends(rest);
        assert(rest.last() == chunks.last());
        assert(rest.first() == chunks[1]);
        if chunks[0].1.len() == CHUNK_MAX && chunks[1].0 == chunks[0].0 {
            assert(gather(chunks) == seq![(chunks[0].0, chunks[0].1 + found[0].1)]
                + found.drop_first());
        } else {
            assert(gather(chunks) == seq![chunks[0]] + found);
        }
    }
}

/// The last item of `items` with `value` joined to its payload.
pub open spec fn extend_last(items: Seq<(u8, Seq<u8>)>, value: Seq<u8>) -> Seq<(u8, Seq<u8>)> {
    items.drop_last().push((items.last().0, items.last().1 + value))
}

/// One more chunk at the end of a run either continues the last item, where
/// the chunk before it is full and has the same tag, or is an item of its
/// own.
pub proof fn lemma_gather_push(chunks: Seq<(u8, Seq<u8>)>, tag: u8, value: Seq<u8>)
    ensures
        gather(chunks.push((tag, value))) == if chunks.len() > 0 && chunks.last().1.len()
            == CHUNK_MAX && chunks.last().0 == tag {
            extend_last(gather(chunks), value)
        } else {
            gather(chunks).push((tag, value))
        },
    decreases chunks.len(),
{
    let longer = chunks.push((tag, value));
    let one = seq![(tag, value)];
    assert(gather(one.drop_first()) == Seq::<(u8, Seq<u8>)>::empty());
    assert(gather(one) == one);
    if chunks.len() == 0 {
        assert(longer == one);
    } else {
        let first = chunks[0];
        let rest = chunks.drop_first();
        lemma_gather_push(rest, tag, value);
        assert(longer.drop_first() == rest.push((tag, value)));
        let found = gather(rest);
        let grown = gather(rest.push((tag, value)));
        if rest.len() == 0 {
            // the run is the one chunk `first`, and the new chunk comes right after it
            assert(rest.push((tag, value)) == one);
            assert(gather(chunks) == seq![first]);
            assert(longer[1] == (tag, value));
        } else {
            // `first` joins the items of the rest or stands before them, in
            // `chunks` and in `longer` alike; the new chunk changes the last
            // of those items or follows it
            lemma_gather_ends(rest);
            assert(chunks.last() == rest.last());
            assert(longer[1] == chunks[1]);
            if first.1.len() == CHUNK_MAX && chunks[1].0 == first.0 {
                assert(gather(chunks) == seq![(first.0, first.1 + found[0].1)]
                    + found.drop_first());
                assert(gather(longer) == seq![(first.0, first.1 + grown[0].1)]
                    + grown.drop_first());
                if chunks.last().1.len() == CHUNK_MAX && chunks.last().0 == tag {
                    if found.len() == 1 {
                        assert(first.1 + (found[0].1 + value) == (first.1 + found[0].1) + value);
                    } else {
                        assert(grown.drop_first() == extend_last(found.drop_first(), value));
                    }
                } else {
                    assert(grown.drop_first() == found.drop_first().push((tag, value)));
                }
            } else {
                assert(gather(chunks) == seq![first] + found);
                assert(gather(longer) == seq![first] + grown);
            }
        }
    }
}

/// A stream that begins with the bytes of chunks reads as those chunks,
/// followed by what the rest of the stream reads as.
pub proof fn lemma_parse_wire_then(chunks: Seq<(u8, Seq<u8>)>, tail: Seq<u8>)
    requires
        chunks_fit(chunks),
    ensures
        parse_chunks(wire(chunks) + tail) == read_on(chunks, parse_chunks(tail)),
    decreases chunks.len(),
{
    let stream = wire(chunks) + tail;
    if chunks.len() == 0 {
        assert(stream == tail);
        if let Some(more) = parse_chunks(tail) {
            assert(chunks + more == more);
        }
    } else {
        let first = chunks[0];
        let rest = chunks.drop_first();
        assert(chunks_fit(rest)) by {
            assert forall|i: int| 0 <= i < rest.len() implies (#[trigger] rest[i]).1.len()
                <= CHUNK_MAX by {
                assert(rest[i] == chunks[i + 1]);
            }
        }
        lemma_parse_wire_then(rest, tail);
        assert(stream[0] == first.0);
        assert(stream[1] == first.1.len());
        assert(stream.subrange(2, 2 + first.1.len() as int) == first.1);
        assert(stream.skip(2 + first.1.len() as int) == wire(rest) + tail);
        if let Some(more) = parse_chunks(tail) {
            assert(seq![first] + (rest + more) == chunks + more);
        }
    }
}

/// The bytes of chunks read as those chunks.
pub proof fn lemma_parse_wire(chunks: Seq<(u8, Seq<u8>)>)
    requires
        chunks_fit(chunks),
    ensures
        parse_chunks(wire(chunks)) == Some(chunks),
{
    lemma_parse_wire_then(chunks, Seq::empty());
    assert(wire(chunks) + Seq::<u8>::empty() == wire(chunks));
    assert(chunks + Seq::<(u8, Seq<u8>)>::empty() == chunks);
}

/// What reads as chunks is the bytes of those chunks, and each of them fits
/// its length byte: no two runs of chunks share a stream.
pub proof fn lemma_wire_parse(stream: Seq<u8>)
    requires
        parse_chunks(stream) is Some,
    ensures
        wire(parse_chunks(stream)->Some_0) == stream,
        chunks_fit(parse_chunks(stream)->Some_0),
    decreases stream.len(),
{
    if stream.len() > 0 {
        let len = stream[1] as int;
        let rest = stream.skip(2 + len);
        lemma_wire_parse(rest);
        let first = (stream[0], stream.subrange(2, 2 + len));
        let chunks = parse_chunks(stream)->Some_0;
        let more = parse_chunks(rest)->Some_0;
        assert(chunks == seq![first] + more);
        assert(chunks.drop_first() == more);
        assert(chunk_bytes(first.0, first.1) + rest == stream);
        assert forall|i: int| 0 <= i < chunks.len() implies (#[trigger] chunks[i]).1.len()
            <= CHUNK_MAX by {
            if i > 0 {
                assert(chunks[i] == more[i - 1]);
            }
        }
    }
}

/// The encoding of a single item reads as the chunks of that item, whose
/// number `lemma_chunk_count` gives.
pub proof fn lemma_single_item_chunks(tag: u8, payload: Seq<u8>)
    ensures
        parse_chunks(encoding(seq![(tag, payload)])) == Some(item_chunks(tag, payload)),
        item_chunks(tag, payload).len() == chunk_count(payload.len()),
{
    let items = seq![(tag, payload)];
    lemma_chunk_count(tag, payload);
    assert(stream_chunks(items.drop_first()) == Seq::<(u8, Seq<u8>)>::empty());
    assert(stream_chunks(items) == item_chunks(tag, payload));
    lemma_parse_wire(item_chunks(tag, payload));
}

/// A stream cut off inside a chunk, in its header or in its value, is
/// malformed, whatever whole chunks come before the cut.
pub proof fn lemma_truncated_is_malformed(
    chunks: Seq<(u8, Seq<u8>)>,
    tag: u8,
    value: Seq<u8>,
    kept: int,
)
    requires
        chunks_fit(chunks),
        value.len() <= CHUNK_MAX,
        0 < kept < 2 + value.len(),
    ensures
        parse_chunks(wire(chunks) + chunk_bytes(tag, value).take(kept)) is None,
        decoding(wire(chunks) + chunk_bytes(tag, value).take(kept)) is None,
        forall|policy: DuplicatePolicy|
            mapping(wire(chunks) + chunk_bytes(tag, value).take(kept), policy) == Err::<
                Map<u8, Seq<u8>>,
                _,
            >(DecodeError::MalformedStream),
{
    let cut = chunk_bytes(tag, value).take(kept);
    lemma_parse_wire_then(chunks, cut);
    if kept >= 2 {
        // the header is whole, and fewer bytes follow it than it declares
        assert(cut[1] == value.len());
    }
}

/// The chunks of every sequence of items fit their length bytes.
pub proof fn lemma_stream_chunks_fit(items: Seq<(u8, Seq<u8>)>)
    ensures
        chunks_fit(stream_chunks(items)),
        items.len() > 0 ==> stream_chunks(items).len() > 0 && stream_chunks(items)[0].0
            == items[0].0,
    decreases items.len(),
{
    if items.len() > 0 {
        let head = item_chunks(items[0].0, items[0].1);
        let tail = stream_chunks(items.drop_first());
        lemma_chunk_count(items[0].0, items[0].1);
        lemma_stream_chunks_fit(items.drop_first());
        assert forall|i: int| 0 <= i < (head + tail).len() implies (#[trigger] (head
            + tail)[i]).1.len() <= CHUNK_MAX by {
            if i < head.len() {
                assert((head + tail)[i] == head[i]);
            } else {
                assert((head + tail)[i] == tail[i - head.len()]);
            }
        }
        assert((head + tail)[0] == head[0]);
    }
}

/// The chunks of one item, followed by other chunks, reassemble to that
/// item followed by what the other chunks reassemble to; unless the item's
/// last chunk is full and the next chunk has its tag, in which case the item
/// runs on into the first of the items that follow.
pub proof fn lemma_gather_item(tag: u8, payload: Seq<u8>, next: Seq<(u8, Seq<u8>)>)
    ensures
        gather(item_chunks(tag, payload) + next) == if ends_full(payload) && next.len() > 0
            && next[0].0 == tag {
            seq![(tag, payload + gather(next)[0].1)] + gather(next).drop_first()
        } else {
            seq![(tag, payload)] + gather(next)
        },
    decreases payload.len(),
{
    let chunks = item_chunks(tag, payload) + next;
    if payload.len() <= CHUNK_MAX {
        assert(chunks[0] == (tag, payload));
        assert(chunks.drop_first() == next);
        if next.len() > 0 {
            assert(chunks[1] == next[0]);
        }
    } else {
        let front = payload.take(CHUNK_MAX as int);
        let back = payload.skip(CHUNK_MAX as int);
        lemma_gather_item(tag, back, next);
        lemma_chunk_count(tag, back);
        assert(chunks[0] == (tag, front));
        assert(chunks.drop_first() == item_chunks(tag, back) + next);
        assert(chunks[1] == item_chunks(tag, back)[0]);
        assert(ends_full(back) == ends_full(payload));
        let found = gather(next);
        if ends_full(payload) && next.len() > 0 && next[0].0 == tag {
            assert(front + (back + found[0].1) == payload + found[0].1);
        } else {
            assert(front + back == payload);
        }
    }
}

/// Reassembly undoes chunking, for items none of which runs on into the
/// next.
pub proof fn lemma_gather_stream(items: Seq<(u8, Seq<u8>)>)
    requires
        separated(items),
    ensures
        gather(stream_chunks(items)) == items,
    decreases items.len(),
{
    if items.len() > 0 {
        let rest = items.drop_first();
        assert(separated(rest)) by {
            assert forall|i: int| 0 <= i < rest.len() - 1 implies !(ends_full(
                (#[trigger] rest[i]).1,
            ) && rest[i + 1].0 == rest[i].0) by {
                assert(rest[i] == items[i + 1]);
                assert(rest[i + 1] == items[i + 2]);
            }
        }
        lemma_gather_stream(rest);
        lemma_stream_chunks_fit(rest);
        lemma_gather_item(items[0].0, items[0].1, stream_chunks(rest));
        if rest.len() > 0 {
            assert(rest[0] == items[1]);
            assert(!(ends_full(items[0int].1) && items[0int + 1].0 == items[0int].0));
        }
        assert(seq![(items[0].0, items[0].1)] + rest == items);
    } else {
        assert(items == Seq::<(u8, Seq<u8>)>::empty());
    }
}

/// Decoding undoes encoding: a sequence of items none of which runs on into
/// the next is what its encoding decodes to.
pub proof fn lemma_round_trip(items: Seq<(u8, Seq<u8>)>)
    requires
        separated(items),
    ensures
        decoding(encoding(items)) == Some(items),
{
    lemma_stream_chunks_fit(items);
    lemma_parse_wire(stream_chunks(items));
    lemma_gather_stream(items);
}

/// An item whose last chunk is full, encoded right before an item of the
/// same tag, decodes as one item with both payloads; with an empty item of
/// that tag encoded between them, the two decode as the two items they
/// are.
pub proof fn lemma_continuation_boundary(tag: u8, first: Seq<u8>, second: Seq<u8>)
    requires
        ends_full(first),
    ensures
        decoding(encoding(seq![(tag, first), (tag, second)])) == Some(
            seq![(tag, first + second)],
        ),
        decoding(encoding(seq![(tag, first), (tag, Seq::empty()), (tag, second)])) == Some(
            seq![(tag, first), (tag, second)],
        ),
{
    let last = seq![(tag, second)];
    assert(separated(last));
    lemma_gather_stream(last);
    lemma_stream_chunks_fit(last);

    let joined = seq![(tag, first), (tag, second)];
    assert(joined.drop_first() == last);
    lemma_stream_chunks_fit(joined);
    lemma_parse_wire(stream_chunks(joined));
    lemma_gather_item(tag, first, stream_chunks(last));
    assert(gather(stream_chunks(joined)) == seq![(tag, first + second)]);

    let apart = seq![(tag, first), (tag, Seq::empty()), (tag, second)];
    let middle = seq![(tag, Seq::<u8>::empty()), (tag, second)];
    assert(apart.drop_first() == middle);
    assert(middle.drop_first() == last);
    lemma_stream_chunks_fit(apart);
    lemma_stream_chunks_fit(middle);
    lemma_parse_wire(stream_chunks(apart));
    lemma_gather_item(tag, Seq::empty(), stream_chunks(last));
    assert(gather(stream_chunks(middle)) == middle);
    lemma_gather_item(tag, first, stream_chunks(middle));
    assert(first + Seq::<u8>::empty() == first);
    assert(gather(stream_chunks(apart)) == seq![(tag, first), (tag, second)]);
}

/// The entries of `items` whose tag is below `bound`.
pub open spec fn below(items: Map<u8, Seq<u8>>, bound: int) -> Map<u8, Seq<u8>> {
    Map::new(|tag: u8| tag < bound && items.contains_key(tag), |tag: u8| items[tag])
}

/// The entries of a mapping from a tag upwards have tags from that tag
/// upwards, and none of them runs on into the next.
pub proof fn lemma_entries_separated(items: Map<u8, Seq<u8>>, tag: int)
    requires
        0 <= tag,
    ensures
        forall|i: int|
            0 <= i < entries_from(items, tag).len() ==> (#[trigger] entries_from(
                items,
                tag,
            )[i]).0 >= tag,
        separated(entries_from(items, tag)),
    decreases 256 - tag,
{
    if tag <= u8::MAX {
        lemma_entries_separated(items, tag + 1);
        let rest = entries_from(items, tag + 1);
        if items.contains_key(tag as u8) {
            let all = entries_from(items, tag);
            assert(all == seq![(tag as u8, items[tag as u8])] + rest);
            assert forall|i: int| 0 <= i < all.len() implies (#[trigger] all[i]).0 >= tag by {
                if i > 0 {
                    assert(all[i] == rest[i - 1]);
                }
            }
            assert forall|i: int| 0 <= i < all.len() - 1 implies !(ends_full(
                (#[trigger] all[i]).1,
            ) && all[i + 1].0 == all[i].0) by {
                assert(all[i + 1] == rest[i]);
                if i > 0 {
                    assert(all[i] == rest[i - 1]);
                }
            }
        }
    }
}

/// Collecting the entries of a mapping from a tag upwards, into the
/// entries below that tag, gives the mapping back.
pub proof fn lemma_collect_entries(items: Map<u8, Seq<u8>>, tag: int, policy: DuplicatePolicy)
    requires
        0 <= tag <= 256,
    ensures
        collect_into(below(items, tag), entries_from(items, tag), policy) == Some(items),
    decreases 256 - tag,
{
    if tag <= u8::MAX {
        lemma_collect_entries(items, tag + 1, policy);
        if items.contains_key(tag as u8) {
            assert(entries_from(items, tag).drop_first() == entries_from(items, tag + 1));
            assert(place(below(items, tag), tag as u8, items[tag as u8], policy) == Some(
                below(items, tag + 1),
            ));
        } else {
            assert(below(items, tag) == below(items, tag + 1));
        }
    } else {
        assert(below(items, tag) == items);
    }
}

/// Decoding undoes encoding on mappings: whatever the policy, the encoding
/// of a mapping decodes to that mapping.
pub proof fn lemma_mapping_round_trip(items: Map<u8, Seq<u8>>, policy: DuplicatePolicy)
    ensures
        decoding(encoding(entries(items))) == Some(entries(items)),
        collect(entries(items), policy) == Some(items),
        mapping(encoding(entries(items)), policy) == Ok::<_, DecodeError>(items),
{
    lemma_entries_separated(items, 0);
    lemma_round_trip(entries(items));
    lemma_collect_entries(items, 0, policy);
    assert(below(items, 0) == Map::<u8, Seq<u8>>::empty());
}

} // verus!
