//! The mathematical model of the wire format: chunks, their bytes, and how
//! chunks and logical items turn into one another.

use vstd::prelude::*;

verus! {

/// What becomes of a decoded item whose tag an earlier, completed item of
/// the same stream already used.
#[derive(Clone, Copy, Debug, PartialEq, Eq, Structural)]
pub enum DuplicatePolicy {
    /// The later payload replaces the earlier one.
    Overwrite,
    /// The later payload is joined to the end of the earlier one.
    Append,
    /// The stream is refused.
    Reject,
}

/// Why a stream was not decoded.
#[derive(Clone, Copy, Debug, PartialEq, Eq, Structural)]
pub enum DecodeError {
    /// The stream ends inside a chunk's header, or before a chunk's
    /// declared length is met.
    MalformedStream,
    /// A tag came up again in a later, separate item, and the policy in
    /// force refuses that.
    DuplicateTag,
}

/// The most value bytes one chunk can carry.
pub const CHUNK_MAX: usize = 255;

/// The bytes of one chunk: tag, length, value.
pub open spec fn chunk_bytes(tag: u8, value: Seq<u8>) -> Seq<u8> {
    seq![tag, value.len() as u8] + value
}

/// Every chunk's value fits its length byte.
pub open spec fn chunks_fit(chunks: Seq<(u8, Seq<u8>)>) -> bool {
    forall|i: int| 0 <= i < chunks.len() ==> (#[trigger] chunks[i]).1.len() <= CHUNK_MAX
}

/// The bytes of a run of chunks, in order.
pub open spec fn wire(chunks: Seq<(u8, Seq<u8>)>) -> Seq<u8>
    decreases chunks.len(),
{
    if chunks.len() == 0 {
        Seq::empty()
    } else {
        chunk_bytes(chunks[0].0, chunks[0].1) + wire(chunks.drop_first())
    }
}

/// The chunks that carry one item: full chunks while more than `CHUNK_MAX`
/// bytes remain, then one chunk with the rest. An empty payload is one
/// empty chunk.
pub open spec fn item_chunks(tag: u8, payload: Seq<u8>) -> Seq<(u8, Seq<u8>)>
    decreases payload.len(),
{
    if payload.len() <= CHUNK_MAX {
        seq![(tag, payload)]
    } else {
        seq![(tag, payload.take(CHUNK_MAX as int))] + item_chunks(
            tag,
            payload.skip(CHUNK_MAX as int),
        )
    }
}

/// The chunks that carry a sequence of items, item after item.
pub open spec fn stream_chunks(items: Seq<(u8, Seq<u8>)>) -> Seq<(u8, Seq<u8>)>
    decreases items.len(),
{
    if items.len() == 0 {
        Seq::empty()
    } else {
        item_chunks(items[0].0, items[0].1) + stream_chunks(items.drop_first())
    }
}

/// The encoding of a sequence of items.
pub open spec fn encoding(items: Seq<(u8, Seq<u8>)>) -> Seq<u8> {
    wire(stream_chunks(items))
}

/// How many chunks carry a payload of `len` bytes.
pub open spec fn chunk_count(len: nat) -> nat {
    if len == 0 {
        1
    } else {
        ((len + CHUNK_MAX - 1) / (CHUNK_MAX as int)) as nat
    }
}

/// The length of the encoding of a sequence of items: two header bytes for
/// each chunk, and the payload bytes.
pub open spec fn encoded_len(items: Seq<(u8, Seq<u8>)>) -> nat
    decreases items.len(),
{
    if items.len() == 0 {
        0
    } else {
        2 * chunk_count(items[0].1.len()) + items[0].1.len() + encoded_len(items.drop_first())
    }
}

/// The items of a mapping from `tag` upwards, in ascending order of tag.
pub open spec fn entries_from(items: Map<u8, Seq<u8>>, tag: int) -> Seq<(u8, Seq<u8>)>
    decreases 256 - tag,
{
    if tag < 0 || tag > u8::MAX {
        Seq::empty()
    } else if items.contains_key(tag as u8) {
        seq![(tag as u8, items[tag as u8])] + entries_from(items, tag + 1)
    } else {
        entries_from(items, tag + 1)
    }
}

/// The items of a mapping in the order in which the encoder writes them:
/// ascending by tag.
pub open spec fn entries(items: Map<u8, Seq<u8>>) -> Seq<(u8, Seq<u8>)> {
    entries_from(items, 0)
}

/// Reads a stream as chunks. `None` where the stream ends inside a header
/// or before a declared length is met.
pub open spec fn parse_chunks(stream: Seq<u8>) -> Option<Seq<(u8, Seq<u8>)>>
    decreases stream.len(),
{
    if stream.len() == 0 {
        Some(Seq::empty())
    } else if stream.len() < 2 || stream.len() - 2 < stream[1] {
        None
    } else {
        match parse_chunks(stream.skip(2 + stream[1])) {
            Some(rest) => Some(seq![(stream[0], stream.subrange(2, 2 + stream[1]))] + rest),
            None => None,
        }
    }
}

/// The chunks read so far, followed by what the rest of the stream reads
/// as.
pub open spec fn read_on(done: Seq<(u8, Seq<u8>)>, rest: Option<Seq<(u8, Seq<u8>)>>) -> Option<
    Seq<(u8, Seq<u8>)>,
> {
    match rest {
        Some(chunks) => Some(done + chunks),
        None => None,
    }
}

/// Reassembles logical items from chunks. A full chunk whose successor has
/// the same tag continues into that successor; any other chunk ends its
/// item.
pub open spec fn gather(chunks: Seq<(u8, Seq<u8>)>) -> Seq<(u8, Seq<u8>)>
    decreases chunks.len(),
{
    if chunks.len() == 0 {
        Seq::empty()
    } else if chunks.len() >= 2 && chunks[0].1.len() == CHUNK_MAX && chunks[1].0 == chunks[0].0 {
        let rest = gather(chunks.drop_first());
        seq![(chunks[0].0, chunks[0].1 + rest[0].1)] + rest.drop_first()
    } else {
        seq![chunks[0]] + gather(chunks.drop_first())
    }
}

/// The logical items of a stream, in stream order; `None` for a malformed
/// stream.
pub open spec fn decoding(stream: Seq<u8>) -> Option<Seq<(u8, Seq<u8>)>> {
    match parse_chunks(stream) {
        Some(chunks) => Some(gather(chunks)),
        None => None,
    }
}

/// Puts one decoded item into a mapping. `None` where the tag is taken and
/// the policy refuses a second use.
pub open spec fn place(
    found: Map<u8, Seq<u8>>,
    tag: u8,
    payload: Seq<u8>,
    policy: DuplicatePolicy,
) -> Option<Map<u8, Seq<u8>>> {
    if !found.contains_key(tag) {
        Some(found.insert(tag, payload))
    } else {
        match policy {
            DuplicatePolicy::Overwrite => Some(found.insert(tag, payload)),
            DuplicatePolicy::Append => Some(found.insert(tag, found[tag] + payload)),
            DuplicatePolicy::Reject => None,
        }
    }
}

/// Puts decoded items into a mapping, in stream order.
pub open spec fn collect_into(
    found: Map<u8, Seq<u8>>,
    items: Seq<(u8, Seq<u8>)>,
    policy: DuplicatePolicy,
) -> Option<Map<u8, Seq<u8>>>
    decreases items.len(),
{
    if items.len() == 0 {
        Some(found)
    } else {
        match place(found, items[0].0, items[0].1, policy) {
            Some(next) => collect_into(next, items.drop_first(), policy),
            None => None,
        }
    }
}

/// The mapping that a sequence of decoded items stands for under a policy.
pub open spec fn collect(items: Seq<(u8, Seq<u8>)>, policy: DuplicatePolicy) -> Option<
    Map<u8, Seq<u8>>,
> {
    collect_into(Map::empty(), items, policy)
}

/// The mapping that a stream decodes to under a policy, or why it does not
/// decode. A malformed stream is reported as such whatever else holds of
/// it.
pub open spec fn mapping(stream: Seq<u8>, policy: DuplicatePolicy) -> Result<
    Map<u8, Seq<u8>>,
    DecodeError,
> {
    match decoding(stream) {
        None => Err(DecodeError::MalformedStream),
        Some(items) => match collect(items, policy) {
            Some(found) => Ok(found),
            None => Err(DecodeError::DuplicateTag),
        },
    }
}

/// The last chunk of the payload's encoding is a full one.
pub open spec fn ends_full(payload: Seq<u8>) -> bool {
    payload.len() > 0 && payload.len() % (CHUNK_MAX as nat) == 0
}

/// No item is followed by one that its encoding would run into: an item
/// whose last chunk is full is not followed by an item of the same tag.
pub open spec fn separated(items: Seq<(u8, Seq<u8>)>) -> bool {
    forall|i: int|
        #![trigger items[i]]
        0 <= i < items.len() - 1 ==> !(ends_full(items[i].1) && items[i + 1].0 == items[i].0)
}

} // verus!
