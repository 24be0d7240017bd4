//! How the executable containers of items are read in contracts.

use vstd::prelude::*;

verus! {

/// A vector of items as a sequence of tag and payload bytes.
pub open spec fn item_views(items: Seq<(u8, Vec<u8>)>) -> Seq<(u8, Seq<u8>)> {
    items.map_values(|item: (u8, Vec<u8>)| (item.0, item.1@))
}

/// A mapping of tags to byte vectors as a mapping of tags to payload bytes.
pub open spec fn payloads(items: Map<u8, Vec<u8>>) -> Map<u8, Seq<u8>> {
    Map::new(|tag: u8| items.contains_key(tag), |tag: u8| items[tag]@)
}

} // verus!
