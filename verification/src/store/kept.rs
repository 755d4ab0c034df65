//! What a store keeps of what it has read.

use std::sync::Arc;
use vstd::prelude::*;

use super::contents::ParsedBlob;
use super::table::FileTable;
use crate::cache;
use crate::cache::Buffer;
use crate::index::BlobId;
use crate::recent::RecentView;

verus! {

/// The caches of a store: parsed blobs and file tables by blob; windows of
/// stored bytes by dat and number, as many as `window_room` bytes hold; and
/// decoded blocks by dat and offset, as many as `room` bytes hold.
#[verifier::ext_equal]
pub struct Kept {
    pub blobs: RecentView<Arc<ParsedBlob>>,
    pub tables: RecentView<Arc<FileTable>>,
    pub windows: RecentView<Buffer>,
    pub window_room: nat,
    pub blocks: RecentView<Buffer>,
    pub room: nat,
}

/// A cache after something was taken from it, or, where it was not there, was
/// made and put in, unless that failed.
pub open spec fn after_use<V>(c: RecentView<V>, key: u128, made: Option<V>) -> RecentView<V> {
    if c.values.contains_key(key) {
        c.after_get(key)
    } else {
        match made {
            Some(v) => c.after_put(key, v),
            None => c,
        }
    }
}

/// The tables after the layers of a chain were used, one by one, from the
/// first; as many as there are.
pub open spec fn after_layers(
    c: RecentView<Arc<FileTable>>,
    chain: Seq<BlobId>,
    layers: Seq<Arc<FileTable>>,
) -> RecentView<Arc<FileTable>>
    decreases layers.len(),
{
    if layers.len() == 0 {
        c
    } else {
        after_use(
            after_layers(c, chain, layers.drop_last()),
            chain[layers.len() - 1].0 as u128,
            Some(layers.last()),
        )
    }
}

impl Kept {
    /// How many bytes of windows and of blocks are kept.
    pub open spec fn sizes(self) -> (nat, nat) {
        (
            cache::total(self.windows.order, self.windows.values),
            cache::total(self.blocks.order, self.blocks.values),
        )
    }

    /// The windows after one was used: taken from what is kept, or, where it
    /// was not there, fetched and kept as far as there is room.
    pub open spec fn windows_with(self, key: u128, fetched: Option<Buffer>) -> RecentView<Buffer> {
        if self.windows.values.contains_key(key) {
            self.windows.after_get(key)
        } else {
            match fetched {
                Some(w) => cache::inserted(self.windows, self.window_room, key, w),
                None => self.windows,
            }
        }
    }

    /// The blocks that are kept are the same, in the same order.
    pub open spec fn same_blocks(self, other: Kept) -> bool {
        self.blocks == other.blocks && self.room == other.room
    }

    /// After a block was decoded that was not there: a plain one is not kept,
    /// since the stored bytes are; another is kept as far as there is room.
    pub open spec fn blocks_with(self, plain: bool, key: u128, b: Buffer) -> RecentView<Buffer> {
        if plain {
            self.blocks
        } else {
            cache::inserted(self.blocks, self.room, key, b)
        }
    }
}

/// What a cache was asked for and could be made is kept, under its key.
pub proof fn law_used_is_kept<V>(c: RecentView<V>, key: u128, made: V)
    ensures
        after_use(c, key, Some(made)).values.contains_key(key),
        after_use(c, key, Some(made)).values[key] == if c.values.contains_key(key) {
            c.values[key]
        } else {
            made
        },
{
}

} // verus!
