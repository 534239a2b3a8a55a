//! Blocks kept in memory.

use vstd::prelude::*;
use crate::block;
use crate::block::{Block, BlockView};
use crate::consensus::chain::BlockSource;
use crate::hash;
use crate::keymap;
use crate::keymap::KeyMap;

verus! {

/// A block source that holds what was put into it.
pub struct MemoryBlocks {
    blocks: KeyMap<32, Block>,
}

impl View for MemoryBlocks {
    type V = Seq<([u8; 32], Block)>;

    closed spec fn view(&self) -> Seq<([u8; 32], Block)> {
        self.blocks@
    }
}

impl BlockSource for MemoryBlocks {
    open spec fn block_under(&self, hash: hash::Hash) -> Option<BlockView> {
        match keymap::value_of(self@, hash.0) {
            Some(b) => Some(b@),
            None => None,
        }
    }

    fn get_block(&self, hash: &hash::Hash) -> (r: Option<Block>) {
        match self.blocks.get(&hash.0) {
            Some(b) => Some(b.clone()),
            None => None,
        }
    }
}

impl MemoryBlocks {
    /// A source that holds nothing yet.
    pub fn new() -> (r: MemoryBlocks)
        ensures
            forall|h: hash::Hash| (#[trigger] r.block_under(h)) is None,
    {
        let blocks: KeyMap<32, Block> = KeyMap::new();
        let r = MemoryBlocks { blocks };
        assert forall|h: hash::Hash| (#[trigger] r.block_under(h)) is None by {
            keymap::lemma_value_of(r@, h.0);
        }
        r
    }

    /// Put a block under its hash. What stands under other hashes stays.
    pub fn put(&mut self, b: &Block)
        ensures
            final(self).block_under(block::header_hash(b@.header)) == Some(b@),
            forall|h: hash::Hash|
                h != block::header_hash(b@.header) ==> (#[trigger] final(self).block_under(h))
                    == old(self).block_under(h),
    {
        let key = b.hash();
        let copy = b.clone();
        self.blocks.insert(key.0, copy);
        proof {
            keymap::put_and_lookup(old(self)@, key.0, copy, key.0);
            assert forall|h: hash::Hash| h != key implies (#[trigger] self.block_under(h)) == old(
                self,
            ).block_under(h) by {
                keymap::put_and_lookup(old(self)@, key.0, copy, h.0);
                assert(h.0 != key.0);
            }
        }
    }
}

} // verus!
