//! Cursor over one decoded block's entries.

use crate::block::entry_wf_at;
use crate::block::key_at;
use crate::block::val_at;
use crate::block::Block;
use crate::keys::key_lt;
use crate::keys::lemma_lex_le_lt_trans;
use crate::keys::lemma_lex_lt_total;
use crate::keys::lemma_lex_lt_trans;
use crate::keys::lex_le;
use crate::keys::lex_lt;
use crate::wire::copy_range;
use crate::wire::read_u16;
use vstd::prelude::*;

verus! {

/// Iterates a block's entries in key order. The cursor is an index into
/// the offset table; one past the last entry means exhausted.
pub struct BlockIterator {
    /// The block being read.
    pub block: Block,
    /// Index of the current entry; `num_entries` when invalid.
    pub idx: usize,
}

impl BlockIterator {
    /// Well-formed: the block is, and the cursor is in range.
    pub open spec fn wf(self) -> bool {
        &&& self.block.wf()
        &&& self.idx <= self.block.offsets@.len()
    }

    /// Whether the cursor rests on an entry.
    pub open spec fn spec_valid(self) -> bool {
        self.idx < self.block.offsets@.len()
    }

    /// Key under the cursor.
    pub open spec fn spec_key(self) -> Seq<u8> {
        key_at(self.block.data@, self.block.offsets@, self.idx as int)
    }

    /// Value under the cursor.
    pub open spec fn spec_value(self) -> Seq<u8> {
        val_at(self.block.data@, self.block.offsets@, self.idx as int)
    }

    /// Opens an iterator positioned on the first entry.
    pub fn create_and_seek_to_first(block: Block) -> (r: BlockIterator)
        requires
            block.wf(),
        ensures
            r.wf(),
            r.block == block,
            r.idx == 0,
    {
        BlockIterator { block, idx: 0 }
    }

    /// Opens an iterator positioned on the first entry with key at or
    /// after `key`.
    pub fn create_and_seek_to_key(block: Block, key: &[u8]) -> (r: BlockIterator)
        requires
            block.wf(),
        ensures
            r.wf(),
            r.block == block,
            forall|j: int|
                0 <= j < r.idx ==> lex_lt(key_at(block.data@, block.offsets@, j), key@),
            r.spec_valid() ==> lex_le(key@, r.spec_key()),
    {
        let mut it = BlockIterator { block, idx: 0 };
        it.seek_to_key(key);
        it
    }

    /// Moves the cursor back to the first entry.
    pub fn seek_to_first(&mut self)
        requires
            old(self).wf(),
        ensures
            final(self).wf(),
            final(self).block == old(self).block,
            final(self).idx == 0,
    {
        self.idx = 0;
    }

    /// Whether the cursor rests on an entry; false once exhausted.
    pub fn is_valid(&self) -> (r: bool)
        ensures
            r == self.spec_valid(),
    {
        self.idx < self.block.offsets.len()
    }

    /// Copies out the key of the entry at offset-table index `i`.
    fn key_of(&self, i: usize) -> (r: Vec<u8>)
        requires
            self.block.wf(),
            i < self.block.offsets@.len(),
        ensures
            r@ == key_at(self.block.data@, self.block.offsets@, i as int),
    {
        proof {
            assert(entry_wf_at(self.block.data@, self.block.offsets@, i as int));
        }
        let off = self.block.offsets[i] as usize;
        let klen = read_u16(self.block.data.as_slice(), off) as usize;
        copy_range(self.block.data.as_slice(), off + 2, off + 2 + klen)
    }

    /// Key under the cursor. The iterator must be valid.
    pub fn key(&self) -> (r: Vec<u8>)
        requires
            self.wf(),
            self.spec_valid(),
        ensures
            r@ == self.spec_key(),
    {
        self.key_of(self.idx)
    }

    /// Value under the cursor. The iterator must be valid.
    pub fn value(&self) -> (r: Vec<u8>)
        requires
            self.wf(),
            self.spec_valid(),
        ensures
            r@ == self.spec_value(),
    {
        proof {
            assert(entry_wf_at(self.block.data@, self.block.offsets@, self.idx as int));
        }
        let off = self.block.offsets[self.idx] as usize;
        let klen = read_u16(self.block.data.as_slice(), off) as usize;
        let vlen = read_u16(self.block.data.as_slice(), off + 2 + klen) as usize;
        copy_range(self.block.data.as_slice(), off + 4 + klen, off + 4 + klen + vlen)
    }

    /// Advances to the next entry, or past the end. The iterator must be
    /// valid.
    pub fn next(&mut self)
        requires
            old(self).wf(),
            old(self).spec_valid(),
        ensures
            final(self).wf(),
            final(self).block == old(self).block,
            final(self).idx == old(self).idx + 1,
    {
        self.idx = self.idx + 1;
    }

    /// Moves the cursor to the first entry with key at or after `key`,
    /// by binary search over the offset table; past the end when every
    /// key is smaller.
    pub fn seek_to_key(&mut self, key: &[u8])
        requires
            old(self).wf(),
        ensures
            final(self).wf(),
            final(self).block == old(self).block,
            forall|j: int|
                0 <= j < final(self).idx ==> lex_lt(
                    key_at(final(self).block.data@, final(self).block.offsets@, j),
                    key@,
                ),
            final(self).spec_valid() ==> lex_le(key@, final(self).spec_key()),
    {
        let ghost d = self.block.data@;
        let ghost o = self.block.offsets@;
        let n = self.block.offsets.len();
        let mut lo: usize = 0;
        let mut hi: usize = n;
        while lo < hi
            invariant
                self.block.wf(),
                d == self.block.data@,
                o == self.block.offsets@,
                lo <= hi <= n == o.len(),
                forall|j: int| 0 <= j < lo ==> lex_lt(key_at(d, o, j), key@),
                forall|j: int| hi <= j < n ==> lex_le(key@, #[trigger] key_at(d, o, j)),
            decreases hi - lo,
        {
            let mid = lo + (hi - lo) / 2;
            let mid_key = self.key_of(mid);
            if key_lt(mid_key.as_slice(), key) {
                proof {
                    assert forall|j: int| 0 <= j < mid + 1 implies lex_lt(
                        key_at(d, o, j),
                        key@,
                    ) by {
                        if j < mid {
                            assert(lex_lt(key_at(d, o, j), key_at(d, o, mid as int)));
                            lemma_lex_lt_trans(key_at(d, o, j), key_at(d, o, mid as int), key@);
                        }
                    }
                }
                lo = mid + 1;
            } else {
                proof {
                    lemma_lex_lt_total(key@, key_at(d, o, mid as int));
                    assert(lex_le(key@, key_at(d, o, mid as int)));
                    assert forall|j: int| mid <= j < n implies lex_le(
                        key@,
                        #[trigger] key_at(d, o, j),
                    ) by {
                        if j > mid {
                            assert(lex_lt(key_at(d, o, mid as int), key_at(d, o, j)));
                            lemma_lex_le_lt_trans(key@, key_at(d, o, mid as int), key_at(d, o, j));
                        }
                    }
                }
                hi = mid;
            }
        }
        self.idx = lo;
    }
}

} // verus!
