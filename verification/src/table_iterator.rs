//! Iterates one table as a single sorted stream, composing a block
//! iterator with the table's block metadata.

use crate::block_iterator::BlockIterator;
use crate::keys::key_le;
use crate::keys::lemma_lex_lt_le_trans;
use crate::keys::lex_le;
use crate::keys::lex_lt;
use crate::table::lemma_block_key_range;
use crate::table::lemma_entries_decompose;
use crate::table::lemma_entries_upto_index;
use crate::table::lemma_entries_upto_mono;
use crate::table::lemma_meta_last_le;
use crate::table::SsTable;
use crate::wire::copy_range;
use vstd::prelude::*;

verus! {

/// Cursor over one table's entries: the index of the block under the
/// cursor and an iterator into its decoded form. Blocks are decoded one
/// at a time, on demand.
pub struct SsTableIterator {
    /// Iterator into the decoded current block.
    pub blk_iter: BlockIterator,
    /// Index of the current block.
    pub blk_idx: usize,
}

impl SsTableIterator {
    /// Well-formed with respect to the table it reads: the inner
    /// iterator walks the decoded current block, and only the last
    /// block's iterator may be exhausted.
    pub open spec fn wf(self, t: SsTable) -> bool {
        &&& t.wf()
        &&& self.blk_idx < t.num_blocks()
        &&& self.blk_iter.block.data@ == t.blocks@[self.blk_idx as int].0
        &&& self.blk_iter.block.offsets@ == t.blocks@[self.blk_idx as int].1
        &&& self.blk_iter.wf()
        &&& (self.blk_iter.idx == self.blk_iter.block.offsets@.len() ==> self.blk_idx + 1
            == t.num_blocks())
    }

    /// Absolute position within the table's entry sequence.
    pub open spec fn pos(self, t: SsTable) -> int {
        t.entries_upto(self.blk_idx as int).len() + self.blk_iter.idx
    }

    /// Whether the cursor rests on an entry.
    pub open spec fn spec_valid(self) -> bool {
        self.blk_iter.idx < self.blk_iter.block.offsets@.len()
    }

    /// Valid exactly when the position is before the end of the table.
    pub proof fn lemma_pos(self, t: SsTable)
        requires
            self.wf(t),
        ensures
            0 <= self.pos(t) <= t.entries().len(),
            self.spec_valid() <==> self.pos(t) < t.entries().len(),
    {
        let b = self.blk_idx as int;
        let n = t.num_blocks();
        assert(t.table_block_wf(b));
        assert(t.entries_upto(b + 1) == t.entries_upto(b) + t.block_entries(b));
        lemma_entries_upto_mono(t, b + 1, n);
        if self.spec_valid() {
            assert(self.pos(t) < t.entries_upto(b + 1).len());
        } else {
            assert(b + 1 == n);
            assert(self.pos(t) == t.entries_upto(n).len());
        }
    }

    /// The entry under the cursor is the table entry at `pos`.
    pub proof fn lemma_current(self, t: SsTable)
        requires
            self.wf(t),
            self.spec_valid(),
        ensures
            0 <= self.pos(t) < t.entries().len(),
            t.entries()[self.pos(t)] == t.block_entries(self.blk_idx as int)[self.blk_iter.idx as int],
    {
        self.lemma_pos(t);
        lemma_entries_upto_index(t, t.num_blocks(), self.blk_idx as int, self.blk_iter.idx as int);
    }

    /// Opens an iterator on the table's first entry.
    pub fn create_and_seek_to_first(t: &SsTable) -> (r: SsTableIterator)
        requires
            t.wf(),
        ensures
            r.wf(*t),
            r.pos(*t) == 0,
            r.spec_valid(),
    {
        proof {
            assert(t.table_block_wf(0));
        }
        let block = t.read_block(0);
        let blk_iter = BlockIterator::create_and_seek_to_first(block);
        let r = SsTableIterator { blk_iter, blk_idx: 0 };
        proof {
            assert(t.entries_upto(0) =~= Seq::<(Seq<u8>, Seq<u8>)>::empty());
        }
        r
    }

    /// Whether the cursor rests on an entry; false once exhausted.
    pub fn is_valid(&self) -> (r: bool)
        ensures
            r == self.spec_valid(),
    {
        self.blk_iter.is_valid()
    }

    /// Key under the cursor. The iterator must be valid.
    pub fn key(&self, t: &SsTable) -> (r: Vec<u8>)
        requires
            self.wf(*t),
            self.spec_valid(),
        ensures
            r@ == t.entries()[self.pos(*t)].0,
    {
        proof {
            self.lemma_current(*t);
        }
        self.blk_iter.key()
    }

    /// Value under the cursor. The iterator must be valid.
    pub fn value(&self, t: &SsTable) -> (r: Vec<u8>)
        requires
            self.wf(*t),
            self.spec_valid(),
        ensures
            r@ == t.entries()[self.pos(*t)].1,
    {
        proof {
            self.lemma_current(*t);
        }
        self.blk_iter.value()
    }

    /// Advances one entry, moving to the next block's first entry when
    /// the current block is spent.
    pub fn next(&mut self, t: &SsTable)
        requires
            old(self).wf(*t),
            old(self).spec_valid(),
        ensures
            final(self).wf(*t),
            final(self).pos(*t) == old(self).pos(*t) + 1,
    {
        let ghost b = self.blk_idx as int;
        proof {
            assert(t.table_block_wf(b));
            assert(t.entries_upto(b + 1) == t.entries_upto(b) + t.block_entries(b));
        }
        self.blk_iter.next();
        if !self.blk_iter.is_valid() && self.blk_idx + 1 < t.block_meta.len() {
            self.blk_idx = self.blk_idx + 1;
            let block = t.read_block(self.blk_idx);
            self.blk_iter = BlockIterator::create_and_seek_to_first(block);
        }
    }

    /// Opens an iterator on the first entry with key at or after `key`.
    /// The block whose range may hold the key is found by binary search
    /// over the metadata; if that block falls short, the cursor moves to
    /// the next block's first entry.
    pub fn create_and_seek_to_key(t: &SsTable, key: &[u8]) -> (r: SsTableIterator)
        requires
            t.wf(),
        ensures
            r.wf(*t),
            forall|g: int| 0 <= g < r.pos(*t) ==> lex_lt(t.entries()[g].0, key@),
            r.spec_valid() ==> lex_le(key@, t.entries()[r.pos(*t)].0),
            lex_lt(t.last_key@, key@) ==> !r.spec_valid(),
    {
        let n = t.block_meta.len();
        let mut lo: usize = 0;
        let mut hi: usize = n;
        while lo < hi
            invariant
                lo <= hi <= n == t.num_blocks(),
                t.wf(),
                forall|c: int|
                    0 <= c < lo ==> lex_le((#[trigger] t.block_meta@[c]).first_key@, key@),
                forall|c: int|
                    hi <= c < n ==> lex_lt(key@, (#[trigger] t.block_meta@[c]).first_key@),
            decreases hi - lo,
        {
            let mid = lo + (hi - lo) / 2;
            proof {
                assert(t.table_block_wf(mid as int));
            }
            let fk = copy_range(
                t.block_meta[mid].first_key.as_slice(),
                0,
                t.block_meta[mid].first_key.len(),
            );
            proof {
                assert(fk@ =~= t.block_meta@[mid as int].first_key@);
            }
            if key_le(fk.as_slice(), key) {
                proof {
                    assert forall|c: int| 0 <= c < mid + 1 implies lex_le(
                        (#[trigger] t.block_meta@[c]).first_key@,
                        key@,
                    ) by {
                        if lo <= c {
                            crate::table::lemma_meta_first_le(*t, c, mid as int);
                            crate::keys::lemma_lex_le_trans(
                                t.block_meta@[c].first_key@,
                                t.block_meta@[mid as int].first_key@,
                                key@,
                            );
                        }
                    }
                }
                lo = mid + 1;
            } else {
                proof {
                    crate::keys::lemma_lex_lt_total(key@, fk@);
                    assert(lex_lt(key@, t.block_meta@[mid as int].first_key@));
                    assert forall|c: int| mid <= c < n implies lex_lt(
                        key@,
                        (#[trigger] t.block_meta@[c]).first_key@,
                    ) by {
                        if c < hi {
                            crate::table::lemma_meta_first_le(*t, mid as int, c);
                            crate::keys::lemma_lex_lt_le_trans(
                                key@,
                                t.block_meta@[mid as int].first_key@,
                                t.block_meta@[c].first_key@,
                            );
                        }
                    }
                }
                hi = mid;
            }
        }
        let b = if lo == 0 {
            0
        } else {
            lo - 1
        };
        proof {
            assert(t.table_block_wf(b as int));
        }
        let block = t.read_block(b);
        let blk_iter = BlockIterator::create_and_seek_to_key(block, key);
        let ghost it0 = blk_iter;
        let mut r = SsTableIterator { blk_iter, blk_idx: b };
        let fixup = !r.blk_iter.is_valid() && b + 1 < n;
        if fixup {
            r.blk_idx = b + 1;
            let nb = t.read_block(r.blk_idx);
            r.blk_iter = BlockIterator::create_and_seek_to_first(nb);
            proof {
                assert(t.table_block_wf(b as int + 1));
            }
        }
        proof {
            assert forall|g: int| 0 <= g < r.pos(*t) implies lex_lt(t.entries()[g].0, key@) by {
                let nb = t.num_blocks();
                let bi = r.blk_idx as int;
                if g < t.entries_upto(bi).len() {
                    let (c, j) = lemma_entries_decompose(*t, bi, g);
                    lemma_entries_upto_index(*t, nb, c, j);
                    assert(t.table_block_wf(c));
                    lemma_block_key_range(*t, c, j);
                    if c == b as int {
                        // The landing block, wholly below the key.
                        assert(j < it0.idx);
                        assert(lex_lt(t.block_entries(c)[j].0, key@));
                    } else {
                        // An earlier block: its range ends below the next
                        // block's first key, which is at or below the key.
                        assert(t.table_order_ok(c));
                        assert(c + 1 < lo);
                        assert(lex_le(t.block_meta@[c + 1].first_key@, key@));
                        crate::keys::lemma_lex_le_lt_trans(
                            t.block_entries(c)[j].0,
                            t.block_meta@[c].last_key@,
                            t.block_meta@[c + 1].first_key@,
                        );
                        lemma_lex_lt_le_trans(
                            t.block_entries(c)[j].0,
                            t.block_meta@[c + 1].first_key@,
                            key@,
                        );
                    }
                } else {
                    let j = g - t.entries_upto(bi).len();
                    assert(j < r.blk_iter.idx);
                    lemma_entries_upto_index(*t, nb, bi, j);
                    assert(lex_lt(t.block_entries(bi)[j].0, key@));
                }
            }
            if r.spec_valid() {
                r.lemma_current(*t);
                let cur = t.entries()[r.pos(*t)].0;
                if fixup {
                    assert(cur == t.block_entries(b as int + 1)[0].0);
                    lemma_block_key_range(*t, b as int + 1, 0);
                    assert(cur == t.block_meta@[b as int + 1].first_key@);
                    assert(b as int + 1 >= lo);
                    assert(lex_lt(key@, t.block_meta@[b as int + 1].first_key@));
                    assert(lex_le(key@, cur));
                } else {
                    assert(lex_le(key@, cur));
                }
            }
            if lex_lt(t.last_key@, key@) && r.spec_valid() {
                r.lemma_current(*t);
                let cur = t.entries()[r.pos(*t)].0;
                let blast = t.block_meta@[r.blk_idx as int].last_key@;
                lemma_block_key_range(*t, r.blk_idx as int, r.blk_iter.idx as int);
                lemma_meta_last_le(*t, r.blk_idx as int);
                assert(lex_le(cur, blast));
                crate::keys::lemma_lex_le_trans(cur, blast, t.last_key@);
                assert(lex_le(key@, cur));
                lemma_lex_lt_le_trans(t.last_key@, key@, cur);
                lemma_lex_lt_le_trans(t.last_key@, cur, t.last_key@);
                crate::keys::lemma_lex_lt_irrefl(t.last_key@);
                assert(false);
            }
        }
        r
    }
}

} // verus!
