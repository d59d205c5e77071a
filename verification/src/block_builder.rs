//! Incremental construction of one block under a soft size budget.

use crate::block::entries_of;
use crate::block::entries_sorted;
use crate::block::entries_wf;
use crate::block::entry_wf_at;
use crate::block::key_at;
use crate::block::lemma_entry_parse_stable;
use crate::block::lemma_new_entry_parse;
use crate::block::val_at;
use crate::block::Block;
use crate::block::SIZEOF_U16;
use crate::keys::lemma_lex_lt_trans;
use crate::keys::lex_lt;
use crate::wire::be16;
use crate::wire::put_slice;
use crate::wire::put_u16;
use vstd::prelude::*;

verus! {

/// Builds a block by appending entries in strictly increasing key order.
/// An entry that would push the block past its byte budget is rejected,
/// except that the very first entry is always taken, so one oversized
/// entry can never wedge a builder.
pub struct BlockBuilder {
    /// Offsets of each key-value entry.
    pub offsets: Vec<u16>,
    /// All serialized key-value pairs in the block.
    pub data: Vec<u8>,
    /// The expected block size.
    pub block_size: usize,
}

impl BlockBuilder {
    /// Well-formed: the accumulated bytes and offsets describe a sorted
    /// entry sequence, and the budget fits the 16-bit offset fields.
    pub open spec fn wf(self) -> bool {
        &&& entries_wf(self.data@, self.offsets@)
        &&& entries_sorted(self.data@, self.offsets@)
        &&& self.block_size <= 0xffff
    }

    /// The key-value sequence added so far.
    pub open spec fn entries(self) -> Seq<(Seq<u8>, Seq<u8>)> {
        entries_of(self.data@, self.offsets@)
    }

    /// The key of the most recently added entry.
    pub open spec fn last_key(self) -> Seq<u8> {
        key_at(self.data@, self.offsets@, self.offsets@.len() - 1)
    }

    /// Bytes the block would occupy if built now: data, offset table,
    /// and the entry count field.
    pub open spec fn spec_size(self) -> int {
        2 + 2 * self.offsets@.len() as int + self.data@.len() as int
    }

    /// Creates an empty builder with the given byte budget.
    pub fn new(block_size: usize) -> (r: BlockBuilder)
        requires
            block_size <= 0xffff,
        ensures
            r.wf(),
            r.entries() == Seq::<(Seq<u8>, Seq<u8>)>::empty(),
            r.block_size == block_size,
    {
        let r = BlockBuilder { offsets: Vec::new(), data: Vec::new(), block_size };
        proof {
            assert(r.entries() =~= Seq::<(Seq<u8>, Seq<u8>)>::empty());
        }
        r
    }

    fn estimated_size(&self) -> (r: usize)
        requires
            self.wf(),
        ensures
            r == self.spec_size(),
    {
        SIZEOF_U16 + self.offsets.len() * SIZEOF_U16 + self.data.len()
    }

    /// Whether no entry has been added yet.
    pub fn is_empty(&self) -> (r: bool)
        ensures
            r == (self.entries().len() == 0),
    {
        self.offsets.len() == 0
    }

    /// Appends a key-value pair, or returns false without changing
    /// anything when the block is full: a non-empty builder rejects an
    /// entry once the block size would pass the budget, while an empty
    /// one accepts any entry. Keys must be non-empty and arrive in
    /// strictly increasing order.
    #[must_use]
    pub fn add(&mut self, key: &[u8], value: &[u8]) -> (r: bool)
        requires
            old(self).wf(),
            1 <= key@.len() <= 0xffff,
            value@.len() <= 0xffff,
            old(self).entries().len() > 0 ==> lex_lt(old(self).last_key(), key@),
        ensures
            final(self).wf(),
            final(self).block_size == old(self).block_size,
            r == (old(self).entries().len() == 0 || old(self).spec_size() + key@.len()
                + value@.len() + 3 * SIZEOF_U16 <= old(self).block_size),
            r ==> final(self).entries() == old(self).entries().push((key@, value@)),
            r ==> final(self).last_key() == key@,
            !r ==> *final(self) == *old(self),
    {
        if self.estimated_size() + key.len() + value.len() + 3 * SIZEOF_U16 > self.block_size
            && !self.is_empty() {
            return false;
        }
        let ghost d = self.data@;
        let ghost o = self.offsets@;
        self.offsets.push(self.data.len() as u16);
        put_u16(&mut self.data, key.len() as u16);
        put_slice(&mut self.data, key);
        put_u16(&mut self.data, value.len() as u16);
        put_slice(&mut self.data, value);
        proof {
            let s = be16(key@.len() as int) + key@ + be16(value@.len() as int) + value@;
            let d2 = self.data@;
            let o2 = self.offsets@;
            assert(d2 =~= d + s);
            assert(d2 =~= d + be16(key@.len() as int) + key@ + be16(value@.len() as int)
                + value@);
            let n = o.len() as int;
            if n == 0 {
                assert(d.len() == 0);
            } else {
                assert(2 + 2 * n + d.len() + key@.len() + value@.len() + 6 <= self.block_size
                    + 6);
                assert(d.len() <= 0xffff);
            }
            assert(o2 == o.push((d.len() as u16)));
            assert(o2[n] as int == d.len() as int);
            lemma_new_entry_parse(d, key@, value@);
            assert forall|i: int| 0 <= i < n implies #[trigger] entry_wf_at(d2, o2, i) by {
                assert(entry_wf_at(d, o, i));
                lemma_entry_parse_stable(d, s, o[i] as int);
                assert(o2[i] == o[i]);
            }
            assert forall|i: int| 0 <= i < n implies #[trigger] key_at(d2, o2, i) == key_at(
                d,
                o,
                i,
            ) by {
                assert(entry_wf_at(d, o, i));
                lemma_entry_parse_stable(d, s, o[i] as int);
            }
            assert forall|i: int| 0 <= i < n implies #[trigger] val_at(d2, o2, i) == val_at(
                d,
                o,
                i,
            ) by {
                assert(entry_wf_at(d, o, i));
                lemma_entry_parse_stable(d, s, o[i] as int);
            }
            assert(entry_wf_at(d2, o2, n));
            assert(key_at(d2, o2, n) == key@);
            assert(val_at(d2, o2, n) == value@);
            assert(entries_wf(d2, o2));
            assert forall|i: int, j: int| 0 <= i < j < o2.len() implies lex_lt(
                #[trigger] key_at(d2, o2, i),
                #[trigger] key_at(d2, o2, j),
            ) by {
                if j < n {
                    assert(lex_lt(key_at(d, o, i), key_at(d, o, j)));
                } else {
                    if i < n - 1 {
                        assert(lex_lt(key_at(d, o, i), key_at(d, o, n - 1)));
                        lemma_lex_lt_trans(key_at(d, o, i), key_at(d, o, n - 1), key@);
                    }
                }
            }
            assert(self.entries() =~= entries_of(d, o).push((key@, value@)));
        }
        true
    }

    /// Finalizes the builder into an immutable block holding exactly the
    /// entries added. At least one entry must have been added.
    pub fn build(self) -> (r: Block)
        requires
            self.wf(),
            self.entries().len() > 0,
        ensures
            r.wf(),
            r.data@ == self.data@,
            r.offsets@ == self.offsets@,
            r.entries() == self.entries(),
    {
        Block { data: self.data, offsets: self.offsets }
    }
}

} // verus!
