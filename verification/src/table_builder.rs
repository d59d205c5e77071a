//! Builds a sorted-string table from key-value pairs fed in key order,
//! sealing a block whenever the active one fills up.

use crate::block::block_seqs_wf;
use crate::block::entries_of;
use crate::block::key_at;
use crate::block::lemma_offsets_bytes_len;
use crate::block::spec_encode_block;
use crate::block::SIZEOF_U16;
use crate::block_builder::BlockBuilder;
use crate::keys::lex_lt;
use crate::table::blocks_entries_upto;
use crate::table::lemma_blocks_upto_congruent;
use crate::table::meta_entry_enc;
use crate::table::meta_section_enc;
use crate::table::metas_enc;
use crate::table::metas_wf;
use crate::table::valid_table_bytes;
use crate::table::BlockMeta;
use crate::table::SsTable;
use crate::wire::be32;
use crate::wire::copy_range;
use crate::wire::put_slice;
use crate::wire::put_u16;
use crate::wire::put_u32;
use vstd::prelude::*;

verus! {

/// Builds an SSTable: an active block builder, the sealed data region,
/// and the metadata captured when each block was sealed. The `blocks`
/// ghost field witnesses the content of each sealed block.
pub struct SsTableBuilder {
    /// The block being filled.
    pub builder: BlockBuilder,
    /// First key of the block being filled; empty when the block is.
    pub first_key: Vec<u8>,
    /// Last key of the block being filled; empty when the block is.
    pub last_key: Vec<u8>,
    /// Encoded bytes of all sealed blocks.
    pub data: Vec<u8>,
    /// Metadata of each sealed block.
    pub meta: Vec<BlockMeta>,
    /// Byte budget of each block.
    pub block_size: usize,
    /// The decoded content of each sealed block.
    pub blocks: Ghost<Seq<(Seq<u8>, Seq<u16>)>>,
}

impl SsTableBuilder {
    /// One past the last byte of sealed block `i` within `data`.
    pub open spec fn sealed_end(self, i: int) -> int {
        if i + 1 < self.meta@.len() {
            self.meta@[i + 1].offset as int
        } else {
            self.data@.len() as int
        }
    }

    /// The bytes of sealed block `i`.
    pub open spec fn sealed_region(self, i: int) -> Seq<u8> {
        self.data@.subrange(self.meta@[i].offset as int, self.sealed_end(i))
    }

    /// The key-value sequence of sealed block `i`.
    pub open spec fn block_entries(self, i: int) -> Seq<(Seq<u8>, Seq<u8>)> {
        entries_of(self.blocks@[i].0, self.blocks@[i].1)
    }

    /// The key-value sequence of all sealed blocks.
    pub open spec fn sealed_entries(self) -> Seq<(Seq<u8>, Seq<u8>)> {
        blocks_entries_upto(self.blocks@, self.meta@.len() as int)
    }

    /// Every entry added so far: sealed blocks, then the active block.
    pub open spec fn entries(self) -> Seq<(Seq<u8>, Seq<u8>)> {
        self.sealed_entries() + self.builder.entries()
    }

    /// The key of the most recently added entry.
    pub open spec fn spec_last_key(self) -> Seq<u8> {
        self.entries().last().0
    }

    /// The active block takes the entry by the budget rule: it is empty,
    /// or the encoded block stays within the byte budget.
    pub open spec fn accepts(self, key: Seq<u8>, value: Seq<u8>) -> bool {
        self.builder.entries().len() == 0 || self.builder.spec_size() + key.len() + value.len()
            + 3 * SIZEOF_U16 <= self.block_size
    }

    /// Sealed block `i` is encoded at its recorded place, is sorted, and
    /// its metadata records its first and last key.
    pub open spec fn sealed_block_wf(self, i: int) -> bool {
        &&& self.meta@[i].offset as int <= self.sealed_end(i) <= self.data@.len()
        &&& self.sealed_region(i) == spec_encode_block(self.blocks@[i].0, self.blocks@[i].1)
        &&& block_seqs_wf(self.blocks@[i].0, self.blocks@[i].1)
        &&& self.meta@[i].first_key@ == self.block_entries(i)[0].0
        &&& self.meta@[i].last_key@ == self.block_entries(i).last().0
    }

    /// Sealed block `i` ends strictly before block `i + 1` begins.
    pub open spec fn sealed_order_ok(self, i: int) -> bool {
        lex_lt(self.meta@[i].last_key@, self.meta@[i + 1].first_key@)
    }

    /// Well-formed: the sealed data region tiles into encoded sorted
    /// blocks mirrored by the metadata, block key ranges are strictly
    /// increasing, and the active block continues past the sealed ones.
    pub open spec fn wf(self) -> bool {
        let n = self.meta@.len() as int;
        &&& self.builder.wf()
        &&& self.builder.block_size == self.block_size
        &&& self.block_size <= 0xffff
        &&& self.blocks@.len() == n
        &&& metas_wf(self.meta@)
        &&& (n > 0 ==> self.meta@[0].offset == 0)
        &&& (n == 0 ==> self.data@.len() == 0)
        &&& self.data@.len() <= 0xfff80000
        &&& 9 * n <= self.data@.len()
        &&& forall|i: int| 0 <= i < n ==> #[trigger] self.sealed_block_wf(i)
        &&& forall|i: int| 0 <= i < n - 1 ==> #[trigger] self.sealed_order_ok(i)
        &&& (self.builder.entries().len() > 0 ==> {
            &&& self.first_key@ == self.builder.entries()[0].0
            &&& self.last_key@ == self.builder.last_key()
            &&& (n > 0 ==> lex_lt(self.meta@[n - 1].last_key@, self.first_key@))
        })
        &&& (self.builder.entries().len() == 0 ==> self.first_key@.len() == 0)
    }

    /// Creates a builder whose blocks aim at the given byte budget.
    pub fn new(block_size: usize) -> (r: SsTableBuilder)
        requires
            block_size <= 0xffff,
        ensures
            r.wf(),
            r.entries() == Seq::<(Seq<u8>, Seq<u8>)>::empty(),
            r.block_size == block_size,
    {
        let r = SsTableBuilder {
            builder: BlockBuilder::new(block_size),
            first_key: Vec::new(),
            last_key: Vec::new(),
            data: Vec::new(),
            meta: Vec::new(),
            block_size,
            blocks: Ghost(Seq::empty()),
        };
        proof {
            assert(r.entries() =~= Seq::<(Seq<u8>, Seq<u8>)>::empty());
        }
        r
    }

    /// Seals the active block: encodes it, records its metadata, appends
    /// its bytes to the data region, and starts a fresh block.
    fn finish_block(&mut self)
        requires
            old(self).wf(),
            old(self).builder.entries().len() > 0,
            old(self).data@.len() <= 0xfff00000,
        ensures
            final(self).wf(),
            final(self).builder.entries().len() == 0,
            final(self).entries() == old(self).entries(),
            final(self).sealed_entries() == old(self).entries(),
            final(self).block_size == old(self).block_size,
            final(self).meta@.len() == old(self).meta@.len() + 1,
            final(self).data@.len() <= old(self).data@.len() + 0x60000,
            forall|i: int|
                0 <= i < old(self).meta@.len() ==> final(self).meta@[i] == old(self).meta@[i],
            final(self).meta@[final(self).meta@.len() - 1].offset as int == old(
                self,
            ).data@.len() as int,
            final(self).meta@[final(self).meta@.len() - 1].first_key@ == old(self).first_key@,
            final(self).meta@[final(self).meta@.len() - 1].last_key@ == old(self).last_key@,
            final(self).data@ == old(self).data@ + spec_encode_block(
                old(self).builder.data@,
                old(self).builder.offsets@,
            ),
            final(self).blocks@ == old(self).blocks@.push(
                (old(self).builder.data@, old(self).builder.offsets@),
            ),
    {
        let ghost n = self.meta@.len() as int;
        let mut fresh = BlockBuilder::new(self.block_size);
        core::mem::swap(&mut self.builder, &mut fresh);
        let block = fresh.build();
        let encoded = block.encode();
        proof {
            lemma_offsets_bytes_len(block.offsets@);
            assert(encoded@.len() >= 9);
            assert(encoded@.len() <= 0x20002 + 2 * 0xffff + 2);
        }
        let offset = self.data.len();
        let mut fk: Vec<u8> = Vec::new();
        let mut lk: Vec<u8> = Vec::new();
        core::mem::swap(&mut self.first_key, &mut fk);
        core::mem::swap(&mut self.last_key, &mut lk);
        self.meta.push(BlockMeta { offset, first_key: fk, last_key: lk });
        put_slice(&mut self.data, encoded.as_slice());
        proof {
            self.blocks@ = self.blocks@.push((block.data@, block.offsets@));
        }
        proof {
            let s = *self;
            let o = *old(self);
            assert(s.blocks@.len() == n + 1);
            assert forall|i: int| 0 <= i < n implies #[trigger] s.sealed_block_wf(i) by {
                assert(o.sealed_block_wf(i));
                assert(s.sealed_end(i) == o.sealed_end(i));
                assert(s.sealed_region(i) =~= o.sealed_region(i));
                assert(s.blocks@[i] == o.blocks@[i]);
            }
            assert(s.meta@[n].offset as int == o.data@.len());
            assert(s.sealed_end(n) == s.data@.len());
            assert(s.sealed_region(n) =~= encoded@);
            assert(s.sealed_region(n) == spec_encode_block(s.blocks@[n].0, s.blocks@[n].1));
            assert(s.block_entries(n) == o.builder.entries());
            assert(s.meta@[n].first_key@ == s.block_entries(n)[0].0);
            assert(o.builder.last_key() == o.builder.entries().last().0);
            assert(s.meta@[n].last_key@ == s.block_entries(n).last().0);
            let bd = o.builder.data@;
            let bo = o.builder.offsets@;
            let nb = bo.len() as int;
            assert(crate::block::entry_wf_at(bd, bo, 0));
            assert(crate::block::entry_wf_at(bd, bo, nb - 1));
            assert(o.first_key@ == key_at(bd, bo, 0));
            assert(key_at(bd, bo, 0).len() == crate::block::entry_key_len(bd, bo[0] as int));
            assert(o.last_key@ == key_at(bd, bo, nb - 1));
            assert(key_at(bd, bo, nb - 1).len() == crate::block::entry_key_len(
                bd,
                bo[nb - 1] as int,
            ));
            assert(metas_wf(s.meta@)) by {
                assert(forall|i: int|
                    0 <= i < n ==> #[trigger] s.meta@[i] == o.meta@[i]);
                assert(1 <= s.meta@[n].first_key@.len() <= 0xffff);
                assert(1 <= s.meta@[n].last_key@.len() <= 0xffff);
            }
            assert(s.sealed_block_wf(n));
            assert forall|i: int| 0 <= i < n + 1 - 1 implies #[trigger] s.sealed_order_ok(
                i,
            ) by {
                if i < n - 1 {
                    assert(o.sealed_order_ok(i));
                } else {
                    assert(s.meta@[n].first_key@ == o.first_key@);
                }
            }
            lemma_blocks_upto_congruent(s.blocks@, o.blocks@, n);
            assert(s.sealed_entries() == blocks_entries_upto(s.blocks@, n + 1));
            assert(blocks_entries_upto(s.blocks@, n + 1) == blocks_entries_upto(s.blocks@, n)
                + entries_of(s.blocks@[n].0, s.blocks@[n].1));
            assert(s.sealed_entries() == o.sealed_entries() + o.builder.entries());
            assert(s.entries() =~= s.sealed_entries() + s.builder.entries());
            assert(s.builder.entries().len() == 0);
            assert(s.entries() =~= o.entries());
            assert(s.wf());
        }
    }

    /// Adds a key-value pair. If the active block rejects it as full,
    /// the block is sealed and the pair opens a fresh block, where it is
    /// always accepted. Keys must be non-empty and arrive in strictly
    /// increasing order.
    pub fn add(&mut self, key: &[u8], value: &[u8])
        requires
            old(self).wf(),
            1 <= key@.len() <= 0xffff,
            value@.len() <= 0xffff,
            old(self).entries().len() > 0 ==> lex_lt(old(self).spec_last_key(), key@),
            old(self).data@.len() <= 0xfff00000,
        ensures
            final(self).wf(),
            final(self).block_size == old(self).block_size,
            final(self).entries() == old(self).entries().push((key@, value@)),
            final(self).spec_last_key() == key@,
            final(self).data@.len() <= old(self).data@.len() + 0x60000,
            final(self).builder.entries().len() > 0,
            old(self).accepts(key@, value@) ==> {
                &&& final(self).meta@ == old(self).meta@
                &&& final(self).data@ == old(self).data@
                &&& final(self).blocks@ == old(self).blocks@
                &&& final(self).builder.entries() == old(self).builder.entries().push(
                    (key@, value@),
                )
            },
            !old(self).accepts(key@, value@) ==> {
                &&& final(self).meta@.len() == old(self).meta@.len() + 1
                &&& (forall|i: int|
                    0 <= i < old(self).meta@.len() ==> final(self).meta@[i] == old(
                        self,
                    ).meta@[i])
                &&& final(self).meta@[old(self).meta@.len() as int].offset as int == old(
                    self,
                ).data@.len() as int
                &&& final(self).meta@[old(self).meta@.len() as int].first_key@ == old(
                    self,
                ).builder.entries()[0].0
                &&& final(self).meta@[old(self).meta@.len() as int].last_key@ == old(
                    self,
                ).builder.last_key()
                &&& final(self).data@ == old(self).data@ + spec_encode_block(
                    old(self).builder.data@,
                    old(self).builder.offsets@,
                )
                &&& final(self).builder.entries() == seq![(key@, value@)]
                &&& final(self).first_key@ == key@
                &&& final(self).last_key@ == key@
            },
    {
        proof {
            lemma_last_entry(*old(self));
        }
        let set_first = self.first_key.len() == 0;
        if set_first {
            self.first_key = copy_range(key, 0, key.len());
        }
        let accepted = self.builder.add(key, value);
        proof {
            assert(accepted == old(self).accepts(key@, value@));
        }
        if accepted {
            self.last_key = copy_range(key, 0, key.len());
            proof {
                assert(self.last_key@ =~= key@);
                assert(self.first_key@ =~= if old(self).builder.entries().len() > 0 {
                    old(self).first_key@
                } else {
                    key@
                });
                lemma_add_into_active(*old(self), *self, key@, value@);
            }
            return ;
        }
        // The active block was full and therefore non-empty; seal it.
        self.finish_block();
        let ghost mid = *self;
        let ok = self.builder.add(key, value);
        self.first_key = copy_range(key, 0, key.len());
        self.last_key = copy_range(key, 0, key.len());
        proof {
            assert(ok);
            assert(self.first_key@ =~= key@);
            assert(self.last_key@ =~= key@);
            assert(self.builder.entries() =~= seq![(key@, value@)]);
            assert(mid.meta@[old(self).meta@.len() as int].first_key@ == old(
                self,
            ).builder.entries()[0].0);
            assert(mid.meta@[old(self).meta@.len() as int].last_key@ == old(
                self,
            ).builder.last_key());
            lemma_add_into_fresh(*old(self), mid, *self, key@, value@);
        }
    }

    /// Bytes of sealed data blocks so far: the dominant part of the
    /// table, used by callers for flush decisions.
    pub fn estimated_size(&self) -> (r: usize)
        ensures
            r == self.data@.len(),
    {
        self.data.len()
    }

    /// Seals the last block, appends the metadata section and the footer
    /// locating it, and returns the finished table. At least one entry
    /// must have been added since the last sealed block.
    #[verifier::rlimit(100)]
    pub fn build(self, id: usize) -> (r: SsTable)
        requires
            self.wf(),
            self.builder.entries().len() > 0,
            self.data@.len() <= 0xfff00000,
        ensures
            r.wf(),
            r.id == id,
            r.max_ts == 0,
            r.entries() == self.entries(),
            valid_table_bytes(r.file@),
            r.first_key@ == self.entries()[0].0,
            r.last_key@ == self.entries().last().0,
            r.block_meta@.len() == self.meta@.len() + 1,
            forall|i: int| 0 <= i < self.meta@.len() ==> r.block_meta@[i] == self.meta@[i],
            r.block_meta@[self.meta@.len() as int].offset as int == self.data@.len() as int,
            r.block_meta@[self.meta@.len() as int].first_key@ == self.builder.entries()[0].0,
            r.block_meta@[self.meta@.len() as int].last_key@ == self.builder.last_key(),
            r.block_meta_offset as int == self.data@.len() + spec_encode_block(
                self.builder.data@,
                self.builder.offsets@,
            ).len(),
    {
        let mut this = self;
        this.finish_block();
        let ghost sealed = this.sealed_entries();
        let ghost pre = this;
        let mut buf: Vec<u8> = Vec::new();
        core::mem::swap(&mut this.data, &mut buf);
        let ghost data0 = buf@;
        let bmo = buf.len();
        let n = this.meta.len();
        put_u32(&mut buf, n as u32);
        let ghost ms = this.meta@;
        proof {
            assert(9 * ms.len() <= data0.len());
            assert(ms.take(0) =~= Seq::<BlockMeta>::empty());
            assert(buf@ =~= data0 + be32(ms.len() as int) + metas_enc(ms.take(0)));
        }
        let mut i: usize = 0;
        while i < n
            invariant
                i <= n == ms.len(),
                ms == this.meta@,
                metas_wf(ms),
                buf@ == data0 + be32(ms.len() as int) + metas_enc(ms.take(i as int)),
            decreases n - i,
        {
            let m = &this.meta[i];
            put_u32(&mut buf, m.offset as u32);
            put_u16(&mut buf, m.first_key.len() as u16);
            put_slice(&mut buf, m.first_key.as_slice());
            put_u16(&mut buf, m.last_key.len() as u16);
            put_slice(&mut buf, m.last_key.as_slice());
            proof {
                let t1 = ms.take(i as int + 1);
                assert(t1.drop_last() =~= ms.take(i as int));
                assert(t1.last() == ms[i as int]);
                assert(metas_enc(t1) == metas_enc(ms.take(i as int)) + meta_entry_enc(
                    ms[i as int],
                ));
                assert(buf@ =~= data0 + be32(ms.len() as int) + metas_enc(t1));
            }
            i = i + 1;
        }
        proof {
            assert(ms.take(n as int) =~= ms);
        }
        put_u32(&mut buf, bmo as u32);
        let fk = copy_range(this.meta[0].first_key.as_slice(), 0, this.meta[0].first_key.len());
        let lk = copy_range(
            this.meta[n - 1].last_key.as_slice(),
            0,
            this.meta[n - 1].last_key.len(),
        );
        let r = SsTable {
            id,
            file: buf,
            block_meta: this.meta,
            block_meta_offset: bmo,
            first_key: fk,
            last_key: lk,
            max_ts: 0,
            blocks: Ghost(this.blocks@),
        };
        proof {
            assert(r.file@ =~= data0 + meta_section_enc(ms) + be32(bmo as int));
            assert(r.first_key@ =~= ms[0].first_key@);
            assert(r.last_key@ =~= ms[ms.len() - 1].last_key@);
            lemma_build_table(pre, r);
            assert(valid_table_bytes(r.file@));
            assert(r.entries() == sealed);
        }
        r
    }
}


/// The last added entry is the active block's last entry, or the last
/// sealed block's when the active block is empty.
#[verifier::rlimit(100)]
proof fn lemma_last_entry(o: SsTableBuilder)
    requires
        o.wf(),
    ensures
        o.builder.entries().len() > 0 ==> {
            &&& o.entries().len() > 0
            &&& o.spec_last_key() == o.builder.last_key()
            &&& o.first_key@.len() >= 1
        },
        o.builder.entries().len() == 0 && o.meta@.len() > 0 ==> {
            &&& o.entries().len() > 0
            &&& o.spec_last_key() == o.meta@[o.meta@.len() - 1].last_key@
        },
        o.builder.entries().len() == 0 && o.meta@.len() == 0 ==> o.entries().len() == 0,
{
    if o.builder.entries().len() > 0 {
        assert(o.entries().last() == o.builder.entries().last());
        assert(o.builder.last_key() == o.builder.entries().last().0);
        let bd = o.builder.data@;
        let bo = o.builder.offsets@;
        assert(crate::block::entry_wf_at(bd, bo, 0));
        assert(o.first_key@ == key_at(bd, bo, 0));
        assert(key_at(bd, bo, 0).len() == crate::block::entry_key_len(bd, bo[0] as int));
    } else if o.meta@.len() > 0 {
        let n = o.meta@.len() as int;
        assert(o.sealed_entries() == blocks_entries_upto(o.blocks@, n - 1) + entries_of(
            o.blocks@[n - 1].0,
            o.blocks@[n - 1].1,
        ));
        assert(o.sealed_block_wf(n - 1));
        assert(block_seqs_wf(o.blocks@[n - 1].0, o.blocks@[n - 1].1));
        assert(o.block_entries(n - 1).len() >= 1);
        assert(o.entries().len() > 0);
        assert(o.entries().last() == o.block_entries(n - 1).last());
    }
}

/// A pair accepted by the active block extends the builder's entries.
proof fn lemma_add_into_active(o: SsTableBuilder, s: SsTableBuilder, key: Seq<u8>, value: Seq<u8>)
    requires
        o.wf(),
        1 <= key.len() <= 0xffff,
        value.len() <= 0xffff,
        o.entries().len() > 0 ==> lex_lt(o.spec_last_key(), key),
        s.meta@ == o.meta@,
        s.data@ == o.data@,
        s.blocks@ == o.blocks@,
        s.block_size == o.block_size,
        s.builder.wf(),
        s.builder.block_size == o.builder.block_size,
        s.builder.entries() == o.builder.entries().push((key, value)),
        s.builder.last_key() == key,
        s.last_key@ == key,
        s.first_key@ == if o.builder.entries().len() > 0 {
            o.first_key@
        } else {
            key
        },
    ensures
        s.wf(),
        s.entries() == o.entries().push((key, value)),
        s.spec_last_key() == key,
{
    lemma_last_entry(o);
    let n = s.meta@.len() as int;
    assert(s.sealed_entries() == o.sealed_entries());
    assert(s.entries() =~= o.entries().push((key, value)));
    assert(s.builder.entries()[0] == if o.builder.entries().len() > 0 {
        o.builder.entries()[0]
    } else {
        (key, value)
    });
    if o.builder.entries().len() == 0 && n > 0 {
        assert(o.sealed_block_wf(n - 1));
        assert(lex_lt(s.meta@[n - 1].last_key@, key));
    }
    assert(s.entries().last() == (key, value));
    assert forall|i: int| 0 <= i < n implies #[trigger] s.sealed_block_wf(i) by {
        assert(o.sealed_block_wf(i));
        assert(s.sealed_end(i) == o.sealed_end(i));
        assert(s.sealed_region(i) == o.sealed_region(i));
    }
    assert forall|i: int| 0 <= i < n - 1 implies #[trigger] s.sealed_order_ok(i) by {
        assert(o.sealed_order_ok(i));
    }
    assert(s.wf());
}

/// A pair that opens a fresh block right after a seal extends the whole
/// entry sequence.
proof fn lemma_add_into_fresh(
    o: SsTableBuilder,
    m: SsTableBuilder,
    s: SsTableBuilder,
    key: Seq<u8>,
    value: Seq<u8>,
)
    requires
        o.wf(),
        1 <= key.len() <= 0xffff,
        value.len() <= 0xffff,
        o.builder.entries().len() > 0,
        lex_lt(o.spec_last_key(), key),
        m.wf(),
        m.builder.entries().len() == 0,
        m.meta@.len() >= 1,
        m.sealed_entries() == o.entries(),
        m.meta@[m.meta@.len() - 1].last_key@ == o.last_key@,
        s.meta@ == m.meta@,
        s.data@ == m.data@,
        s.blocks@ == m.blocks@,
        s.block_size == m.block_size,
        s.builder.wf(),
        s.builder.block_size == m.builder.block_size,
        s.builder.entries() == m.builder.entries().push((key, value)),
        s.builder.last_key() == key,
        s.first_key@ == key,
        s.last_key@ == key,
    ensures
        s.wf(),
        s.entries() == o.entries().push((key, value)),
        s.spec_last_key() == key,
{
    lemma_last_entry(o);
    let n = s.meta@.len() as int;
    assert(s.sealed_entries() == o.entries());
    assert(s.builder.entries() =~= Seq::<(Seq<u8>, Seq<u8>)>::empty().push((key, value)));
    assert(s.entries() =~= o.entries().push((key, value)));
    assert(s.builder.entries()[0] == (key, value));
    assert(s.entries().last() == (key, value));
    assert(o.spec_last_key() == o.builder.last_key());
    assert(o.last_key@ == o.builder.last_key());
    assert(lex_lt(s.meta@[n - 1].last_key@, s.first_key@));
    assert forall|i: int| 0 <= i < n implies #[trigger] s.sealed_block_wf(i) by {
        assert(m.sealed_block_wf(i));
        assert(s.sealed_end(i) == m.sealed_end(i));
        assert(s.sealed_region(i) == m.sealed_region(i));
    }
    assert forall|i: int| 0 <= i < n - 1 implies #[trigger] s.sealed_order_ok(i) by {
        assert(m.sealed_order_ok(i));
    }
    assert(s.wf());
}


/// A table assembled from a fully sealed builder is well formed and
/// holds exactly the sealed entries, spanned by its first and last key.
#[verifier::rlimit(100)]
proof fn lemma_build_table(pre: SsTableBuilder, r: SsTable)
    requires
        pre.wf(),
        pre.builder.entries().len() == 0,
        pre.meta@.len() >= 1,
        r.block_meta@ == pre.meta@,
        r.blocks@ == pre.blocks@,
        r.block_meta_offset == pre.data@.len(),
        r.file@ == pre.data@ + meta_section_enc(pre.meta@) + be32(pre.data@.len() as int),
        r.first_key@ == pre.meta@[0].first_key@,
        r.last_key@ == pre.meta@[pre.meta@.len() - 1].last_key@,
    ensures
        r.wf(),
        r.entries() == pre.sealed_entries(),
        r.entries().len() >= 1,
        r.first_key@ == r.entries()[0].0,
        r.last_key@ == r.entries().last().0,
{
    let ms = pre.meta@;
    let data0 = pre.data@;
    let bmo = data0.len() as int;
    let nn = r.num_blocks();
    assert(r.file@.len() == bmo + meta_section_enc(ms).len() + 4);
    assert(r.file@.subrange(bmo, r.file@.len() - 4) =~= meta_section_enc(ms));
    assert(r.file@.subrange(r.file@.len() - 4, r.file@.len() as int) =~= be32(bmo));
    assert forall|j: int| 0 <= j < nn implies #[trigger] r.table_block_wf(j) by {
        assert(pre.sealed_block_wf(j));
        assert(r.region_end(j) == pre.sealed_end(j));
        assert(r.region(j) =~= pre.sealed_region(j));
        assert(r.block_entries(j) == pre.block_entries(j));
    }
    assert forall|j: int| 0 <= j < nn - 1 implies #[trigger] r.table_order_ok(j) by {
        assert(pre.sealed_order_ok(j));
    }
    assert(r.wf());
    assert(r.entries() == pre.sealed_entries());
    crate::table::lemma_table_span(r);
}

} // verus!
