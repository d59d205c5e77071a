//! Sorted-string tables: a run of encoded blocks, per-block metadata, and
//! a footer that locates the metadata.
//!
//! File layout: `[block]* [meta_section] [meta_offset: u32]`. The metadata
//! section is `count: u32` followed, per block, by
//! `offset: u32, first_key_len: u16, first_key, last_key_len: u16, last_key`.

use crate::block::block_seqs_wf;
use crate::block::entries_of;
use crate::block::key_at;
use crate::block::lemma_block_encoding_unique;
use crate::block::spec_encode_block;
use crate::block::valid_block_bytes;
use crate::block::Block;
use crate::keys::lemma_lex_le_lt_trans;
use crate::keys::lemma_lex_le_trans;
use crate::keys::lemma_lex_lt_le_trans;
use crate::keys::lex_le;
use crate::keys::lex_lt;
use crate::wire::be16;
use crate::wire::be32;
use crate::wire::copy_range;
use crate::wire::lemma_be16_val;
use crate::wire::lemma_be32_val;
use crate::wire::read_u16;
use crate::wire::read_u32;
use crate::wire::u16_val;
use crate::wire::u32_val;
use vstd::prelude::*;

verus! {

/// Per-block metadata: where the block starts in the data region, and the
/// first and last key it holds.
pub struct BlockMeta {
    /// Byte offset of the block within the table's data region.
    pub offset: usize,
    /// First key of the block.
    pub first_key: Vec<u8>,
    /// Last key of the block.
    pub last_key: Vec<u8>,
}

/// The key-value sequences of decoded blocks `0 .. i` concatenated.
pub open spec fn blocks_entries_upto(bs: Seq<(Seq<u8>, Seq<u16>)>, i: int) -> Seq<
    (Seq<u8>, Seq<u8>),
>
    decreases i,
{
    if i <= 0 {
        Seq::empty()
    } else {
        blocks_entries_upto(bs, i - 1) + entries_of(bs[i - 1].0, bs[i - 1].1)
    }
}

/// Block sequences that agree up to `i` concatenate to the same entries.
pub proof fn lemma_blocks_upto_congruent(bs1: Seq<(Seq<u8>, Seq<u16>)>, bs2: Seq<(Seq<u8>, Seq<u16>)>, i: int)
    requires
        forall|j: int| 0 <= j < i ==> bs1[j] == bs2[j],
    ensures
        blocks_entries_upto(bs1, i) == blocks_entries_upto(bs2, i),
    decreases i,
{
    if i > 0 {
        lemma_blocks_upto_congruent(bs1, bs2, i - 1);
    }
}

/// The fields of one metadata record, as mathematical values.
pub open spec fn meta_view(m: BlockMeta) -> (int, Seq<u8>, Seq<u8>) {
    (m.offset as int, m.first_key@, m.last_key@)
}

/// The records of a metadata sequence, as mathematical values.
pub open spec fn meta_views(ms: Seq<BlockMeta>) -> Seq<(int, Seq<u8>, Seq<u8>)> {
    ms.map_values(|m: BlockMeta| meta_view(m))
}

/// Field bounds that let a record be serialized.
pub open spec fn metas_wf(ms: Seq<BlockMeta>) -> bool {
    &&& ms.len() <= 0xffffffff
    &&& forall|i: int|
        0 <= i < ms.len() ==> {
            &&& 1 <= (#[trigger] ms[i]).first_key@.len() <= 0xffff
            &&& 1 <= ms[i].last_key@.len() <= 0xffff
            &&& ms[i].offset <= 0xffffffff
        }
}

/// The serialized form of one metadata record.
pub open spec fn meta_entry_enc(m: BlockMeta) -> Seq<u8> {
    be32(m.offset as int) + be16(m.first_key@.len() as int) + m.first_key@ + be16(
        m.last_key@.len() as int,
    ) + m.last_key@
}

/// The serialized records, in order.
pub open spec fn metas_enc(ms: Seq<BlockMeta>) -> Seq<u8>
    decreases ms.len(),
{
    if ms.len() == 0 {
        Seq::empty()
    } else {
        metas_enc(ms.drop_last()) + meta_entry_enc(ms.last())
    }
}

/// The serialized records from index `i` on.
pub open spec fn metas_enc_from(ms: Seq<BlockMeta>, i: int) -> Seq<u8>
    decreases ms.len() - i,
{
    if i < 0 || i >= ms.len() {
        Seq::empty()
    } else {
        meta_entry_enc(ms[i]) + metas_enc_from(ms, i + 1)
    }
}

/// The whole metadata section: record count, then the records.
pub open spec fn meta_section_enc(ms: Seq<BlockMeta>) -> Seq<u8> {
    be32(ms.len() as int) + metas_enc(ms)
}

/// The serialized records split as an encoded prefix plus an encoded tail.
pub proof fn lemma_metas_enc_split(ms: Seq<BlockMeta>, i: int)
    requires
        0 <= i <= ms.len(),
    ensures
        metas_enc(ms) == metas_enc(ms.take(i)) + metas_enc_from(ms, i),
    decreases ms.len() - i,
{
    if i == ms.len() {
        assert(ms.take(i) =~= ms);
        assert(metas_enc(ms.take(i)) + metas_enc_from(ms, i) =~= metas_enc(ms));
    } else {
        lemma_metas_enc_split(ms, i + 1);
        let t1 = ms.take(i + 1);
        assert(t1.drop_last() =~= ms.take(i));
        assert(t1.last() == ms[i]);
        assert(metas_enc(ms.take(i)) + metas_enc_from(ms, i) =~= metas_enc(ms.take(i + 1))
            + metas_enc_from(ms, i + 1));
    }
}

/// Reading the fields of the first serialized record recovers them.
pub proof fn lemma_meta_entry_fields(m: BlockMeta, rest: Seq<u8>)
    requires
        1 <= m.first_key@.len() <= 0xffff,
        1 <= m.last_key@.len() <= 0xffff,
        m.offset <= 0xffffffff,
    ensures
        ({
            let b = meta_entry_enc(m) + rest;
            let kl = m.first_key@.len() as int;
            let ll = m.last_key@.len() as int;
            &&& meta_entry_enc(m).len() == 8 + kl + ll
            &&& b.len() >= 8 + kl + ll
            &&& u32_val(b[0], b[1], b[2], b[3]) == m.offset
            &&& u16_val(b[4], b[5]) == kl
            &&& b.subrange(6, 6 + kl) == m.first_key@
            &&& u16_val(b[6 + kl], b[7 + kl]) == ll
            &&& b.subrange(8 + kl, 8 + kl + ll) == m.last_key@
            &&& b.skip(8 + kl + ll) == rest
        }),
{
    let b = meta_entry_enc(m) + rest;
    let kl = m.first_key@.len() as int;
    let ll = m.last_key@.len() as int;
    lemma_be32_val(m.offset as int);
    lemma_be16_val(kl);
    lemma_be16_val(ll);
    assert(b[0] == be32(m.offset as int)[0]);
    assert(b[1] == be32(m.offset as int)[1]);
    assert(b[2] == be32(m.offset as int)[2]);
    assert(b[3] == be32(m.offset as int)[3]);
    assert(b[4] == be16(kl)[0]);
    assert(b[5] == be16(kl)[1]);
    assert(b.subrange(6, 6 + kl) =~= m.first_key@);
    assert(b[6 + kl] == be16(ll)[0]);
    assert(b[7 + kl] == be16(ll)[1]);
    assert(b.subrange(8 + kl, 8 + kl + ll) =~= m.last_key@);
    assert(b.skip(8 + kl + ll) =~= rest);
}

/// The record serialization is injective from index `i` on.
pub proof fn lemma_metas_from_unique(ms1: Seq<BlockMeta>, ms2: Seq<BlockMeta>, i: int)
    requires
        metas_wf(ms1),
        metas_wf(ms2),
        ms1.len() == ms2.len(),
        0 <= i <= ms1.len(),
        metas_enc_from(ms1, i) == metas_enc_from(ms2, i),
    ensures
        forall|j: int| i <= j < ms1.len() ==> meta_view(#[trigger] ms1[j]) == meta_view(ms2[j]),
    decreases ms1.len() - i,
{
    if i < ms1.len() {
        let b = metas_enc_from(ms1, i);
        lemma_meta_entry_fields(ms1[i], metas_enc_from(ms1, i + 1));
        lemma_meta_entry_fields(ms2[i], metas_enc_from(ms2, i + 1));
        assert(u16_val(b[4], b[5]) == ms1[i].first_key@.len());
        assert(u16_val(b[4], b[5]) == ms2[i].first_key@.len());
        let kl = ms1[i].first_key@.len() as int;
        assert(u16_val(b[6 + kl], b[7 + kl]) == ms1[i].last_key@.len());
        assert(u16_val(b[6 + kl], b[7 + kl]) == ms2[i].last_key@.len());
        let ll = ms1[i].last_key@.len() as int;
        assert(meta_view(ms1[i]) == meta_view(ms2[i]));
        assert(b.skip(8 + kl + ll) == metas_enc_from(ms1, i + 1));
        assert(b.skip(8 + kl + ll) == metas_enc_from(ms2, i + 1));
        lemma_metas_from_unique(ms1, ms2, i + 1);
    }
}

/// An immutable sorted-string table: the encoded file, the decoded
/// per-block metadata, and the table-wide key range. The `blocks` ghost
/// field witnesses, block by block, the content the file encodes.
pub struct SsTable {
    /// Numeric identity of the table.
    pub id: usize,
    /// The full encoded file.
    pub file: Vec<u8>,
    /// Per-block metadata, in block order.
    pub block_meta: Vec<BlockMeta>,
    /// Where the metadata section starts in the file.
    pub block_meta_offset: usize,
    /// First key of the whole table.
    pub first_key: Vec<u8>,
    /// Last key of the whole table.
    pub last_key: Vec<u8>,
    /// Largest timestamp carried by any entry; opaque to this core.
    pub max_ts: u64,
    /// The decoded content of each block.
    pub blocks: Ghost<Seq<(Seq<u8>, Seq<u16>)>>,
}

impl SsTable {
    /// Number of blocks.
    pub open spec fn num_blocks(self) -> int {
        self.block_meta@.len() as int
    }

    /// One past the last byte of block `i` within the data region.
    pub open spec fn region_end(self, i: int) -> int {
        if i + 1 < self.num_blocks() {
            self.block_meta@[i + 1].offset as int
        } else {
            self.block_meta_offset as int
        }
    }

    /// The file bytes of block `i`.
    pub open spec fn region(self, i: int) -> Seq<u8> {
        self.file@.subrange(self.block_meta@[i].offset as int, self.region_end(i))
    }

    /// The key-value sequence of block `i`.
    pub open spec fn block_entries(self, i: int) -> Seq<(Seq<u8>, Seq<u8>)> {
        entries_of(self.blocks@[i].0, self.blocks@[i].1)
    }

    /// The key-value sequence of blocks `0 .. i` concatenated.
    pub open spec fn entries_upto(self, i: int) -> Seq<(Seq<u8>, Seq<u8>)> {
        blocks_entries_upto(self.blocks@, i)
    }

    /// The key-value sequence of the whole table.
    pub open spec fn entries(self) -> Seq<(Seq<u8>, Seq<u8>)> {
        self.entries_upto(self.num_blocks())
    }

    /// Block `i` is encoded at its recorded place, is sorted, and its
    /// metadata records its first and last key.
    pub open spec fn table_block_wf(self, i: int) -> bool {
        &&& self.block_meta@[i].offset as int <= self.region_end(i)
            <= self.block_meta_offset as int
        &&& self.region(i) == spec_encode_block(self.blocks@[i].0, self.blocks@[i].1)
        &&& block_seqs_wf(self.blocks@[i].0, self.blocks@[i].1)
        &&& self.block_meta@[i].first_key@ == self.block_entries(i)[0].0
        &&& self.block_meta@[i].last_key@ == self.block_entries(i).last().0
    }

    /// Every key of block `i` precedes every key of block `i + 1`.
    pub open spec fn table_order_ok(self, i: int) -> bool {
        lex_lt(self.block_meta@[i].last_key@, self.block_meta@[i + 1].first_key@)
    }

    /// Well-formed: the file is the data region, the metadata section and
    /// the footer; each region encodes the witnessed sorted block; the
    /// metadata mirrors each block's key range; and block ranges are
    /// disjoint and increasing.
    pub open spec fn wf(self) -> bool {
        let n = self.num_blocks();
        let ms = self.block_meta@;
        let bmo = self.block_meta_offset as int;
        &&& n >= 1
        &&& self.blocks@.len() == n
        &&& metas_wf(ms)
        &&& ms[0].offset == 0
        &&& bmo <= 0xffffffff
        &&& self.file@.len() == bmo + meta_section_enc(ms).len() + 4
        &&& self.file@.subrange(bmo, self.file@.len() - 4) == meta_section_enc(ms)
        &&& self.file@.subrange(self.file@.len() - 4, self.file@.len() as int) == be32(bmo)
        &&& forall|i: int| 0 <= i < n ==> #[trigger] self.table_block_wf(i)
        &&& forall|i: int| 0 <= i < n - 1 ==> #[trigger] self.table_order_ok(i)
        &&& self.first_key@ == ms[0].first_key@
        &&& self.last_key@ == ms[n - 1].last_key@
    }

    /// Opens a persisted table: reads the footer to locate the metadata
    /// section, then decodes every metadata record. The bytes must be a
    /// table file as written by `SsTableBuilder::build`.
    #[verifier::rlimit(60)]
    pub fn open(id: usize, file: Vec<u8>) -> (r: SsTable)
        requires
            valid_table_bytes(file@),
        ensures
            r.wf(),
            r.id == id,
            r.max_ts == 0,
            r.file@ == file@,
    {
        let ghost t0 = choose|t: SsTable| #[trigger] t.wf() && t.file@ == file@;
        let ghost ms0 = t0.block_meta@;
        let total = file.len();
        proof {
            lemma_be32_val(t0.block_meta_offset as int);
            assert(total == t0.block_meta_offset + meta_section_enc(ms0).len() + 4);
            assert(file@[total - 4] == file@.subrange(total - 4, total as int)[0]);
            assert(file@[total - 3] == file@.subrange(total - 4, total as int)[1]);
            assert(file@[total - 2] == file@.subrange(total - 4, total as int)[2]);
            assert(file@[total - 1] == file@.subrange(total - 4, total as int)[3]);
        }
        let bmo = read_u32(file.as_slice(), total - 4) as usize;
        proof {
            assert(bmo == t0.block_meta_offset);
            lemma_be32_val(ms0.len() as int);
            let sec = file@.subrange(bmo as int, total - 4);
            assert(sec[0] == be32(ms0.len() as int)[0]);
            assert(sec[1] == be32(ms0.len() as int)[1]);
            assert(sec[2] == be32(ms0.len() as int)[2]);
            assert(sec[3] == be32(ms0.len() as int)[3]);
            assert(file@[bmo as int] == sec[0]);
            assert(file@[bmo + 1] == sec[1]);
            assert(file@[bmo + 2] == sec[2]);
            assert(file@[bmo + 3] == sec[3]);
        }
        let count = read_u32(file.as_slice(), bmo) as usize;
        proof {
            assert(count == ms0.len());
            lemma_metas_enc_split(ms0, 0);
            assert(ms0.take(0) =~= Seq::<BlockMeta>::empty());
            assert(metas_enc(ms0.take(0)) =~= Seq::<u8>::empty());
            let sec = file@.subrange(bmo as int, total - 4);
            assert(sec.skip(4) =~= metas_enc(ms0));
            assert(file@.subrange(bmo + 4, total - 4) =~= metas_enc_from(ms0, 0));
        }
        let mut metas: Vec<BlockMeta> = Vec::new();
        let mut pos: usize = bmo + 4;
        let mut i: usize = 0;
        while i < count
            invariant
                i <= count == ms0.len(),
                metas_wf(ms0),
                total == file@.len(),
                metas@.len() == i,
                forall|j: int| 0 <= j < i ==> meta_view(#[trigger] metas@[j]) == meta_view(ms0[j]),
                pos + metas_enc_from(ms0, i as int).len() == total - 4,
                file@.subrange(pos as int, total - 4) == metas_enc_from(ms0, i as int),
            decreases count - i,
        {
            let ghost fr = metas_enc_from(ms0, i as int);
            let ghost rest = metas_enc_from(ms0, i as int + 1);
            proof {
                lemma_meta_entry_fields(ms0[i as int], rest);
                assert(fr == meta_entry_enc(ms0[i as int]) + rest);
                assert(file@[pos as int] == fr[0]);
                assert(file@[pos + 1] == fr[1]);
                assert(file@[pos + 2] == fr[2]);
                assert(file@[pos + 3] == fr[3]);
                assert(file@[pos + 4] == fr[4]);
                assert(file@[pos + 5] == fr[5]);
            }
            let off = read_u32(file.as_slice(), pos) as usize;
            let kl = read_u16(file.as_slice(), pos + 4) as usize;
            proof {
                assert(off == ms0[i as int].offset);
                assert(kl == ms0[i as int].first_key@.len());
                assert(file@[pos + 6 + kl] == fr[6 + kl]);
                assert(file@[pos + 7 + kl] == fr[7 + kl]);
            }
            let fk = copy_range(file.as_slice(), pos + 6, pos + 6 + kl);
            let ll = read_u16(file.as_slice(), pos + 6 + kl) as usize;
            proof {
                assert(ll == ms0[i as int].last_key@.len());
                assert(fk@ =~= fr.subrange(6, 6 + kl as int));
                assert(fk@ == ms0[i as int].first_key@);
            }
            let lk = copy_range(file.as_slice(), pos + 8 + kl, pos + 8 + kl + ll);
            proof {
                assert(lk@ =~= fr.subrange(8 + kl as int, 8 + kl + ll as int));
                assert(lk@ == ms0[i as int].last_key@);
            }
            metas.push(BlockMeta { offset: off, first_key: fk, last_key: lk });
            pos = pos + 8 + kl + ll;
            proof {
                assert(fr.skip(8 + kl + ll as int) == rest);
                assert(file@.subrange(pos as int, total - 4) =~= fr.skip(8 + kl + ll as int));
                assert(meta_view(metas@[i as int]) == meta_view(ms0[i as int]));
            }
            i = i + 1;
        }
        proof {
            assert(ms0.len() >= 1);
        }
        let fk = copy_range(metas[0].first_key.as_slice(), 0, metas[0].first_key.len());
        let lk = copy_range(
            metas[count - 1].last_key.as_slice(),
            0,
            metas[count - 1].last_key.len(),
        );
        let r = SsTable {
            id,
            file,
            block_meta: metas,
            block_meta_offset: bmo,
            first_key: fk,
            last_key: lk,
            max_ts: 0,
            blocks: Ghost(t0.blocks@),
        };
        proof {
            let ms = r.block_meta@;
            let n = r.num_blocks();
            assert(fk@ =~= ms0[0].first_key@);
            assert(lk@ =~= ms0[n - 1].last_key@);
            assert forall|j: int| 0 <= j < n implies meta_view(#[trigger] ms[j]) == meta_view(
                ms0[j],
            ) by {}
            assert(metas_wf(ms));
            assert forall|j: int| 0 <= j < n implies #[trigger] r.table_block_wf(j) by {
                assert(t0.table_block_wf(j));
                assert(meta_view(ms[j]) == meta_view(ms0[j]));
                if j + 1 < n {
                    assert(meta_view(ms[j + 1]) == meta_view(ms0[j + 1]));
                }
                assert(r.region_end(j) == t0.region_end(j));
                assert(r.region(j) =~= t0.region(j));
            }
            assert forall|j: int| 0 <= j < n - 1 implies #[trigger] r.table_order_ok(j) by {
                assert(t0.table_order_ok(j));
                assert(meta_view(ms[j]) == meta_view(ms0[j]));
                assert(meta_view(ms[j + 1]) == meta_view(ms0[j + 1]));
            }
            assert(meta_section_enc(ms) =~= meta_section_enc(ms0)) by {
                assert(ms.len() == ms0.len());
                lemma_metas_enc_congruent(ms, ms0);
            }
            assert(r.wf());
        }
        r
    }

    /// Reads block `i` back from the file: decodes its region afresh.
    pub fn read_block(&self, idx: usize) -> (r: Block)
        requires
            self.wf(),
            idx < self.num_blocks(),
        ensures
            r.wf(),
            r.data@ == self.blocks@[idx as int].0,
            r.offsets@ == self.blocks@[idx as int].1,
            r.entries() == self.block_entries(idx as int),
    {
        proof {
            assert(self.table_block_wf(idx as int));
            if idx + 1 < self.num_blocks() {
                assert(self.table_block_wf(idx as int + 1));
            }
        }
        let off = self.block_meta[idx].offset;
        let end = if idx + 1 < self.block_meta.len() {
            self.block_meta[idx + 1].offset
        } else {
            self.block_meta_offset
        };
        let region = copy_range(self.file.as_slice(), off, end);
        proof {
            assert(region@ == self.region(idx as int));
            assert(block_seqs_wf(self.blocks@[idx as int].0, self.blocks@[idx as int].1)
                && region@ == spec_encode_block(
                self.blocks@[idx as int].0,
                self.blocks@[idx as int].1,
            ));
            assert(valid_block_bytes(region@));
        }
        let block = Block::decode(region.as_slice());
        block
    }
}

/// Every block holds at least one entry, so each block lengthens the
/// concatenated sequence.
pub proof fn lemma_entries_upto_len(t: SsTable, i: int)
    requires
        t.wf(),
        0 <= i <= t.num_blocks(),
    ensures
        t.entries_upto(i).len() >= i,
    decreases i,
{
    if i > 0 {
        lemma_entries_upto_len(t, i - 1);
        assert(t.table_block_wf(i - 1));
        assert(t.block_entries(i - 1).len() >= 1);
    }
}

/// Entry `j` of block `b` sits at position `entries_upto(b).len() + j` of
/// any longer concatenated prefix.
pub proof fn lemma_entries_upto_index(t: SsTable, i: int, b: int, j: int)
    requires
        t.wf(),
        0 <= b < i <= t.num_blocks(),
        0 <= j < t.block_entries(b).len(),
    ensures
        t.entries_upto(b).len() + j < t.entries_upto(i).len(),
        t.entries_upto(i)[t.entries_upto(b).len() + j] == t.block_entries(b)[j],
    decreases i,
{
    if b + 1 == i {
        assert(t.entries_upto(i) == t.entries_upto(b) + t.block_entries(b));
    } else {
        lemma_entries_upto_index(t, i - 1, b, j);
    }
}

/// Every key of block `b` lies between the block's recorded first and
/// last key.
pub proof fn lemma_block_key_range(t: SsTable, b: int, j: int)
    requires
        t.wf(),
        0 <= b < t.num_blocks(),
        0 <= j < t.block_entries(b).len(),
    ensures
        lex_le(t.block_meta@[b].first_key@, t.block_entries(b)[j].0),
        lex_le(t.block_entries(b)[j].0, t.block_meta@[b].last_key@),
{
    assert(t.table_block_wf(b));
    let d = t.blocks@[b].0;
    let o = t.blocks@[b].1;
    let n = o.len() as int;
    assert(t.block_entries(b)[j].0 == key_at(d, o, j));
    assert(t.block_entries(b)[0].0 == key_at(d, o, 0));
    assert(t.block_entries(b).last().0 == key_at(d, o, n - 1));
    if j > 0 {
        assert(lex_lt(key_at(d, o, 0), key_at(d, o, j)));
    }
    if j < n - 1 {
        assert(lex_lt(key_at(d, o, j), key_at(d, o, n - 1)));
    }
}

/// Two well-formed tables backed by the same file agree on the footer
/// and on every metadata record.
#[verifier::spinoff_prover]
#[verifier::rlimit(100)]
proof fn lemma_same_file_same_meta(t1: SsTable, t2: SsTable)
    requires
        t1.wf(),
        t2.wf(),
        t1.file@ == t2.file@,
    ensures
        meta_views(t1.block_meta@) == meta_views(t2.block_meta@),
        t1.block_meta@.len() == t2.block_meta@.len(),
        t1.block_meta_offset == t2.block_meta_offset,
{
    let b = t1.file@;
    let bmo1 = t1.block_meta_offset as int;
    let bmo2 = t2.block_meta_offset as int;
    lemma_be32_val(bmo1);
    lemma_be32_val(bmo2);
    assert(b.subrange(b.len() - 4, b.len() as int)[0] == be32(bmo1)[0]);
    assert(b.subrange(b.len() - 4, b.len() as int)[1] == be32(bmo1)[1]);
    assert(b.subrange(b.len() - 4, b.len() as int)[2] == be32(bmo1)[2]);
    assert(b.subrange(b.len() - 4, b.len() as int)[3] == be32(bmo1)[3]);
    assert(bmo1 == bmo2);
    let ms1 = t1.block_meta@;
    let ms2 = t2.block_meta@;
    let sec = b.subrange(bmo1, b.len() - 4);
    assert(sec == meta_section_enc(ms1));
    assert(sec == meta_section_enc(ms2));
    lemma_be32_val(ms1.len() as int);
    lemma_be32_val(ms2.len() as int);
    assert(sec[0] == be32(ms1.len() as int)[0]);
    assert(sec[1] == be32(ms1.len() as int)[1]);
    assert(sec[2] == be32(ms1.len() as int)[2]);
    assert(sec[3] == be32(ms1.len() as int)[3]);
    assert(sec[0] == be32(ms2.len() as int)[0]);
    assert(sec[1] == be32(ms2.len() as int)[1]);
    assert(sec[2] == be32(ms2.len() as int)[2]);
    assert(sec[3] == be32(ms2.len() as int)[3]);
    assert(ms1.len() == ms2.len());
    assert(metas_enc(ms1) =~= sec.skip(4));
    assert(metas_enc(ms2) =~= sec.skip(4));
    lemma_metas_enc_split(ms1, 0);
    lemma_metas_enc_split(ms2, 0);
    assert(ms1.take(0) =~= Seq::<BlockMeta>::empty());
    assert(ms2.take(0) =~= Seq::<BlockMeta>::empty());
    assert(metas_enc_from(ms1, 0) =~= metas_enc(ms1));
    assert(metas_enc_from(ms2, 0) =~= metas_enc(ms2));
    lemma_metas_from_unique(ms1, ms2, 0);
    assert(meta_views(ms1) =~= meta_views(ms2));
}

/// Law: a table's file bytes determine its metadata and its entries. Two
/// well-formed tables backed by the same file hold the same entry
/// sequence, so writing a table out and re-opening it loses nothing.
pub proof fn lemma_table_bytes_determine(t1: SsTable, t2: SsTable)
    requires
        t1.wf(),
        t2.wf(),
        t1.file@ == t2.file@,
    ensures
        meta_views(t1.block_meta@) == meta_views(t2.block_meta@),
        t1.block_meta_offset == t2.block_meta_offset,
        t1.entries() == t2.entries(),
{
    lemma_same_file_same_meta(t1, t2);
    let ms1 = t1.block_meta@;
    let ms2 = t2.block_meta@;
    let n = t1.num_blocks();
    assert forall|i: int| 0 <= i < n implies t1.blocks@[i] == t2.blocks@[i] by {
        assert(t1.table_block_wf(i));
        assert(t2.table_block_wf(i));
        assert(meta_views(ms1)[i] == meta_views(ms2)[i]);
        assert(meta_view(ms1[i]) == meta_view(ms2[i]));
        if i + 1 < n {
            assert(meta_views(ms1)[i + 1] == meta_views(ms2)[i + 1]);
            assert(meta_view(ms1[i + 1]) == meta_view(ms2[i + 1]));
        }
        assert(t1.region_end(i) == t2.region_end(i));
        assert(t1.region(i) == t2.region(i));
        lemma_block_encoding_unique(
            t1.blocks@[i].0,
            t1.blocks@[i].1,
            t2.blocks@[i].0,
            t2.blocks@[i].1,
        );
        assert(t1.blocks@[i] =~= t2.blocks@[i]);
    }
    lemma_blocks_upto_congruent(t1.blocks@, t2.blocks@, n);
}

/// Metadata sequences with the same record values serialize identically.
proof fn lemma_metas_enc_congruent(ms1: Seq<BlockMeta>, ms2: Seq<BlockMeta>)
    requires
        ms1.len() == ms2.len(),
        forall|j: int| 0 <= j < ms1.len() ==> meta_view(#[trigger] ms1[j]) == meta_view(ms2[j]),
    ensures
        metas_enc(ms1) == metas_enc(ms2),
    decreases ms1.len(),
{
    if ms1.len() > 0 {
        assert forall|j: int| 0 <= j < ms1.drop_last().len() implies meta_view(
            #[trigger] ms1.drop_last()[j],
        ) == meta_view(ms2.drop_last()[j]) by {
            assert(ms1.drop_last()[j] == ms1[j]);
            assert(ms2.drop_last()[j] == ms2[j]);
        }
        lemma_metas_enc_congruent(ms1.drop_last(), ms2.drop_last());
        assert(meta_view(ms1.last()) == meta_view(ms2.last()));
        assert(meta_entry_enc(ms1.last()) == meta_entry_enc(ms2.last()));
    }
}

/// A well-formed table is non-empty and its recorded first and last key
/// are the keys of its first and last entry.
pub proof fn lemma_table_span(t: SsTable)
    requires
        t.wf(),
    ensures
        t.entries().len() >= 1,
        t.first_key@ == t.entries()[0].0,
        t.last_key@ == t.entries().last().0,
{
    let nn = t.num_blocks();
    assert(t.entries_upto(1) == t.entries_upto(0) + t.block_entries(0));
    assert(t.entries_upto(0) =~= Seq::<(Seq<u8>, Seq<u8>)>::empty());
    assert(t.table_block_wf(0));
    assert(t.block_entries(0).len() >= 1);
    lemma_entries_upto_index(t, nn, 0, 0);
    assert(t.first_key@ == t.entries()[0].0);
    assert(t.entries() == t.entries_upto(nn - 1) + t.block_entries(nn - 1));
    assert(t.table_block_wf(nn - 1));
    assert(t.block_entries(nn - 1).len() >= 1);
    assert(t.last_key@ == t.entries().last().0);
}

/// Concatenated prefixes only grow.
pub proof fn lemma_entries_upto_mono(t: SsTable, i: int, j: int)
    requires
        t.wf(),
        0 <= i <= j <= t.num_blocks(),
    ensures
        t.entries_upto(i).len() <= t.entries_upto(j).len(),
    decreases j,
{
    if i < j {
        lemma_entries_upto_mono(t, i, j - 1);
    }
}

/// The last key of any block is at or before the table's last key.
pub proof fn lemma_meta_last_le(t: SsTable, b: int)
    requires
        t.wf(),
        0 <= b < t.num_blocks(),
    ensures
        lex_le(t.block_meta@[b].last_key@, t.last_key@),
    decreases t.num_blocks() - b,
{
    let n = t.num_blocks();
    if b == n - 1 {
        assert(t.block_meta@[b].last_key@ == t.last_key@);
    } else {
        assert(t.table_order_ok(b));
        assert(t.table_block_wf(b + 1));
        lemma_block_key_range(t, b + 1, t.block_entries(b + 1).len() - 1);
        assert(lex_le(t.block_meta@[b + 1].first_key@, t.block_meta@[b + 1].last_key@)) by {
            lemma_block_key_range(t, b + 1, 0);
        }
        lemma_meta_last_le(t, b + 1);
        lemma_lex_lt_le_trans(
            t.block_meta@[b].last_key@,
            t.block_meta@[b + 1].first_key@,
            t.block_meta@[b + 1].last_key@,
        );
        lemma_lex_lt_le_trans(
            t.block_meta@[b].last_key@,
            t.block_meta@[b + 1].last_key@,
            t.last_key@,
        );
    }
}

/// First keys of blocks do not decrease with the block index.
pub proof fn lemma_meta_first_le(t: SsTable, c: int, b: int)
    requires
        t.wf(),
        0 <= c <= b < t.num_blocks(),
    ensures
        lex_le(t.block_meta@[c].first_key@, t.block_meta@[b].first_key@),
    decreases b - c,
{
    if c < b {
        assert(t.table_block_wf(c));
        lemma_block_key_range(t, c, t.block_entries(c).len() - 1);
        assert(lex_le(t.block_meta@[c].first_key@, t.block_meta@[c].last_key@));
        assert(t.table_order_ok(c));
        lemma_meta_first_le(t, c + 1, b);
        crate::keys::lemma_lex_le_lt_trans(
            t.block_meta@[c].first_key@,
            t.block_meta@[c].last_key@,
            t.block_meta@[c + 1].first_key@,
        );
        crate::keys::lemma_lex_le_trans(
            t.block_meta@[c].first_key@,
            t.block_meta@[c + 1].first_key@,
            t.block_meta@[b].first_key@,
        );
    }
}

/// Any position short of a concatenated prefix falls inside one of its
/// blocks: returns that block and the index within it.
pub proof fn lemma_entries_decompose(t: SsTable, b: int, g: int) -> (r: (int, int))
    requires
        t.wf(),
        0 <= b <= t.num_blocks(),
        0 <= g < t.entries_upto(b).len(),
    ensures
        ({
            let (c, j) = r;
            &&& 0 <= c < b
            &&& 0 <= j < t.block_entries(c).len()
            &&& g == t.entries_upto(c).len() + j
        }),
    decreases b,
{
    if b > 0 && g >= t.entries_upto(b - 1).len() {
        (b - 1, g - t.entries_upto(b - 1).len())
    } else {
        lemma_entries_decompose(t, b - 1, g)
    }
}

/// Every entry's key lies within the table's recorded key range.
pub proof fn lemma_table_entry_range(t: SsTable, g: int)
    requires
        t.wf(),
        0 <= g < t.entries().len(),
    ensures
        lex_le(t.first_key@, t.entries()[g].0),
        lex_le(t.entries()[g].0, t.last_key@),
{
    let n = t.num_blocks();
    let (c, j) = lemma_entries_decompose(t, n, g);
    lemma_entries_upto_index(t, n, c, j);
    assert(t.table_block_wf(c));
    lemma_block_key_range(t, c, j);
    lemma_meta_last_le(t, c);
    lemma_lex_le_trans(t.entries()[g].0, t.block_meta@[c].last_key@, t.last_key@);
    lemma_meta_first_le(t, 0, c);
    lemma_lex_le_trans(t.first_key@, t.block_meta@[c].first_key@, t.entries()[g].0);
}

/// Some well-formed table is backed by exactly these file bytes.
pub open spec fn valid_table_bytes(b: Seq<u8>) -> bool {
    exists|t: SsTable| #[trigger] t.wf() && t.file@ == b
}

} // verus!
