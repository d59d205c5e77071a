//! The block: smallest unit of storage, a run of sorted key-value entries
//! plus an offset index, with its wire encoding.
//!
//! Wire layout: `[entry]* [offset: u16]* [num_offsets: u16]`, where each
//! entry is `key_len: u16, key, value_len: u16, value`. The offset index
//! sits at a fixed distance from the end, so a block decodes in one pass
//! without a front length prefix.

use crate::keys::lex_lt;
use crate::wire::be16;
use crate::wire::copy_range;
use crate::wire::lemma_be16_val;
use crate::wire::put_u16;
use crate::wire::read_u16;
use crate::wire::u16_val;
use vstd::prelude::*;

verus! {

/// Width in bytes of the 16-bit fields of the block format.
pub const SIZEOF_U16: usize = 2;

/// Length of the key of the entry starting at `off` in `d`.
pub open spec fn entry_key_len(d: Seq<u8>, off: int) -> int {
    u16_val(d[off], d[off + 1])
}

/// Key of the entry starting at `off` in `d`.
pub open spec fn entry_key(d: Seq<u8>, off: int) -> Seq<u8> {
    d.subrange(off + 2, off + 2 + entry_key_len(d, off))
}

/// Length of the value of the entry starting at `off` in `d`.
pub open spec fn entry_val_len(d: Seq<u8>, off: int) -> int {
    let kl = entry_key_len(d, off);
    u16_val(d[off + 2 + kl], d[off + 3 + kl])
}

/// Value of the entry starting at `off` in `d`.
pub open spec fn entry_val(d: Seq<u8>, off: int) -> Seq<u8> {
    let kl = entry_key_len(d, off);
    let vl = entry_val_len(d, off);
    d.subrange(off + 4 + kl, off + 4 + kl + vl)
}

/// One past the last byte of the entry starting at `off` in `d`.
pub open spec fn entry_end(d: Seq<u8>, off: int) -> int {
    off + 4 + entry_key_len(d, off) + entry_val_len(d, off)
}

/// The entry recorded at index `i` of the offset table is in bounds,
/// non-empty-keyed, and packed tight against its successor.
pub open spec fn entry_wf_at(d: Seq<u8>, o: Seq<u16>, i: int) -> bool {
    let off = o[i] as int;
    &&& off + 4 <= d.len()
    &&& entry_end(d, off) <= d.len()
    &&& entry_end(d, off) == if i + 1 < o.len() {
        o[i + 1] as int
    } else {
        d.len() as int
    }
    &&& 1 <= entry_key_len(d, off)
}

/// Structural well-formedness of a block body `d` with offset table `o`.
pub open spec fn entries_wf(d: Seq<u8>, o: Seq<u16>) -> bool {
    &&& o.len() <= 0xffff
    &&& d.len() <= 0x20002
    &&& 5 * o.len() <= d.len()
    &&& (o.len() == 0 ==> d.len() == 0)
    &&& (o.len() > 0 ==> o[0] == 0)
    &&& forall|i: int| 0 <= i < o.len() ==> #[trigger] entry_wf_at(d, o, i)
}

/// Key of the entry at index `i` of the offset table.
pub open spec fn key_at(d: Seq<u8>, o: Seq<u16>, i: int) -> Seq<u8> {
    entry_key(d, o[i] as int)
}

/// Value of the entry at index `i` of the offset table.
pub open spec fn val_at(d: Seq<u8>, o: Seq<u16>, i: int) -> Seq<u8> {
    entry_val(d, o[i] as int)
}

/// Entries are in strictly increasing key order.
pub open spec fn entries_sorted(d: Seq<u8>, o: Seq<u16>) -> bool {
    forall|i: int, j: int|
        0 <= i < j < o.len() ==> lex_lt(#[trigger] key_at(d, o, i), #[trigger] key_at(d, o, j))
}

/// Well-formed block content: structurally sound and sorted.
pub open spec fn block_seqs_wf(d: Seq<u8>, o: Seq<u16>) -> bool {
    &&& entries_wf(d, o)
    &&& entries_sorted(d, o)
    &&& o.len() >= 1
}

/// The key-value sequence held by block content `(d, o)`.
pub open spec fn entries_of(d: Seq<u8>, o: Seq<u16>) -> Seq<(Seq<u8>, Seq<u8>)> {
    Seq::new(o.len(), |i: int| (key_at(d, o, i), val_at(d, o, i)))
}

/// The offset table rendered as consecutive 16-bit fields.
pub open spec fn offsets_bytes(o: Seq<u16>) -> Seq<u8>
    decreases o.len(),
{
    if o.len() == 0 {
        Seq::empty()
    } else {
        offsets_bytes(o.drop_last()) + be16(o.last() as int)
    }
}

/// The full wire encoding of block content `(d, o)`.
pub open spec fn spec_encode_block(d: Seq<u8>, o: Seq<u16>) -> Seq<u8> {
    d + offsets_bytes(o) + be16(o.len() as int)
}

/// Some well-formed block content encodes to exactly these bytes.
pub open spec fn valid_block_bytes(b: Seq<u8>) -> bool {
    exists|d: Seq<u8>, o: Seq<u16>| block_seqs_wf(d, o) && b == #[trigger] spec_encode_block(d, o)
}

pub proof fn lemma_offsets_bytes_len(o: Seq<u16>)
    ensures
        offsets_bytes(o).len() == 2 * o.len(),
    decreases o.len(),
{
    if o.len() > 0 {
        lemma_offsets_bytes_len(o.drop_last());
    }
}

pub proof fn lemma_offsets_bytes_index(o: Seq<u16>, i: int)
    requires
        0 <= i < o.len(),
    ensures
        offsets_bytes(o).len() == 2 * o.len(),
        offsets_bytes(o)[2 * i] == be16(o[i] as int)[0],
        offsets_bytes(o)[2 * i + 1] == be16(o[i] as int)[1],
    decreases o.len(),
{
    lemma_offsets_bytes_len(o);
    lemma_offsets_bytes_len(o.drop_last());
    if i == o.len() - 1 {
        assert(o.last() == o[i]);
    } else {
        lemma_offsets_bytes_index(o.drop_last(), i);
        assert(o.drop_last()[i] == o[i]);
    }
}

/// Appending bytes to the body does not disturb an entry that already
/// lies wholly inside it.
pub proof fn lemma_entry_parse_stable(d: Seq<u8>, s: Seq<u8>, off: int)
    requires
        0 <= off,
        off + 4 <= d.len(),
        entry_end(d, off) <= d.len(),
    ensures
        entry_key_len(d + s, off) == entry_key_len(d, off),
        entry_val_len(d + s, off) == entry_val_len(d, off),
        entry_end(d + s, off) == entry_end(d, off),
        entry_key(d + s, off) == entry_key(d, off),
        entry_val(d + s, off) == entry_val(d, off),
{
    let d2 = d + s;
    assert(d2[off] == d[off]);
    assert(d2[off + 1] == d[off + 1]);
    let kl = entry_key_len(d, off);
    assert(0 <= kl <= 0xffff);
    assert(d2[off + 2 + kl] == d[off + 2 + kl]);
    assert(d2[off + 3 + kl] == d[off + 3 + kl]);
    assert(entry_key(d2, off) =~= entry_key(d, off));
    assert(entry_val(d2, off) =~= entry_val(d, off));
}

/// Parsing the freshly appended entry at the old end of the body yields
/// back the key and value that were appended.
pub proof fn lemma_new_entry_parse(d: Seq<u8>, k: Seq<u8>, v: Seq<u8>)
    requires
        1 <= k.len() <= 0xffff,
        v.len() <= 0xffff,
    ensures
        ({
            let d2 = d + be16(k.len() as int) + k + be16(v.len() as int) + v;
            let off = d.len() as int;
            &&& d2.len() == d.len() + 4 + k.len() + v.len()
            &&& entry_key_len(d2, off) == k.len()
            &&& entry_val_len(d2, off) == v.len()
            &&& entry_key(d2, off) == k
            &&& entry_val(d2, off) == v
            &&& entry_end(d2, off) == d2.len()
        }),
{
    let d2 = d + be16(k.len() as int) + k + be16(v.len() as int) + v;
    let off = d.len() as int;
    lemma_be16_val(k.len() as int);
    lemma_be16_val(v.len() as int);
    assert(d2[off] == be16(k.len() as int)[0]);
    assert(d2[off + 1] == be16(k.len() as int)[1]);
    assert(entry_key_len(d2, off) == k.len());
    let kl = k.len() as int;
    assert(d2[off + 2 + kl] == be16(v.len() as int)[0]);
    assert(d2[off + 3 + kl] == be16(v.len() as int)[1]);
    assert(entry_val_len(d2, off) == v.len());
    assert(entry_key(d2, off) =~= k);
    assert(entry_val(d2, off) =~= v);
}

/// Law: the wire encoding is injective — two blocks with the same encoded
/// bytes hold the same body, the same offset table, and therefore the
/// same key-value sequence, so decoding an encoding can only recover
/// the block that was encoded.
pub proof fn lemma_block_encoding_unique(d1: Seq<u8>, o1: Seq<u16>, d2: Seq<u8>, o2: Seq<u16>)
    requires
        o1.len() <= 0xffff,
        o2.len() <= 0xffff,
        spec_encode_block(d1, o1) == spec_encode_block(d2, o2),
    ensures
        d1 == d2,
        o1 == o2,
        entries_of(d1, o1) == entries_of(d2, o2),
{
    let b = spec_encode_block(d1, o1);
    lemma_offsets_bytes_len(o1);
    lemma_offsets_bytes_len(o2);
    lemma_be16_val(o1.len() as int);
    lemma_be16_val(o2.len() as int);
    assert(b.len() == d1.len() + 2 * o1.len() + 2);
    assert(b.len() == d2.len() + 2 * o2.len() + 2);
    assert(b[b.len() - 2] == be16(o1.len() as int)[0]);
    assert(b[b.len() - 1] == be16(o1.len() as int)[1]);
    assert(b[b.len() - 2] == be16(o2.len() as int)[0]);
    assert(b[b.len() - 1] == be16(o2.len() as int)[1]);
    assert(o1.len() == o2.len());
    assert(d1.len() == d2.len());
    assert forall|i: int| 0 <= i < d1.len() implies d1[i] == d2[i] by {
        assert(b[i] == d1[i]);
        assert(b[i] == d2[i]);
    }
    assert(d1 =~= d2);
    assert forall|i: int| 0 <= i < o1.len() implies o1[i] == o2[i] by {
        lemma_offsets_bytes_index(o1, i);
        lemma_offsets_bytes_index(o2, i);
        assert(b[d1.len() + 2 * i] == be16(o1[i] as int)[0]);
        assert(b[d1.len() + 2 * i + 1] == be16(o1[i] as int)[1]);
        assert(b[d2.len() + 2 * i] == be16(o2[i] as int)[0]);
        assert(b[d2.len() + 2 * i + 1] == be16(o2[i] as int)[1]);
        lemma_be16_val(o1[i] as int);
        lemma_be16_val(o2[i] as int);
    }
    assert(o1 =~= o2);
}

/// A block: sorted key-value entries in `data`, located by `offsets`.
/// Built once by a builder, immutable thereafter; decoded fresh from
/// bytes whenever it is read back.
pub struct Block {
    pub data: Vec<u8>,
    pub offsets: Vec<u16>,
}

impl Block {
    /// Well-formed: structurally sound, sorted, and non-empty.
    pub open spec fn wf(self) -> bool {
        block_seqs_wf(self.data@, self.offsets@)
    }

    /// The key-value sequence this block holds.
    pub open spec fn entries(self) -> Seq<(Seq<u8>, Seq<u8>)> {
        entries_of(self.data@, self.offsets@)
    }

    /// Number of entries.
    pub open spec fn num_entries(self) -> int {
        self.offsets@.len() as int
    }

    /// Encodes the block: data, then the offset table, then the entry
    /// count, each index field as a 16-bit integer.
    pub fn encode(&self) -> (r: Vec<u8>)
        requires
            self.wf(),
        ensures
            r@ == spec_encode_block(self.data@, self.offsets@),
            valid_block_bytes(r@),
    {
        let mut buf = copy_range(self.data.as_slice(), 0, self.data.len());
        proof {
            assert(buf@ =~= self.data@);
        }
        let n = self.offsets.len();
        let mut i: usize = 0;
        proof {
            assert(self.offsets@.take(0) =~= Seq::<u16>::empty());
            assert(buf@ =~= self.data@ + offsets_bytes(self.offsets@.take(0)));
        }
        while i < n
            invariant
                i <= n == self.offsets@.len(),
                entries_wf(self.data@, self.offsets@),
                buf@ == self.data@ + offsets_bytes(self.offsets@.take(i as int)),
            decreases n - i,
        {
            put_u16(&mut buf, self.offsets[i]);
            proof {
                let t1 = self.offsets@.take(i as int + 1);
                assert(t1.drop_last() =~= self.offsets@.take(i as int));
                assert(t1.last() == self.offsets@[i as int]);
                assert(buf@ =~= self.data@ + offsets_bytes(t1));
            }
            i = i + 1;
        }
        proof {
            assert(self.offsets@.take(n as int) =~= self.offsets@);
        }
        put_u16(&mut buf, n as u16);
        proof {
            assert(buf@ =~= spec_encode_block(self.data@, self.offsets@));
            assert(valid_block_bytes(buf@));
        }
        buf
    }

    /// Decodes a block from its wire form: the entry count is read from
    /// the final two bytes, the offset table from the footer region in
    /// front of it, and the body is everything before the offset table.
    pub fn decode(data: &[u8]) -> (r: Block)
        requires
            valid_block_bytes(data@),
        ensures
            r.wf(),
            data@ == spec_encode_block(r.data@, r.offsets@),
            forall|d: Seq<u8>, o: Seq<u16>|
                block_seqs_wf(d, o) && data@ == #[trigger] spec_encode_block(d, o) ==> r.data@ == d
                    && r.offsets@ == o,
    {
        let ghost (d0, o0): (Seq<u8>, Seq<u16>) = choose|d: Seq<u8>, o: Seq<u16>|
            block_seqs_wf(d, o) && data@ == spec_encode_block(d, o);
        proof {
            lemma_offsets_bytes_len(o0);
            lemma_be16_val(o0.len() as int);
            assert(data@.len() == d0.len() + 2 * o0.len() + 2);
            assert(data@[data@.len() - 2] == be16(o0.len() as int)[0]);
            assert(data@[data@.len() - 1] == be16(o0.len() as int)[1]);
        }
        let total = data.len();
        let n = read_u16(data, total - 2) as usize;
        proof {
            assert(n == o0.len());
        }
        let data_end = total - 2 - n * SIZEOF_U16;
        let body = copy_range(data, 0, data_end);
        proof {
            assert(body@ =~= d0);
        }
        let mut offsets: Vec<u16> = Vec::new();
        let mut i: usize = 0;
        while i < n
            invariant
                i <= n == o0.len(),
                data_end == d0.len(),
                total == data@.len(),
                data@ == spec_encode_block(d0, o0),
                data@.len() == d0.len() + 2 * o0.len() + 2,
                offsets@ == o0.take(i as int),
            decreases n - i,
        {
            proof {
                lemma_offsets_bytes_index(o0, i as int);
                assert(data@[data_end + 2 * i] == be16(o0[i as int] as int)[0]);
                assert(data@[data_end + 2 * i + 1] == be16(o0[i as int] as int)[1]);
                lemma_be16_val(o0[i as int] as int);
            }
            let off = read_u16(data, data_end + i * SIZEOF_U16);
            offsets.push(off);
            proof {
                assert(offsets@ =~= o0.take(i as int + 1));
            }
            i = i + 1;
        }
        proof {
            assert(offsets@ =~= o0);
        }
        let r = Block { data: body, offsets };
        proof {
            assert forall|d: Seq<u8>, o: Seq<u16>|
                block_seqs_wf(d, o) && data@ == #[trigger] spec_encode_block(d, o) implies r.data@
                == d && r.offsets@ == o by {
                lemma_block_encoding_unique(d0, o0, d, o);
            }
        }
        r
    }
}

} // verus!
