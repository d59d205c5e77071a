//! Concatenates many key-range-disjoint, range-sorted tables into one
//! sorted stream, opening at most one table iterator at a time.

use crate::keys::key_le;
use crate::keys::key_lt;
use crate::keys::lemma_lex_le_lt_trans;
use crate::keys::lemma_lex_le_trans;
use crate::keys::lemma_lex_lt_irrefl;
use crate::keys::lemma_lex_lt_le_trans;
use crate::keys::lemma_lex_lt_total;
use crate::keys::lex_le;
use crate::keys::lex_lt;
use crate::table::lemma_block_key_range;
use crate::table::lemma_meta_last_le;
use crate::table::SsTable;
use crate::table_iterator::SsTableIterator;
use crate::wire::copy_range;
use vstd::prelude::*;

verus! {

/// The entries of tables `0 .. i` concatenated.
pub open spec fn tables_entries_upto(ts: Seq<SsTable>, i: int) -> Seq<(Seq<u8>, Seq<u8>)>
    decreases i,
{
    if i <= 0 {
        Seq::empty()
    } else {
        tables_entries_upto(ts, i - 1) + ts[i - 1].entries()
    }
}

/// The entries of all the tables, in table order.
pub open spec fn tables_entries(ts: Seq<SsTable>) -> Seq<(Seq<u8>, Seq<u8>)> {
    tables_entries_upto(ts, ts.len() as int)
}

/// Table `i` ends strictly before table `i + 1` begins.
pub open spec fn tables_order_ok(ts: Seq<SsTable>, i: int) -> bool {
    lex_lt(ts[i].last_key@, ts[i + 1].first_key@)
}

/// Every table is well formed, and their key ranges are disjoint and
/// strictly increasing.
pub open spec fn tables_sorted(ts: Seq<SsTable>) -> bool {
    &&& forall|i: int| 0 <= i < ts.len() ==> (#[trigger] ts[i]).wf()
    &&& forall|i: int| 0 <= i < ts.len() - 1 ==> #[trigger] tables_order_ok(ts, i)
}

/// A table's whole range is ordered.
pub proof fn lemma_table_range(t: SsTable)
    requires
        t.wf(),
    ensures
        lex_le(t.first_key@, t.last_key@),
{
    assert(t.table_block_wf(0));
    lemma_block_key_range(t, 0, t.block_entries(0).len() - 1);
    lemma_meta_last_le(t, 0);
    lemma_lex_le_trans(t.first_key@, t.block_meta@[0].last_key@, t.last_key@);
}

/// First keys of tables do not decrease with the table index.
pub proof fn lemma_tables_first_le(ts: Seq<SsTable>, c: int, b: int)
    requires
        tables_sorted(ts),
        0 <= c <= b < ts.len(),
    ensures
        lex_le(ts[c].first_key@, ts[b].first_key@),
    decreases b - c,
{
    if c < b {
        lemma_table_range(ts[c]);
        assert(tables_order_ok(ts, c));
        lemma_tables_first_le(ts, c + 1, b);
        lemma_lex_le_lt_trans(ts[c].first_key@, ts[c].last_key@, ts[c + 1].first_key@);
        lemma_lex_le_trans(ts[c].first_key@, ts[c + 1].first_key@, ts[b].first_key@);
    }
}

/// Last keys of tables do not decrease with the table index.
pub proof fn lemma_tables_last_le(ts: Seq<SsTable>, c: int, b: int)
    requires
        tables_sorted(ts),
        0 <= c <= b < ts.len(),
    ensures
        lex_le(ts[c].last_key@, ts[b].last_key@),
    decreases b - c,
{
    if c < b {
        assert(tables_order_ok(ts, c));
        lemma_table_range(ts[c + 1]);
        lemma_tables_last_le(ts, c + 1, b);
        lemma_lex_lt_le_trans(ts[c].last_key@, ts[c + 1].first_key@, ts[c + 1].last_key@);
        lemma_lex_le_trans(ts[c].last_key@, ts[c + 1].last_key@, ts[b].last_key@);
    }
}

/// Concatenated table prefixes only grow.
pub proof fn lemma_tables_upto_mono(ts: Seq<SsTable>, i: int, j: int)
    requires
        0 <= i <= j <= ts.len(),
    ensures
        tables_entries_upto(ts, i).len() <= tables_entries_upto(ts, j).len(),
    decreases j,
{
    if i < j {
        lemma_tables_upto_mono(ts, i, j - 1);
    }
}

/// Entry `j` of table `b` sits at position `tables_entries_upto(ts, b).len() + j`
/// of any longer concatenated prefix.
pub proof fn lemma_tables_upto_index(ts: Seq<SsTable>, i: int, b: int, j: int)
    requires
        0 <= b < i <= ts.len(),
        0 <= j < ts[b].entries().len(),
    ensures
        tables_entries_upto(ts, b).len() + j < tables_entries_upto(ts, i).len(),
        tables_entries_upto(ts, i)[tables_entries_upto(ts, b).len() + j] == ts[b].entries()[j],
    decreases i,
{
    if b + 1 == i {
        assert(tables_entries_upto(ts, i) == tables_entries_upto(ts, b) + ts[b].entries());
    } else {
        lemma_tables_upto_index(ts, i - 1, b, j);
    }
}

/// Where a seek into table `idx` leaves the stream: on an entry at or
/// after the key, or exactly at the end of the stream.
proof fn lemma_seek_landing(ts: Seq<SsTable>, idx: int, it: SsTableIterator, key: Seq<u8>)
    requires
        tables_sorted(ts),
        0 <= idx < ts.len(),
        it.wf(ts[idx]),
        idx + 1 < ts.len() ==> lex_lt(key, ts[idx + 1].first_key@),
        it.spec_valid() ==> lex_le(key, ts[idx].entries()[it.pos(ts[idx])].0),
    ensures
        ({
            let p = tables_entries_upto(ts, idx).len() + it.pos(ts[idx]);
            &&& 0 <= p <= tables_entries(ts).len()
            &&& (p < tables_entries(ts).len() ==> lex_le(key, tables_entries(ts)[p].0))
            &&& (!it.spec_valid() && idx + 1 == ts.len() ==> p == tables_entries(ts).len())
        }),
{
    let n = ts.len() as int;
    let p = tables_entries_upto(ts, idx).len() + it.pos(ts[idx]);
    assert(ts[idx].wf());
    it.lemma_pos(ts[idx]);
    if it.spec_valid() {
        lemma_tables_upto_index(ts, n, idx, it.pos(ts[idx]));
        assert(tables_entries(ts)[p] == ts[idx].entries()[it.pos(ts[idx])]);
    } else {
        assert(it.pos(ts[idx]) == ts[idx].entries().len());
        assert(tables_entries_upto(ts, idx + 1) == tables_entries_upto(ts, idx)
            + ts[idx].entries());
        assert(p == tables_entries_upto(ts, idx + 1).len());
        if idx + 1 < n {
            assert(ts[idx + 1].wf());
            crate::table::lemma_table_span(ts[idx + 1]);
            lemma_tables_upto_index(ts, n, idx + 1, 0);
            assert(tables_entries(ts)[p] == ts[idx + 1].entries()[0]);
            assert(tables_entries(ts)[p].0 == ts[idx + 1].first_key@);
        } else {
            assert(p == tables_entries(ts).len());
        }
    }
    lemma_tables_upto_mono(ts, idx + 1, n);
}

/// When the key lies past the last table's range, it lies past every
/// table's first key.
proof fn lemma_all_first_le(ts: Seq<SsTable>, key: Seq<u8>)
    requires
        tables_sorted(ts),
        ts.len() > 0,
        lex_lt(ts[ts.len() - 1].last_key@, key),
    ensures
        forall|c: int| 0 <= c < ts.len() ==> lex_le((#[trigger] ts[c]).first_key@, key),
{
    let n = ts.len() as int;
    assert forall|c: int| 0 <= c < n implies lex_le((#[trigger] ts[c]).first_key@, key) by {
        assert(ts[c].wf());
        lemma_table_range(ts[c]);
        lemma_tables_last_le(ts, c, n - 1);
        lemma_lex_le_trans(ts[c].first_key@, ts[c].last_key@, ts[n - 1].last_key@);
        lemma_lex_le_trans(ts[c].first_key@, ts[n - 1].last_key@, key);
    }
}

/// Any position short of a concatenated prefix falls inside one of its
/// tables: returns that table and the index within it.
proof fn lemma_tables_decompose(ts: Seq<SsTable>, b: int, g: int) -> (r: (int, int))
    requires
        0 <= b <= ts.len(),
        0 <= g < tables_entries_upto(ts, b).len(),
    ensures
        ({
            let (c, j) = r;
            &&& 0 <= c < b
            &&& 0 <= j < ts[c].entries().len()
            &&& g == tables_entries_upto(ts, c).len() + j
        }),
    decreases b,
{
    if b > 0 && g >= tables_entries_upto(ts, b - 1).len() {
        (b - 1, g - tables_entries_upto(ts, b - 1).len())
    } else {
        lemma_tables_decompose(ts, b - 1, g)
    }
}

/// Reads key-range-sorted tables as one sorted stream. Only the iterator
/// of the table under the cursor is materialized; the cursor index names
/// the next table to open.
pub struct SstConcatIterator {
    /// Iterator into the current table, when one is open and valid.
    pub current: Option<SsTableIterator>,
    /// Index of the next table to open.
    pub next_sst_idx: usize,
    /// The tables, in increasing key-range order.
    pub sstables: Vec<SsTable>,
}

impl SstConcatIterator {
    /// Well-formed except that the open iterator may be exhausted: the
    /// state move_until_valid starts from.
    pub open spec fn pre_wf(self) -> bool {
        &&& tables_sorted(self.sstables@)
        &&& self.next_sst_idx <= self.sstables@.len()
        &&& match self.current {
            Some(it) => 1 <= self.next_sst_idx && it.wf(
                self.sstables@[self.next_sst_idx - 1],
            ),
            None => self.next_sst_idx == self.sstables@.len(),
        }
    }

    /// Well-formed: additionally, an open iterator rests on an entry.
    pub open spec fn wf(self) -> bool {
        &&& self.pre_wf()
        &&& match self.current {
            Some(it) => it.spec_valid(),
            None => true,
        }
    }

    /// Whether the cursor rests on an entry.
    pub open spec fn spec_valid(self) -> bool {
        self.current is Some
    }

    /// Absolute position within the concatenated entry sequence.
    pub open spec fn pos(self) -> int {
        match self.current {
            Some(it) => tables_entries_upto(self.sstables@, self.next_sst_idx - 1).len()
                + it.pos(self.sstables@[self.next_sst_idx - 1]),
            None => tables_entries(self.sstables@).len() as int,
        }
    }

    /// Valid exactly when the position is before the end of the stream.
    pub proof fn lemma_pos(self)
        requires
            self.wf(),
        ensures
            0 <= self.pos() <= tables_entries(self.sstables@).len(),
            self.spec_valid() <==> self.pos() < tables_entries(self.sstables@).len(),
    {
        let ts = self.sstables@;
        match self.current {
            Some(it) => {
                let b = self.next_sst_idx - 1;
                it.lemma_pos(ts[b]);
                assert(tables_entries_upto(ts, b + 1) == tables_entries_upto(ts, b)
                    + ts[b].entries());
                lemma_tables_upto_mono(ts, b + 1, ts.len() as int);
            },
            None => {},
        }
    }

    /// The entry under the cursor is the stream entry at `pos`.
    pub proof fn lemma_current(self)
        requires
            self.wf(),
            self.spec_valid(),
        ensures
            0 <= self.pos() < tables_entries(self.sstables@).len(),
            tables_entries(self.sstables@)[self.pos()] == self.sstables@[self.next_sst_idx
                - 1].entries()[self.current->Some_0.pos(self.sstables@[self.next_sst_idx - 1])],
    {
        let ts = self.sstables@;
        let b = self.next_sst_idx - 1;
        let it = self.current->Some_0;
        it.lemma_pos(ts[b]);
        self.lemma_pos();
        lemma_tables_upto_index(ts, ts.len() as int, b, it.pos(ts[b]));
    }

    /// Checks at run time that the tables are range-sorted and disjoint:
    /// each table's first key is at or before its last, and each table's
    /// range ends strictly before the next one begins.
    pub fn check_sst_valid(sstables: &Vec<SsTable>) -> (r: bool)
        ensures
            r == ({
                &&& forall|i: int|
                    0 <= i < sstables@.len() ==> lex_le(
                        (#[trigger] sstables@[i]).first_key@,
                        sstables@[i].last_key@,
                    )
                &&& forall|i: int|
                    0 <= i < sstables@.len() - 1 ==> lex_lt(
                        (#[trigger] sstables@[i]).last_key@,
                        sstables@[i + 1].first_key@,
                    )
            }),
    {
        let n = sstables.len();
        let mut i: usize = 0;
        while i < n
            invariant
                i <= n == sstables@.len(),
                forall|j: int|
                    0 <= j < i ==> lex_le(
                        (#[trigger] sstables@[j]).first_key@,
                        sstables@[j].last_key@,
                    ),
            decreases n - i,
        {
            let fk = copy_range(
                sstables[i].first_key.as_slice(),
                0,
                sstables[i].first_key.len(),
            );
            let lk = copy_range(sstables[i].last_key.as_slice(), 0, sstables[i].last_key.len());
            proof {
                assert(fk@ =~= sstables@[i as int].first_key@);
                assert(lk@ =~= sstables@[i as int].last_key@);
            }
            if !key_le(fk.as_slice(), lk.as_slice()) {
                return false;
            }
            i = i + 1;
        }
        let mut i: usize = 1;
        while i < n
            invariant
                1 <= i <= n || n == 0,
                n == sstables@.len(),
                forall|j: int|
                    0 <= j < i - 1 ==> lex_lt(
                        (#[trigger] sstables@[j]).last_key@,
                        sstables@[j + 1].first_key@,
                    ),
            decreases n - i,
        {
            let lk = copy_range(
                sstables[i - 1].last_key.as_slice(),
                0,
                sstables[i - 1].last_key.len(),
            );
            let fk = copy_range(
                sstables[i].first_key.as_slice(),
                0,
                sstables[i].first_key.len(),
            );
            proof {
                assert(lk@ =~= sstables@[i - 1].last_key@);
                assert(fk@ =~= sstables@[i as int].first_key@);
            }
            if !key_lt(lk.as_slice(), fk.as_slice()) {
                return false;
            }
            i = i + 1;
        }
        true
    }

    /// Discards exhausted table iterators: opens the next table at its
    /// first entry until the open iterator is valid or no table is left.
    /// The stream position does not move.
    fn move_until_valid(&mut self)
        requires
            old(self).pre_wf(),
        ensures
            final(self).wf(),
            final(self).pos() == old(self).pos(),
            final(self).sstables@ == old(self).sstables@,
            final(self).sstables == old(self).sstables,
    {
        loop
            invariant
                self.pre_wf(),
                self.pos() == old(self).pos(),
                self.sstables == old(self).sstables,
            decreases self.sstables@.len() - self.next_sst_idx + (if self.current is Some {
                1int
            } else {
                0int
            }),
        {
            let done = match &self.current {
                None => true,
                Some(it) => it.is_valid(),
            };
            if done {
                return ;
            }
            let ghost ts = self.sstables@;
            let ghost b = self.next_sst_idx - 1;
            proof {
                let it = self.current->Some_0;
                it.lemma_pos(ts[b]);
                assert(it.pos(ts[b]) == ts[b].entries().len());
                assert(tables_entries_upto(ts, b + 1) == tables_entries_upto(ts, b)
                    + ts[b].entries());
            }
            if self.next_sst_idx >= self.sstables.len() {
                self.current = None;
            } else {
                proof {
                    assert(ts[self.next_sst_idx as int].wf());
                }
                let it = SsTableIterator::create_and_seek_to_first(
                    &self.sstables[self.next_sst_idx],
                );
                self.current = Some(it);
                self.next_sst_idx = self.next_sst_idx + 1;
            }
        }
    }

    /// Opens the stream at its first entry; an empty table list gives an
    /// immediately invalid stream.
    pub fn create_and_seek_to_first(sstables: Vec<SsTable>) -> (r: SstConcatIterator)
        requires
            tables_sorted(sstables@),
        ensures
            r.wf(),
            r.sstables@ == sstables@,
            r.pos() == 0,
    {
        if sstables.len() == 0 {
            let r = SstConcatIterator { current: None, next_sst_idx: 0, sstables };
            return r;
        }
        proof {
            assert(sstables@[0].wf());
        }
        let it = SsTableIterator::create_and_seek_to_first(&sstables[0]);
        let mut r = SstConcatIterator { current: Some(it), next_sst_idx: 1, sstables };
        proof {
            assert(tables_entries_upto(r.sstables@, 0) =~= Seq::<(Seq<u8>, Seq<u8>)>::empty());
        }
        r.move_until_valid();
        r
    }

    /// Opens the stream at the first entry with key at or after `key`:
    /// the rightmost table whose range may contain the key is seeked to
    /// the key, and an exhausted landing spills over to the next table's
    /// first entry. A key past every table's range gives an invalid
    /// stream.
    #[verifier::rlimit(100)]
    pub fn create_and_seek_to_key(sstables: Vec<SsTable>, key: &[u8]) -> (r: SstConcatIterator)
        requires
            tables_sorted(sstables@),
        ensures
            r.wf(),
            r.sstables@ == sstables@,
            forall|g: int|
                0 <= g < r.pos() ==> lex_lt(tables_entries(sstables@)[g].0, key@),
            r.spec_valid() ==> lex_le(key@, tables_entries(sstables@)[r.pos()].0),
            sstables@.len() > 0 && lex_lt(sstables@[sstables@.len() - 1].last_key@, key@)
                ==> !r.spec_valid(),
    {
        let ghost ts = sstables@;
        let n = sstables.len();
        if n == 0 {
            let r = SstConcatIterator { current: None, next_sst_idx: 0, sstables };
            return r;
        }
        let mut lo: usize = 0;
        let mut hi: usize = n;
        while lo < hi
            invariant
                lo <= hi <= n == ts.len(),
                ts == sstables@,
                tables_sorted(ts),
                forall|c: int| 0 <= c < lo ==> lex_le((#[trigger] ts[c]).first_key@, key@),
                forall|c: int| hi <= c < n ==> lex_lt(key@, (#[trigger] ts[c]).first_key@),
            decreases hi - lo,
        {
            let mid = lo + (hi - lo) / 2;
            let fk = copy_range(
                sstables[mid].first_key.as_slice(),
                0,
                sstables[mid].first_key.len(),
            );
            proof {
                assert(fk@ =~= ts[mid as int].first_key@);
            }
            if key_le(fk.as_slice(), key) {
                proof {
                    assert forall|c: int| 0 <= c < mid + 1 implies lex_le(
                        (#[trigger] ts[c]).first_key@,
                        key@,
                    ) by {
                        if lo <= c {
                            lemma_tables_first_le(ts, c, mid as int);
                            lemma_lex_le_trans(ts[c].first_key@, ts[mid as int].first_key@, key@);
                        }
                    }
                }
                lo = mid + 1;
            } else {
                proof {
                    lemma_lex_lt_total(key@, fk@);
                    assert forall|c: int| mid <= c < n implies lex_lt(
                        key@,
                        (#[trigger] ts[c]).first_key@,
                    ) by {
                        if c < hi {
                            lemma_tables_first_le(ts, mid as int, c);
                            lemma_lex_lt_le_trans(
                                key@,
                                ts[mid as int].first_key@,
                                ts[c].first_key@,
                            );
                        }
                    }
                }
                hi = mid;
            }
        }
        let idx = if lo == 0 {
            0
        } else {
            lo - 1
        };
        proof {
            assert(ts[idx as int].wf());
        }
        let it = SsTableIterator::create_and_seek_to_key(&sstables[idx], key);
        let mut r = SstConcatIterator { current: Some(it), next_sst_idx: idx + 1, sstables };
        let ghost p = r.pos();
        proof {
            assert(idx as int + 1 < n ==> lex_lt(key@, ts[idx as int + 1].first_key@));
            lemma_seek_landing(ts, idx as int, it, key@);
            assert forall|g: int| 0 <= g < p implies lex_lt(tables_entries(ts)[g].0, key@) by {
                it.lemma_pos(ts[idx as int]);
                if g < tables_entries_upto(ts, idx as int).len() {
                    let (c, j) = lemma_tables_decompose(ts, idx as int, g);
                    lemma_tables_upto_index(ts, ts.len() as int, c, j);
                    assert(ts[c].wf());
                    crate::table::lemma_table_entry_range(ts[c], j);
                    assert(tables_order_ok(ts, c));
                    assert(c + 1 < lo);
                    assert(lex_le(ts[c + 1].first_key@, key@));
                    lemma_lex_le_lt_trans(
                        ts[c].entries()[j].0,
                        ts[c].last_key@,
                        ts[c + 1].first_key@,
                    );
                    lemma_lex_lt_le_trans(ts[c].entries()[j].0, ts[c + 1].first_key@, key@);
                } else {
                    let j = g - tables_entries_upto(ts, idx as int).len();
                    assert(j < it.pos(ts[idx as int]));
                    lemma_tables_upto_index(ts, ts.len() as int, idx as int, j);
                    assert(lex_lt(ts[idx as int].entries()[j].0, key@));
                }
            }
        }
        r.move_until_valid();
        proof {
            r.lemma_pos();
            assert(r.pos() == p);
            if lex_lt(ts[n - 1].last_key@, key@) {
                // Every table's range, and so every entry, lies before the
                // key: the last table is chosen and seeked past its end.
                lemma_all_first_le(ts, key@);
                if lo < n {
                    assert(lex_le(ts[lo as int].first_key@, key@));
                    lemma_lex_le_lt_trans(ts[lo as int].first_key@, key@, ts[lo as int].first_key@);
                    lemma_lex_lt_irrefl(ts[lo as int].first_key@);
                }
                assert(lo == n);
                assert(idx == n - 1);
                assert(!it.spec_valid());
                assert(p == tables_entries(ts).len());
                assert(!r.spec_valid());
            }
        }
        r
    }

    /// Whether the stream rests on an entry.
    pub fn is_valid(&self) -> (r: bool)
        ensures
            r == self.spec_valid(),
    {
        match &self.current {
            Some(_) => true,
            None => false,
        }
    }

    /// Key under the cursor. The stream must be valid.
    pub fn key(&self) -> (r: Vec<u8>)
        requires
            self.wf(),
            self.spec_valid(),
        ensures
            r@ == tables_entries(self.sstables@)[self.pos()].0,
    {
        proof {
            self.lemma_current();
        }
        match &self.current {
            Some(it) => it.key(&self.sstables[self.next_sst_idx - 1]),
            None => unreached(),
        }
    }

    /// Value under the cursor. The stream must be valid.
    pub fn value(&self) -> (r: Vec<u8>)
        requires
            self.wf(),
            self.spec_valid(),
        ensures
            r@ == tables_entries(self.sstables@)[self.pos()].1,
    {
        proof {
            self.lemma_current();
        }
        match &self.current {
            Some(it) => it.value(&self.sstables[self.next_sst_idx - 1]),
            None => unreached(),
        }
    }

    /// Advances one entry, spilling over to the next table when the
    /// current one is exhausted. The stream must be valid.
    pub fn next(&mut self)
        requires
            old(self).wf(),
            old(self).spec_valid(),
        ensures
            final(self).wf(),
            final(self).sstables@ == old(self).sstables@,
            final(self).pos() == old(self).pos() + 1,
    {
        let idx = self.next_sst_idx - 1;
        let t = &self.sstables[idx];
        match &mut self.current {
            Some(it) => it.next(t),
            None => unreached(),
        }
        self.move_until_valid();
    }

    /// Only one inner table iterator is ever materialized.
    pub fn num_active_iterators(&self) -> (r: usize)
        ensures
            r == 1,
    {
        1
    }
}

} // verus!
