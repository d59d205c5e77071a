use mini_lsm::concat_iterator::SstConcatIterator;
use mini_lsm::table::SsTable;
use mini_lsm::table_builder::SsTableBuilder;
use mini_lsm::table_iterator::SsTableIterator;

fn build_table(id: usize, entries: &[(&[u8], &[u8])], block_size: usize) -> SsTable {
    let mut b = SsTableBuilder::new(block_size);
    for (k, v) in entries {
        b.add(k, v);
    }
    b.build(id)
}

fn collect(t: &SsTable) -> Vec<(Vec<u8>, Vec<u8>)> {
    let mut out = Vec::new();
    let mut it = SsTableIterator::create_and_seek_to_first(t);
    while it.is_valid() {
        out.push((it.key(t), it.value(t)));
        it.next(t);
    }
    out
}

#[test]
fn test_split_into_two_blocks() {
    // Budget 25 forces a split after two entries: block ranges
    // ["a","b"] and ["c","c"], and iteration still yields a, b, c.
    let t = build_table(0, &[(b"a", b"1"), (b"b", b"2"), (b"c", b"3")], 25);
    assert_eq!(t.block_meta.len(), 2);
    assert_eq!(t.block_meta[0].first_key, b"a".to_vec());
    assert_eq!(t.block_meta[0].last_key, b"b".to_vec());
    assert_eq!(t.block_meta[1].first_key, b"c".to_vec());
    assert_eq!(t.block_meta[1].last_key, b"c".to_vec());
    // The first block's 18 encoded bytes place the second at offset 18.
    assert_eq!(t.block_meta[0].offset, 0);
    assert_eq!(t.block_meta[1].offset, 18);
    assert_eq!(t.block_meta_offset, 18 + 10);
    assert_eq!(t.max_ts, 0);
    let got = collect(&t);
    assert_eq!(
        got,
        vec![
            (b"a".to_vec(), b"1".to_vec()),
            (b"b".to_vec(), b"2".to_vec()),
            (b"c".to_vec(), b"3".to_vec()),
        ]
    );
}

#[test]
fn test_table_round_trip() {
    // Many entries over several blocks: writing the file out and
    // re-opening it yields the same entries and the true key range.
    let entries: Vec<(Vec<u8>, Vec<u8>)> = (0u8..40)
        .map(|i| (vec![b'k', i], vec![i]))
        .collect();
    let mut b = SsTableBuilder::new(40);
    for (k, v) in &entries {
        b.add(k.as_slice(), v.as_slice());
    }
    let t = b.build(3);
    assert!(t.block_meta.len() > 1);
    assert_eq!(t.first_key, b"k\x00".to_vec());
    assert_eq!(t.last_key, vec![b'k', 39]);
    let reopened = SsTable::open(3, t.file.clone());
    assert_eq!(reopened.block_meta_offset, t.block_meta_offset);
    assert_eq!(reopened.first_key, t.first_key);
    assert_eq!(reopened.last_key, t.last_key);
    let got = collect(&reopened);
    let want: Vec<(Vec<u8>, Vec<u8>)> = entries;
    assert_eq!(got, want);
}

#[test]
fn test_estimated_size_counts_sealed_bytes() {
    let mut b = SsTableBuilder::new(25);
    assert_eq!(b.estimated_size(), 0);
    b.add(b"a", b"1");
    b.add(b"b", b"2");
    // Still one open block: nothing sealed yet.
    assert_eq!(b.estimated_size(), 0);
    b.add(b"c", b"3");
    // The first block was sealed when "c" arrived.
    assert!(b.estimated_size() > 0);
}

#[test]
fn test_table_seek_to_key() {
    let t = build_table(0, &[(b"a", b"1"), (b"c", b"3"), (b"e", b"5")], 25);
    let it = SsTableIterator::create_and_seek_to_key(&t, b"b");
    assert!(it.is_valid());
    assert_eq!(it.key(&t), b"c".to_vec());
    let it = SsTableIterator::create_and_seek_to_key(&t, b"e");
    assert!(it.is_valid());
    assert_eq!(it.key(&t), b"e".to_vec());
    let it = SsTableIterator::create_and_seek_to_key(&t, b"f");
    assert!(!it.is_valid());
}

#[test]
fn test_concat_visits_all_in_order() {
    // Three disjoint tables read as one stream: every entry exactly
    // once, in global key order.
    let t1 = build_table(1, &[(b"a", b"1"), (b"b", b"2")], 25);
    let t2 = build_table(2, &[(b"d", b"4"), (b"e", b"5")], 25);
    let t3 = build_table(3, &[(b"g", b"7")], 25);
    let tables = vec![t1, t2, t3];
    assert!(SstConcatIterator::check_sst_valid(&tables));
    let mut it = SstConcatIterator::create_and_seek_to_first(tables);
    assert_eq!(it.num_active_iterators(), 1);
    let mut got = Vec::new();
    while it.is_valid() {
        got.push((it.key(), it.value()));
        it.next();
    }
    let want: Vec<(Vec<u8>, Vec<u8>)> = vec![
        (b"a".to_vec(), b"1".to_vec()),
        (b"b".to_vec(), b"2".to_vec()),
        (b"d".to_vec(), b"4".to_vec()),
        (b"e".to_vec(), b"5".to_vec()),
        (b"g".to_vec(), b"7".to_vec()),
    ];
    assert_eq!(got, want);
}

#[test]
fn test_concat_seek_into_gap() {
    // T1 spans [a, c], T2 spans [f, h]; "d" falls in the gap. The
    // lower-bound-minus-one rule lands in T1, which is exhausted, and
    // catch-up moves to T2's first entry "f".
    let t1 = build_table(1, &[(b"a", b"1"), (b"c", b"3")], 25);
    let t2 = build_table(2, &[(b"f", b"6"), (b"h", b"8")], 25);
    let it = SstConcatIterator::create_and_seek_to_key(vec![t1, t2], b"d");
    assert!(it.is_valid());
    assert_eq!(it.key(), b"f".to_vec());
    assert_eq!(it.value(), b"6".to_vec());
}

fn gap_tables() -> Vec<SsTable> {
    vec![
        build_table(1, &[(b"a", b"1"), (b"c", b"3")], 25),
        build_table(2, &[(b"f", b"6"), (b"h", b"8")], 25),
    ]
}

#[test]
fn test_concat_seek_boundaries() {
    // Exactly on a table's first key.
    let it = SstConcatIterator::create_and_seek_to_key(gap_tables(), b"f");
    assert!(it.is_valid());
    assert_eq!(it.key(), b"f".to_vec());
    // Before every table's range: the very first entry.
    let it = SstConcatIterator::create_and_seek_to_key(gap_tables(), b"0");
    assert!(it.is_valid());
    assert_eq!(it.key(), b"a".to_vec());
    // Past every table's range: invalid.
    let it = SstConcatIterator::create_and_seek_to_key(gap_tables(), b"z");
    assert!(!it.is_valid());
}

#[test]
fn test_concat_empty_tables() {
    let it = SstConcatIterator::create_and_seek_to_first(Vec::new());
    assert!(!it.is_valid());
}

#[test]
fn test_check_sst_valid_rejects_overlap() {
    let t1 = build_table(1, &[(b"a", b"1"), (b"f", b"3")], 25);
    let t2 = build_table(2, &[(b"c", b"6"), (b"h", b"8")], 25);
    let tables = vec![t1, t2];
    assert!(!SstConcatIterator::check_sst_valid(&tables));
}
