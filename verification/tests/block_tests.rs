use mini_lsm::block::Block;
use mini_lsm::block_builder::BlockBuilder;
use mini_lsm::block_iterator::BlockIterator;

fn build_block(entries: &[(&[u8], &[u8])], block_size: usize) -> Block {
    let mut b = BlockBuilder::new(block_size);
    for (k, v) in entries {
        assert!(b.add(k, v));
    }
    b.build()
}

#[test]
fn test_two_entries_one_block() {
    // A budget large enough for both entries: one block holding exactly
    // the two pairs, in order, after an encode/decode round trip.
    let block = build_block(&[(b"a", b"1"), (b"b", b"2")], 4096);
    let encoded = block.encode();
    let decoded = Block::decode(encoded.as_slice());
    assert_eq!(decoded.data, block.data);
    assert_eq!(decoded.offsets, block.offsets);
    let mut it = BlockIterator::create_and_seek_to_first(decoded);
    assert!(it.is_valid());
    assert_eq!(it.key(), b"a".to_vec());
    assert_eq!(it.value(), b"1".to_vec());
    it.next();
    assert!(it.is_valid());
    assert_eq!(it.key(), b"b".to_vec());
    assert_eq!(it.value(), b"2".to_vec());
    it.next();
    assert!(!it.is_valid());
}

#[test]
fn test_block_round_trip_many() {
    let entries: Vec<(Vec<u8>, Vec<u8>)> = (0u8..50)
        .map(|i| (vec![b'k', i], vec![i, i, i]))
        .collect();
    let mut b = BlockBuilder::new(4096);
    for (k, v) in &entries {
        assert!(b.add(k.as_slice(), v.as_slice()));
    }
    let block = b.build();
    let encoded = block.encode();
    let decoded = Block::decode(encoded.as_slice());
    let mut it = BlockIterator::create_and_seek_to_first(decoded);
    for (k, v) in &entries {
        assert!(it.is_valid());
        assert_eq!(&it.key(), k);
        assert_eq!(&it.value(), v);
        it.next();
    }
    assert!(!it.is_valid());
}

#[test]
fn test_first_entry_always_accepted() {
    // An empty builder takes any entry, even one far over the budget.
    let mut b = BlockBuilder::new(8);
    let big_key = vec![b'x'; 64];
    let big_val = vec![b'y'; 64];
    assert!(b.add(big_key.as_slice(), big_val.as_slice()));
    // A non-empty builder rejects what would pass the budget.
    assert!(!b.add(b"z", b"1"));
    let block = b.build();
    assert_eq!(block.offsets.len(), 1);
}

#[test]
fn test_full_block_rejects() {
    // Budget 25: "a" and "b" fit (18 bytes with the index), "c" would
    // make 26 and is rejected.
    let mut b = BlockBuilder::new(25);
    assert!(b.add(b"a", b"1"));
    assert!(b.add(b"b", b"2"));
    assert!(!b.add(b"c", b"3"));
    assert!(!b.is_empty());
}

#[test]
fn test_is_empty() {
    let mut b = BlockBuilder::new(64);
    assert!(b.is_empty());
    assert!(b.add(b"a", b"1"));
    assert!(!b.is_empty());
}

#[test]
fn test_seek_to_key_lower_bound() {
    let block = build_block(&[(b"a", b"1"), (b"c", b"3"), (b"e", b"5")], 4096);
    // An exact hit lands on that entry.
    let it = BlockIterator::create_and_seek_to_key(block, b"c");
    assert!(it.is_valid());
    assert_eq!(it.key(), b"c".to_vec());
    // A key in a gap lands on the first larger key.
    let block = build_block(&[(b"a", b"1"), (b"c", b"3"), (b"e", b"5")], 4096);
    let it = BlockIterator::create_and_seek_to_key(block, b"b");
    assert!(it.is_valid());
    assert_eq!(it.key(), b"c".to_vec());
    // A key before every entry lands on the first entry.
    let block = build_block(&[(b"a", b"1"), (b"c", b"3"), (b"e", b"5")], 4096);
    let it = BlockIterator::create_and_seek_to_key(block, b"0");
    assert!(it.is_valid());
    assert_eq!(it.key(), b"a".to_vec());
    // A key past every entry leaves the iterator invalid.
    let block = build_block(&[(b"a", b"1"), (b"c", b"3"), (b"e", b"5")], 4096);
    let it = BlockIterator::create_and_seek_to_key(block, b"f");
    assert!(!it.is_valid());
}

#[test]
fn test_empty_value_entry() {
    // A zero-length value is a valid entry, distinct from "not found".
    let block = build_block(&[(b"gone", b"")], 4096);
    let encoded = block.encode();
    let decoded = Block::decode(encoded.as_slice());
    let it = BlockIterator::create_and_seek_to_first(decoded);
    assert!(it.is_valid());
    assert_eq!(it.key(), b"gone".to_vec());
    assert_eq!(it.value(), Vec::<u8>::new());
}
