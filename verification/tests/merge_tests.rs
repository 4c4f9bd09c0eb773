use std::sync::Arc;

use mini_lsm::block::Block;
use mini_lsm::block::builder::BlockBuilder;
use mini_lsm::block::iterator::BlockIterator;
use mini_lsm::iterators::StorageIterator;
use mini_lsm::iterators::merge_iterator::MergeIterator;
use mini_lsm::key::KeyVec;

fn key(bytes: &[u8], version: u64) -> KeyVec {
    KeyVec::from_vec_with_version(bytes.to_vec(), version)
}

fn source(entries: &[(&[u8], u64, &[u8])]) -> Box<BlockIterator> {
    let mut builder = BlockBuilder::new(65535);
    for (k, v, val) in entries {
        assert!(builder.add(&key(k, *v), val));
    }
    Box::new(BlockIterator::create_and_seek_to_first(Arc::new(builder.build())))
}

fn empty_source() -> Box<BlockIterator> {
    // a block iterator seeked past its only entry is an empty source
    let mut builder = BlockBuilder::new(65535);
    assert!(builder.add(&key(b"z", 1), b"v"));
    let block: Arc<Block> = Arc::new(builder.build());
    Box::new(BlockIterator::create_and_seek_to_key(block, &key(b"zz", 1)))
}

#[test]
fn merge_suppresses_duplicates_by_source_priority() {
    // S0 = [(k1,5)->va, (k2,1)->vb], S1 = [(k1,5)->vc, (k3,1)->vd],
    // S2 = [(k2,1)->ve]; the lower source index wins ties.
    let s0 = source(&[(b"k1", 5, b"va"), (b"k2", 1, b"vb")]);
    let s1 = source(&[(b"k1", 5, b"vc"), (b"k3", 1, b"vd")]);
    let s2 = source(&[(b"k2", 1, b"ve")]);
    let mut merged = MergeIterator::create(vec![s0, s1, s2]);

    assert!(merged.is_valid());
    assert_eq!(merged.key().bytes.as_slice(), b"k1");
    assert_eq!(merged.key().version, 5);
    assert_eq!(merged.value(), b"va");

    merged.next().unwrap();
    assert!(merged.is_valid());
    assert_eq!(merged.key().bytes.as_slice(), b"k2");
    assert_eq!(merged.key().version, 1);
    assert_eq!(merged.value(), b"vb");

    merged.next().unwrap();
    assert!(merged.is_valid());
    assert_eq!(merged.key().bytes.as_slice(), b"k3");
    assert_eq!(merged.key().version, 1);
    assert_eq!(merged.value(), b"vd");

    merged.next().unwrap();
    assert!(!merged.is_valid());
}

#[test]
fn merge_of_zero_sources_is_invalid() {
    let merged: MergeIterator<BlockIterator> = MergeIterator::create(Vec::new());
    assert!(!merged.is_valid());
    assert_eq!(merged.num_active_iterators(), 0);
}

#[test]
fn merge_of_all_empty_sources_is_invalid() {
    let merged = MergeIterator::create(vec![empty_source(), empty_source()]);
    assert!(!merged.is_valid());
    assert_eq!(merged.num_active_iterators(), 0);
}

#[test]
fn merge_discards_empty_sources_on_construction() {
    let s0 = empty_source();
    let s1 = source(&[(b"a", 1, b"v")]);
    let merged = MergeIterator::create(vec![s0, s1]);
    assert!(merged.is_valid());
    assert_eq!(merged.key().bytes.as_slice(), b"a");
    assert_eq!(merged.num_active_iterators(), 1);
}

#[test]
fn num_active_iterators_drains_to_zero() {
    // N non-overlapping single-entry sources: the count falls one per step
    let s0 = source(&[(b"a", 1, b"v0")]);
    let s1 = source(&[(b"b", 1, b"v1")]);
    let s2 = source(&[(b"c", 1, b"v2")]);
    let mut merged = MergeIterator::create(vec![s0, s1, s2]);
    assert_eq!(merged.num_active_iterators(), 3);
    assert!(merged.is_valid());
    merged.next().unwrap();
    assert_eq!(merged.num_active_iterators(), 2);
    merged.next().unwrap();
    assert_eq!(merged.num_active_iterators(), 1);
    merged.next().unwrap();
    assert_eq!(merged.num_active_iterators(), 0);
    assert!(!merged.is_valid());
}

#[test]
fn merged_stream_is_sorted_and_duplicate_free() {
    let s0 = source(&[(b"a", 9, b"x"), (b"c", 4, b"y"), (b"e", 2, b"z")]);
    let s1 = source(&[(b"a", 9, b"shadowed"), (b"b", 7, b"w"), (b"e", 2, b"also")]);
    let mut merged = MergeIterator::create(vec![s0, s1]);
    let mut seen: Vec<(Vec<u8>, u64, Vec<u8>)> = Vec::new();
    while merged.is_valid() {
        seen.push((
            merged.key().bytes.clone(),
            merged.key().version,
            merged.value().to_vec(),
        ));
        merged.next().unwrap();
    }
    let expected: Vec<(Vec<u8>, u64, Vec<u8>)> = vec![
        (b"a".to_vec(), 9, b"x".to_vec()),
        (b"b".to_vec(), 7, b"w".to_vec()),
        (b"c".to_vec(), 4, b"y".to_vec()),
        (b"e".to_vec(), 2, b"z".to_vec()),
    ];
    assert_eq!(seen, expected);
}

#[test]
fn merge_reads_do_not_change_state() {
    let s0 = source(&[(b"a", 1, b"v")]);
    let merged = MergeIterator::create(vec![s0]);
    assert!(merged.is_valid());
    assert!(merged.is_valid());
    assert_eq!(merged.key().bytes.as_slice(), b"a");
    assert_eq!(merged.key().bytes.as_slice(), b"a");
    assert_eq!(merged.value(), b"v");
    assert_eq!(merged.value(), b"v");
    assert_eq!(merged.num_active_iterators(), 1);
}

#[test]
fn merge_resolves_same_user_key_by_version_then_source() {
    // different versions of one user key are distinct entries, newest first
    let s0 = source(&[(b"k", 3, b"v3")]);
    let s1 = source(&[(b"k", 9, b"v9"), (b"k", 1, b"v1")]);
    let mut merged = MergeIterator::create(vec![s0, s1]);
    assert_eq!(merged.key().version, 9);
    assert_eq!(merged.value(), b"v9");
    merged.next().unwrap();
    assert_eq!(merged.key().version, 3);
    assert_eq!(merged.value(), b"v3");
    merged.next().unwrap();
    assert_eq!(merged.key().version, 1);
    assert_eq!(merged.value(), b"v1");
    merged.next().unwrap();
    assert!(!merged.is_valid());
}
