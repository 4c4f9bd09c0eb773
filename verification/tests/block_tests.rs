use std::sync::Arc;

use mini_lsm::block::builder::BlockBuilder;
use mini_lsm::block::iterator::BlockIterator;
use mini_lsm::key::KeyVec;

fn key(bytes: &[u8], version: u64) -> KeyVec {
    KeyVec::from_vec_with_version(bytes.to_vec(), version)
}

#[test]
fn builder_round_trips_sorted_entries() {
    let mut builder = BlockBuilder::new(4096);
    let entries: Vec<(&[u8], u64, &[u8])> = vec![
        (b"apple", 7, b"red"),
        (b"apricot", 3, b"orange"),
        (b"banana", 9, b"yellow"),
        (b"banana", 2, b"older"),
        (b"cherry", 1, b""),
    ];
    for (k, v, val) in &entries {
        assert!(builder.add(&key(k, *v), val));
    }
    let block = builder.build();
    let mut iter = BlockIterator::create_and_seek_to_first(Arc::new(block));
    for (k, v, val) in &entries {
        assert!(iter.is_valid());
        assert_eq!(iter.key().bytes.as_slice(), *k);
        assert_eq!(iter.key().version, *v);
        assert_eq!(iter.value(), *val);
        iter.next();
    }
    assert!(!iter.is_valid());
}

#[test]
fn prefix_compression_round_trips() {
    let mut builder = BlockBuilder::new(4096);
    assert!(builder.add(&key(b"shared_prefix_aa", 1), b"first"));
    assert!(builder.add(&key(b"shared_prefix_bb", 1), b"second"));
    assert!(builder.add(&key(b"shared_x", 1), b"third"));
    let block = builder.build();
    let mut iter = BlockIterator::create_and_seek_to_first(Arc::new(block));
    assert_eq!(iter.key().bytes.as_slice(), b"shared_prefix_aa");
    iter.next();
    assert_eq!(iter.key().bytes.as_slice(), b"shared_prefix_bb");
    assert_eq!(iter.value(), b"second");
    iter.next();
    assert_eq!(iter.key().bytes.as_slice(), b"shared_x");
    assert!(iter.is_valid());
    iter.next();
    assert!(!iter.is_valid());
}

fn seek_block() -> Arc<mini_lsm::block::Block> {
    // keys: ("a",5) < ("b",3) < ("b",1) < ("c",9)
    let mut builder = BlockBuilder::new(4096);
    assert!(builder.add(&key(b"a", 5), b"va"));
    assert!(builder.add(&key(b"b", 3), b"vb3"));
    assert!(builder.add(&key(b"b", 1), b"vb1"));
    assert!(builder.add(&key(b"c", 9), b"vc"));
    Arc::new(builder.build())
}

#[test]
fn seek_to_key_finds_first_entry_at_or_after_target() {
    let block = seek_block();
    // seeking ("b",2) lands on ("b",1), the smallest key >= target
    let iter = BlockIterator::create_and_seek_to_key(Arc::clone(&block), &key(b"b", 2));
    assert!(iter.is_valid());
    assert_eq!(iter.key().bytes.as_slice(), b"b");
    assert_eq!(iter.key().version, 1);
    assert_eq!(iter.value(), b"vb1");
}

#[test]
fn seek_to_key_equality_lands_exactly() {
    let block = seek_block();
    let iter = BlockIterator::create_and_seek_to_key(Arc::clone(&block), &key(b"b", 3));
    assert!(iter.is_valid());
    assert_eq!(iter.key().bytes.as_slice(), b"b");
    assert_eq!(iter.key().version, 3);
    assert_eq!(iter.value(), b"vb3");
}

#[test]
fn seek_to_key_past_everything_is_invalid() {
    let block = seek_block();
    let iter = BlockIterator::create_and_seek_to_key(Arc::clone(&block), &key(b"d", 0));
    assert!(!iter.is_valid());
}

#[test]
fn seek_to_key_before_everything_lands_on_first() {
    let block = seek_block();
    let iter = BlockIterator::create_and_seek_to_key(Arc::clone(&block), &key(b"A", 1));
    assert!(iter.is_valid());
    assert_eq!(iter.key().bytes.as_slice(), b"a");
    assert_eq!(iter.key().version, 5);
}

#[test]
fn first_entry_always_accepted_even_over_budget() {
    let mut builder = BlockBuilder::new(16);
    let big_value = vec![0x2au8; 200];
    assert!(builder.add(&key(b"huge", 1), big_value.as_slice()));
    // the block is already over budget, so the next entry is refused
    assert!(!builder.add(&key(b"tiny", 1), b"v"));
    let block = builder.build();
    let iter = BlockIterator::create_and_seek_to_first(Arc::new(block));
    assert!(iter.is_valid());
    assert_eq!(iter.key().bytes.as_slice(), b"huge");
    assert_eq!(iter.value(), big_value.as_slice());
}

#[test]
fn add_refuses_when_full_and_builder_keeps_state() {
    let mut builder = BlockBuilder::new(64);
    assert!(builder.add(&key(b"k1", 1), b"value-one"));
    assert!(builder.add(&key(b"k2", 1), b"value-two"));
    // this one would push the estimated size past 64 bytes
    assert!(!builder.add(&key(b"k3", 1), b"value-three"));
    assert!(!builder.is_empty());
    let block = builder.build();
    let mut iter = BlockIterator::create_and_seek_to_first(Arc::new(block));
    assert_eq!(iter.key().bytes.as_slice(), b"k1");
    iter.next();
    assert_eq!(iter.key().bytes.as_slice(), b"k2");
    iter.next();
    assert!(!iter.is_valid());
}

#[test]
fn is_empty_reflects_added_entries() {
    let mut builder = BlockBuilder::new(4096);
    assert!(builder.is_empty());
    assert!(builder.add(&key(b"k", 1), b"v"));
    assert!(!builder.is_empty());
}

#[test]
fn reads_do_not_change_iterator_state() {
    let block = seek_block();
    let mut iter = BlockIterator::create_and_seek_to_first(Arc::clone(&block));
    assert!(iter.is_valid());
    assert!(iter.is_valid());
    let k1: Vec<u8> = iter.key().bytes.clone();
    let v1: Vec<u8> = iter.value().to_vec();
    let k2: Vec<u8> = iter.key().bytes.clone();
    let v2: Vec<u8> = iter.value().to_vec();
    assert_eq!(k1, k2);
    assert_eq!(v1, v2);
    assert_eq!(iter.key().version, 5);
    // the iterator still advances normally afterwards
    iter.next();
    assert_eq!(iter.key().bytes.as_slice(), b"b");
}

#[test]
fn versions_sort_descending_within_a_user_key() {
    let mut builder = BlockBuilder::new(4096);
    assert!(builder.add(&key(b"k", 9), b"newest"));
    assert!(builder.add(&key(b"k", 5), b"middle"));
    assert!(builder.add(&key(b"k", 1), b"oldest"));
    let block = Arc::new(builder.build());
    let mut iter = BlockIterator::create_and_seek_to_first(Arc::clone(&block));
    assert_eq!(iter.key().version, 9);
    iter.next();
    assert_eq!(iter.key().version, 5);
    iter.next();
    assert_eq!(iter.key().version, 1);
    // seeking ("k",7) lands on ("k",5): versions tie-break descending
    let seek = BlockIterator::create_and_seek_to_key(Arc::clone(&block), &key(b"k", 7));
    assert_eq!(seek.key().version, 5);
}

#[test]
fn large_version_numbers_round_trip() {
    let mut builder = BlockBuilder::new(4096);
    assert!(builder.add(&key(b"k", u64::MAX), b"v"));
    assert!(builder.add(&key(b"k", 0x0123_4567_89ab_cdef), b"w"));
    let block = builder.build();
    let mut iter = BlockIterator::create_and_seek_to_first(Arc::new(block));
    assert_eq!(iter.key().version, u64::MAX);
    iter.next();
    assert_eq!(iter.key().version, 0x0123_4567_89ab_cdef);
}
