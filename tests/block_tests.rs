use std::sync::Arc;

use mini_lsm_core::block::Block;
use mini_lsm_core::block_iterator::BlockIterator;

fn entry_bytes(key: &[u8], value: &[u8]) -> Vec<u8> {
    let mut out = Vec::new();
    out.extend_from_slice(&(key.len() as u16).to_le_bytes());
    out.extend_from_slice(key);
    out.extend_from_slice(&(value.len() as u16).to_le_bytes());
    out.extend_from_slice(value);
    out
}

fn build_block(entries: &[(&[u8], &[u8])]) -> Block {
    let mut data = Vec::new();
    let mut offsets = Vec::new();
    for (k, v) in entries {
        offsets.push(data.len() as u16);
        data.extend_from_slice(&entry_bytes(k, v));
    }
    Block { data, offsets }
}

fn collect(iter: &mut BlockIterator) -> Vec<(Vec<u8>, Vec<u8>)> {
    let mut out = Vec::new();
    while iter.is_valid() {
        out.push((iter.key().to_vec(), iter.value().to_vec()));
        iter.next();
    }
    out
}

#[test]
fn encode_layout_is_exact() {
    let block = Block { data: vec![7, 8, 9], offsets: vec![0, 0x0102] };
    let encoded = block.encode();
    assert_eq!(&encoded[..], &[7, 8, 9, 0x00, 0x00, 0x02, 0x01, 0x00, 0x02][..]);
}

#[test]
fn encode_count_is_big_endian() {
    let offsets: Vec<u16> = (0..300u16).collect();
    let block = Block { data: vec![], offsets };
    let encoded = block.encode();
    let n = encoded.len();
    assert_eq!(n, 2 * 300 + 2);
    assert_eq!(encoded[n - 2], 0x01);
    assert_eq!(encoded[n - 1], 0x2c);
    assert_eq!(encoded[2 * 299], 0x2b);
    assert_eq!(encoded[2 * 299 + 1], 0x01);
}

#[test]
fn decode_reads_layout() {
    let buf = [1u8, 2, 3, 4, 5, 0x03, 0x00, 0x00, 0x01];
    let block = Block::decode(&buf);
    assert_eq!(block.data, vec![1, 2, 3, 4, 5]);
    assert_eq!(block.offsets, vec![3]);
}

#[test]
fn decode_empty_block() {
    let block = Block::decode(&[0, 0]);
    assert!(block.data.is_empty());
    assert!(block.offsets.is_empty());
}

#[test]
fn round_trip_keeps_data_and_offsets() {
    let block = build_block(&[(b"apple", b"red"), (b"banana", b"yellow"), (b"cherry", b"")]);
    let encoded = block.encode();
    let decoded = Block::decode(&encoded);
    assert_eq!(decoded.data, block.data);
    assert_eq!(decoded.offsets, block.offsets);
}

#[test]
fn iterates_entries_in_order() {
    let entries: Vec<(&[u8], &[u8])> =
        vec![(b"a", b"1"), (b"b", b"22"), (b"c", b""), (b"dd", b"4444")];
    let block = Arc::new(build_block(&entries));
    let mut iter = BlockIterator::create_and_seek_to_first(block);
    let got = collect(&mut iter);
    let want: Vec<(Vec<u8>, Vec<u8>)> =
        entries.iter().map(|(k, v)| (k.to_vec(), v.to_vec())).collect();
    assert_eq!(got, want);
    assert!(!iter.is_valid());
    assert!(iter.key().is_empty());
    assert!(iter.value().is_empty());
    iter.next();
    assert!(!iter.is_valid());
}

#[test]
fn empty_block_is_invalid() {
    let block = Arc::new(Block { data: vec![], offsets: vec![] });
    let iter = BlockIterator::create_and_seek_to_first(block);
    assert!(!iter.is_valid());
    assert!(iter.key().is_empty());
    assert!(iter.value().is_empty());
}

#[test]
fn decoded_block_iterates() {
    let block = build_block(&[(b"k1", b"v1"), (b"k2", b"v2")]);
    let decoded = Block::decode(&block.encode());
    let mut iter = BlockIterator::create_and_seek_to_first(Arc::new(decoded));
    assert_eq!(
        collect(&mut iter),
        vec![(b"k1".to_vec(), b"v1".to_vec()), (b"k2".to_vec(), b"v2".to_vec())]
    );
}

fn seek_block() -> Arc<Block> {
    Arc::new(build_block(&[(b"b", b"1"), (b"d", b"2"), (b"f", b"3")]))
}

#[test]
fn seek_below_minimum_lands_on_first() {
    let iter = BlockIterator::create_and_seek_to_key(seek_block(), b"a");
    assert_eq!(iter.key(), b"b");
    assert_eq!(iter.value(), b"1");
}

#[test]
fn seek_exact_key() {
    let iter = BlockIterator::create_and_seek_to_key(seek_block(), b"d");
    assert_eq!(iter.key(), b"d");
    assert_eq!(iter.value(), b"2");
}

#[test]
fn seek_between_keys() {
    let iter = BlockIterator::create_and_seek_to_key(seek_block(), b"e");
    assert_eq!(iter.key(), b"f");
    assert_eq!(iter.value(), b"3");
}

#[test]
fn seek_prefix_is_below_longer_key() {
    let block = Arc::new(build_block(&[(b"ab", b"1"), (b"abc", b"2")]));
    let iter = BlockIterator::create_and_seek_to_key(block, b"abb");
    assert_eq!(iter.key(), b"abc");
}

#[test]
fn seek_past_all_keys_is_invalid() {
    let iter = BlockIterator::create_and_seek_to_key(seek_block(), b"g");
    assert!(!iter.is_valid());
    assert!(iter.value().is_empty());
}

#[test]
fn seek_again_after_scan() {
    let mut iter = BlockIterator::create_and_seek_to_first(seek_block());
    iter.next();
    iter.next();
    iter.seek_to_key(b"c");
    assert_eq!(iter.key(), b"d");
    iter.seek_to_first();
    assert_eq!(iter.key(), b"b");
}

#[test]
fn well_formed_block_is_accepted() {
    let block = build_block(&[(b"a", b"1"), (b"b", b"2"), (b"c", b"")]);
    assert!(block.is_well_formed());
    assert!(Block { data: vec![], offsets: vec![] }.is_well_formed());
}

#[test]
fn unsorted_block_is_rejected() {
    let block = build_block(&[(b"b", b"1"), (b"a", b"2")]);
    assert!(!block.is_well_formed());
    let dup = build_block(&[(b"a", b"1"), (b"a", b"2")]);
    assert!(!dup.is_well_formed());
}

#[test]
fn empty_key_is_rejected() {
    let block = build_block(&[(b"", b"1")]);
    assert!(!block.is_well_formed());
}

#[test]
fn entry_past_data_is_rejected() {
    let block = Block { data: vec![1, 0, b'a', 0], offsets: vec![0] };
    assert!(!block.is_well_formed());
    let block = Block { data: vec![1, 0, b'a', 0, 0], offsets: vec![0, 9] };
    assert!(!block.is_well_formed());
}

#[test]
fn decoded_block_checked_before_iterating() {
    let block = build_block(&[(b"k", b"v")]);
    let decoded = Block::decode(&block.encode());
    assert!(decoded.is_well_formed());
    let garbage = Block::decode(&[9, 9, 9, 0, 0, 0, 1]);
    assert!(!garbage.is_well_formed());
}
