use zynk::block::{decode_block, DataBlock};
use zynk::errors::StoreError;
use zynk::format::{BlockHandle, FOOTER_SIZE, SSTABLE_MAGIC, SSTABLE_VERSION};
use zynk::index::Index;
use zynk::model::Entry;

fn sample_block() -> Vec<u8> {
    let mut b = DataBlock::new(64);
    b.add_put(b"apple".as_slice(), b"red".as_slice());
    b.add_delete(b"banana".as_slice());
    b.add_put(b"cherry".as_slice(), b"dark".as_slice());
    b.encode()
}

#[test]
fn block_layout_is_bit_exact() {
    let mut b = DataBlock::new(16);
    b.add_put(b"ab".as_slice(), b"xyz".as_slice());
    let out = b.encode();
    // tag 0, key_len 2 LE, value_len 3 LE, "ab", "xyz", then the CRC trailer.
    let payload = [0u8, 2, 0, 0, 0, 3, 0, 0, 0, b'a', b'b', b'x', b'y', b'z'];
    assert_eq!(&out[..14], &payload);
    assert_eq!(out.len(), 18);
    let mut h = crc32fast::Hasher::new();
    h.update(&payload);
    let crc = h.finalize();
    assert_eq!(&out[14..], &crc.to_le_bytes());
}

#[test]
fn delete_entry_has_tag_one_and_no_value() {
    let mut b = DataBlock::new(16);
    b.add_delete(b"k".as_slice());
    let out = b.encode();
    assert_eq!(&out[..10], &[1u8, 1, 0, 0, 0, 0, 0, 0, 0, b'k']);
}

#[test]
fn block_round_trip_reproduces_entries() {
    let out = sample_block();
    let es = decode_block(&out).expect("block decodes");
    assert_eq!(es.len(), 3);
    assert_eq!(es[0].0, b"apple");
    match &es[0].1 {
        Entry::Put(v) => assert_eq!(v, b"red"),
        Entry::Delete => panic!("expected a put"),
    }
    assert_eq!(es[1].0, b"banana");
    assert!(matches!(es[1].1, Entry::Delete));
    assert_eq!(es[2].0, b"cherry");
    match &es[2].1 {
        Entry::Put(v) => assert_eq!(v, b"dark"),
        Entry::Delete => panic!("expected a put"),
    }
}

#[test]
fn flipping_any_block_byte_is_caught() {
    let out = sample_block();
    for i in 0..out.len() {
        let mut bad = out.clone();
        bad[i] ^= 0x01;
        match decode_block(&bad) {
            Ok(_) => panic!("corrupted block decoded at byte {}", i),
            Err(StoreError::Corruption) => {}
            Err(e) => panic!("unexpected error {:?} at byte {}", e, i),
        }
    }
}

#[test]
fn short_block_is_a_short_read() {
    assert_eq!(decode_block(&[1, 2, 3]).unwrap_err(), StoreError::Truncated);
}

#[test]
fn bad_tag_is_malformed() {
    // A payload of one entry with tag 9, re-checksummed so only the tag is wrong.
    let payload = [9u8, 1, 0, 0, 0, 0, 0, 0, 0, b'k'];
    let mut h = crc32fast::Hasher::new();
    h.update(&payload);
    let crc = h.finalize();
    let mut out = payload.to_vec();
    out.extend_from_slice(&crc.to_le_bytes());
    assert_eq!(decode_block(&out).unwrap_err(), StoreError::Malformed);
}

#[test]
fn is_full_needs_target_and_one_entry() {
    let b = DataBlock::new(0);
    assert!(!b.is_full());
    assert!(b.is_empty());
    let mut b = DataBlock::new(4);
    b.add_put(b"a".as_slice(), b"b".as_slice());
    assert!(b.is_full());
    assert_eq!(b.len(), 1);
    let mut big = DataBlock::new(1_000_000);
    big.add_put(b"a".as_slice(), b"b".as_slice());
    assert!(!big.is_full());
}

#[test]
fn index_round_trip() {
    let mut ix = Index::new();
    ix.add(b"dog".as_slice(), BlockHandle { offset: 0, length: 40 });
    ix.add(b"fox".as_slice(), BlockHandle { offset: 40, length: 25 });
    let bytes = ix.encode();
    // count 2 LE, then (len 3, "dog", offset u64, length u32) twice, then CRC.
    assert_eq!(&bytes[..4], &[2, 0, 0, 0]);
    assert_eq!(bytes.len(), 4 + (4 + 3 + 8 + 4) * 2 + 4);
    let back = Index::decode(&bytes).expect("index decodes");
    let h = back.find_block(b"cat".as_slice()).expect("candidate exists");
    assert_eq!((h.offset, h.length), (0, 40));
}

#[test]
fn flipping_any_index_byte_is_caught() {
    let mut ix = Index::new();
    ix.add(b"dog".as_slice(), BlockHandle { offset: 0, length: 40 });
    let bytes = ix.encode();
    for i in 0..bytes.len() {
        let mut bad = bytes.clone();
        bad[i] ^= 0x80;
        match Index::decode(&bad) {
            Ok(_) => panic!("corrupted index decoded at byte {}", i),
            Err(StoreError::Corruption) => {}
            Err(e) => panic!("unexpected error {:?} at byte {}", e, i),
        }
    }
}

#[test]
fn truncated_index_is_a_short_read() {
    assert_eq!(Index::decode(&[0, 0, 0]).unwrap_err(), StoreError::Truncated);
    // A CRC-valid payload that promises more entries than it carries.
    let payload = [5u8, 0, 0, 0];
    let mut h = crc32fast::Hasher::new();
    h.update(&payload);
    let crc = h.finalize();
    let mut out = payload.to_vec();
    out.extend_from_slice(&crc.to_le_bytes());
    assert_eq!(Index::decode(&out).unwrap_err(), StoreError::Truncated);
}

#[test]
fn find_block_picks_the_ceiling_separator() {
    let mut ix = Index::new();
    ix.add(b"b".as_slice(), BlockHandle { offset: 0, length: 10 });
    ix.add(b"d".as_slice(), BlockHandle { offset: 10, length: 10 });
    ix.add(b"f".as_slice(), BlockHandle { offset: 20, length: 10 });
    // Below everything: first block.
    assert_eq!(ix.find_block(b"a".as_slice()).unwrap().offset, 0);
    // Exactly a separator: that separator's own block, not a neighbour.
    assert_eq!(ix.find_block(b"d".as_slice()).unwrap().offset, 10);
    // Between separators: the next one up.
    assert_eq!(ix.find_block(b"c".as_slice()).unwrap().offset, 10);
    // Above everything: falls back to the last block.
    assert_eq!(ix.find_block(b"zzz".as_slice()).unwrap().offset, 20);
    // An empty index has no candidate.
    let empty = Index::new();
    assert!(empty.find_block(b"a".as_slice()).is_none());
}

#[test]
fn footer_constants_match_the_format() {
    assert_eq!(FOOTER_SIZE, 24);
    assert_eq!(SSTABLE_VERSION, 1);
    assert_eq!(SSTABLE_MAGIC, 0xF3515A5453544142);
}

#[test]
fn error_descriptions_are_distinct() {
    assert_ne!(StoreError::Truncated.describe(), StoreError::Corruption.describe());
    assert_ne!(StoreError::Malformed.describe(), StoreError::TooLarge.describe());
}
