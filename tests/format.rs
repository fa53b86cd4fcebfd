use kvcache::codec::{decode, decode_header, encode_put, encode_tombstone};
use kvcache::engine::{get_value_from_entry, DelRequest, GetRequest, PutRequest};
use kvcache::entry::{scan, EntryIter};
use kvcache::index::{HashIndex, Location};

#[test]
fn put_record_layout() {
    let r = encode_put(&b"a".to_vec(), &b"abcd".to_vec());
    assert_eq!(r, vec![1, 0, 0, 0, 4, 0, 0, 0, b'a', b'a', b'b', b'c', b'd']);
}

#[test]
fn put_record_layout_large_lengths() {
    let key = vec![7u8; 300];
    let value = vec![9u8; 70000];
    let r = encode_put(&key, &value);
    assert_eq!(&r[0..8], &[0x2c, 0x01, 0, 0, 0x70, 0x11, 0x01, 0]);
    assert_eq!(r.len(), 8 + 300 + 70000);
}

#[test]
fn tombstone_layout() {
    let r = encode_tombstone(&b"a".to_vec());
    assert_eq!(r, vec![1, 0, 0, 0, 0xff, 0xff, 0xff, 0xff, b'a']);
}

#[test]
fn header_decodes_lengths() {
    assert_eq!(decode_header(&[3, 1, 0, 0, 0xfe, 0xff, 0xff, 0xff]), Some((259, -2)));
    assert_eq!(decode_header(&[0, 0, 0, 0, 0xff, 0xff, 0xff, 0x7f, 1]), Some((0, i32::MAX)));
    assert_eq!(decode_header(&[1, 0, 0, 0, 0xff, 0xff, 0xff]), None);
}

#[test]
fn decode_round_trip() {
    let r = encode_put(&b"key".to_vec(), &b"value".to_vec());
    let rec = decode(&r).unwrap();
    assert_eq!(rec.key, b"key".to_vec());
    assert_eq!(rec.value, Some(b"value".to_vec()));
    assert!(!rec.is_deleted());
    let t = decode(&encode_tombstone(&b"key".to_vec())).unwrap();
    assert_eq!(t.key, b"key".to_vec());
    assert!(t.is_deleted());
}

#[test]
fn decode_short_buffer_fails() {
    let r = encode_put(&b"key".to_vec(), &b"value".to_vec());
    assert!(decode(&r[..r.len() - 1]).is_none());
    assert!(decode(&r[..5]).is_none());
    assert!(decode(&[]).is_none());
}

#[test]
fn negative_value_length_other_than_tombstone() {
    let buf = [1, 0, 0, 0, 0xfe, 0xff, 0xff, 0xff, b'k'];
    let rec = decode(&buf).unwrap();
    assert_eq!(rec.value, Some(Vec::new()));
    let entries = scan(&buf);
    assert_eq!(entries.len(), 1);
    assert_eq!(entries[0].length, 9);
    assert!(!entries[0].deleted);
}

#[test]
fn value_text_and_markers() {
    let r = encode_put(&b"a".to_vec(), &b"abcd".to_vec());
    assert_eq!(get_value_from_entry(&r), Some("abcd".to_string()));
    let t = encode_tombstone(&b"a".to_vec());
    assert_eq!(get_value_from_entry(&t), Some("!Deleted".to_string()));
    assert_eq!(get_value_from_entry(&r[..4]), None);
}

#[test]
fn invalid_utf8_is_replaced() {
    let r = encode_put(&b"a".to_vec(), &vec![b'x', 0xff, b'y']);
    assert_eq!(get_value_from_entry(&r), Some("x\u{FFFD}y".to_string()));
}

#[test]
fn scan_reports_every_record() {
    let mut log = encode_put(&b"a".to_vec(), &b"abcd".to_vec());
    log.extend(encode_tombstone(&b"a".to_vec()));
    log.extend(encode_put(&b"bc".to_vec(), &Vec::new()));
    let es = scan(&log);
    assert_eq!(es.len(), 3);
    assert_eq!((es[0].key.clone(), es[0].offset, es[0].length, es[0].deleted), (b"a".to_vec(), 0, 13, false));
    assert_eq!((es[1].key.clone(), es[1].offset, es[1].length, es[1].deleted), (b"a".to_vec(), 13, 9, true));
    assert_eq!((es[2].key.clone(), es[2].offset, es[2].length, es[2].deleted), (b"bc".to_vec(), 22, 10, false));
}

#[test]
fn scan_stops_at_short_header_or_key() {
    let mut log = encode_put(&b"a".to_vec(), &b"1".to_vec());
    log.extend_from_slice(&[5, 0, 0]);
    assert_eq!(scan(&log).len(), 1);
    let mut log2 = encode_put(&b"a".to_vec(), &b"1".to_vec());
    log2.extend_from_slice(&[5, 0, 0, 0, 1, 0, 0, 0, b'k']);
    assert_eq!(scan(&log2).len(), 1);
    assert!(scan(&[]).is_empty());
}

#[test]
fn scan_reports_record_with_cut_value() {
    let r = encode_put(&b"k".to_vec(), &b"value".to_vec());
    let es = scan(&r[..r.len() - 2]);
    assert_eq!(es.len(), 1);
    assert_eq!(es[0].length, 14);
}

#[test]
fn entry_iter_steps_in_order() {
    let mut log = encode_put(&b"a".to_vec(), &b"1".to_vec());
    log.extend(encode_put(&b"b".to_vec(), &b"2".to_vec()));
    let mut it = EntryIter::new(&log);
    assert_eq!(it.next().unwrap().key, b"a".to_vec());
    let second = it.next().unwrap();
    assert_eq!((second.key, second.offset), (b"b".to_vec(), 10));
    assert!(it.next().is_none());
    assert!(it.next().is_none());
}

#[test]
fn index_insert_lookup_remove() {
    let mut idx = HashIndex::new(0);
    assert_eq!(idx.lookup(b"k"), None);
    idx.insert(b"k", Location { offset: 5, length: 10 });
    idx.insert(b"j", Location { offset: 1, length: 2 });
    assert_eq!(idx.lookup(b"k"), Some(Location { offset: 5, length: 10 }));
    idx.insert(b"k", Location { offset: 7, length: 11 });
    assert_eq!(idx.lookup(b"k"), Some(Location { offset: 7, length: 11 }));
    idx.remove(b"k");
    assert_eq!(idx.lookup(b"k"), None);
    idx.remove(b"k");
    assert_eq!(idx.lookup(b"j"), Some(Location { offset: 1, length: 2 }));
}

#[test]
fn index_with_many_keys() {
    let mut idx = HashIndex::new(16);
    for i in 0..1000u32 {
        idx.insert(&i.to_le_bytes(), Location { offset: i as u64, length: i });
    }
    for i in (0..1000u32).step_by(2) {
        idx.remove(&i.to_le_bytes());
    }
    for i in 0..1000u32 {
        let want = if i % 2 == 0 { None } else { Some(Location { offset: i as u64, length: i }) };
        assert_eq!(idx.lookup(&i.to_le_bytes()), want);
    }
}

#[test]
fn index_rebuilt_from_scan() {
    let mut log = encode_put(&b"a".to_vec(), &b"1".to_vec());
    log.extend(encode_put(&b"b".to_vec(), &b"2".to_vec()));
    log.extend(encode_tombstone(&b"a".to_vec()));
    log.extend(encode_put(&b"b".to_vec(), &b"33".to_vec()));
    let mut idx = HashIndex::new(4);
    idx.rebuild_from(EntryIter::new(&log));
    assert_eq!(idx.lookup(b"a"), None);
    assert_eq!(idx.lookup(b"b"), Some(Location { offset: 29, length: 11 }));
}

#[test]
fn requests_hold_their_bytes() {
    assert_eq!(GetRequest::new("ab").key, b"ab".to_vec());
    assert_eq!(DelRequest::new(vec![1u8, 2]).key, vec![1, 2]);
    let p = PutRequest::new("k", Some(b"v".to_vec()));
    assert!(p.has_value());
    assert_eq!(p.value, Some(b"v".to_vec()));
}
