use std::collections::HashMap;

use kvcache::engine::{get_value_from_entry, Bitcask, DelRequest, Engine, GetRequest, PutRequest};
use random_word::Lang;

/// A store whose log lives in memory.
struct MemStore {
    log: Vec<u8>,
    db: Bitcask,
}

impl MemStore {
    fn open(log: Vec<u8>) -> Self {
        let db = Bitcask::open(&log);
        MemStore { log, db }
    }

    fn append(&mut self, record: Vec<u8>) -> bool {
        self.log.extend_from_slice(&record);
        self.db.commit_record(&record)
    }
}

impl Engine for MemStore {
    fn put(&mut self, req: PutRequest) -> bool {
        match self.db.put_record(&req) {
            Some(record) => self.append(record),
            None => false,
        }
    }

    fn get(&mut self, req: GetRequest) -> Option<String> {
        let loc = self.db.locate(&req)?;
        let start = loc.offset as usize;
        let end = start + loc.length as usize;
        if end > self.log.len() {
            return None;
        }
        get_value_from_entry(&self.log[start..end])
    }

    fn del(&mut self, req: DelRequest) -> bool {
        match self.db.del_record(&req) {
            Some(record) => self.append(record),
            None => false,
        }
    }
}

fn put(s: &mut MemStore, k: &str, v: &str) -> bool {
    s.put(PutRequest::new(k, Some(v.to_string().into_bytes())))
}

fn get(s: &mut MemStore, k: &str) -> Option<String> {
    s.get(GetRequest::new(k))
}

#[test]
fn test_repo_disk() {
    let mut repo = MemStore::open(Vec::new());
    let put = PutRequest::new("a", Some("abcd".to_string().into_bytes()));
    repo.put(put);
    let get = GetRequest::new("a");
    let v = repo.get(get);
    assert_eq!(v, Some("abcd".to_string()));
}

#[test]
fn test_repo_disk_2() {
    let words: HashMap<&str, &str> = random_word::all(Lang::Zh)
        .iter()
        .step_by(1024)
        .take(500)
        .copied()
        .filter_map(|s| s.split_once(' '))
        .collect();

    let mut repo = MemStore::open(Vec::new());
    for (k, v) in words.iter() {
        let put = PutRequest::new(*k, Some(v.to_string().into_bytes()));
        repo.put(put);
    }
    for (k, v) in words.iter() {
        let get = GetRequest::new(*k);
        let vv = repo.get(get);
        assert_eq!(vv, Some(v.to_string()));
    }
}

#[test]
fn test_repo_disk_build_index() {
    let log = {
        let mut repo = MemStore::open(Vec::new());
        let insert_data = vec![("key1", "value1"), ("key2", "value2"), ("key3", "value3")];
        for (k, v) in insert_data {
            let put = PutRequest::new(k, Some(v.to_string().into_bytes()));
            repo.put(put);
        }
        repo.log
    };
    {
        let mut repo = MemStore::open(log);
        let insert_data = vec![("key1", "value1"), ("key2", "value2"), ("key3", "value3")];
        for (k, v) in insert_data {
            let get = GetRequest::new(k);
            let vv = repo.get(get);
            assert_eq!(vv, Some(v.to_string()));
        }
    }
}

#[test]
fn round_trip_with_other_keys_in_between() {
    let mut s = MemStore::open(Vec::new());
    assert!(put(&mut s, "k", "v"));
    assert!(put(&mut s, "other", "x"));
    assert!(s.del(DelRequest::new("third")));
    assert!(s.del(DelRequest::new("other")));
    assert_eq!(get(&mut s, "k"), Some("v".to_string()));
    assert_eq!(get(&mut s, "other"), None);
}

#[test]
fn last_write_wins() {
    let mut s = MemStore::open(Vec::new());
    assert!(put(&mut s, "k", "v1"));
    assert!(put(&mut s, "k", "v2"));
    assert_eq!(get(&mut s, "k"), Some("v2".to_string()));
}

#[test]
fn tombstone_hides_value() {
    let mut s = MemStore::open(Vec::new());
    assert!(put(&mut s, "k", "v"));
    assert!(s.del(DelRequest::new("k")));
    assert_eq!(get(&mut s, "k"), None);
}

#[test]
fn delete_then_put_again() {
    let mut s = MemStore::open(Vec::new());
    assert!(put(&mut s, "a", "x"));
    assert!(s.del(DelRequest::new("a")));
    assert_eq!(get(&mut s, "a"), None);
    assert!(put(&mut s, "a", "y"));
    assert_eq!(get(&mut s, "a"), Some("y".to_string()));
}

#[test]
fn reopen_answers_as_before() {
    let mut s = MemStore::open(Vec::new());
    assert!(put(&mut s, "a", "1"));
    assert!(put(&mut s, "b", "2"));
    assert!(put(&mut s, "a", "3"));
    assert!(s.del(DelRequest::new("b")));
    assert!(put(&mut s, "c", ""));
    let keys = ["a", "b", "c", "d"];
    let before: Vec<Option<String>> = keys.iter().map(|k| get(&mut s, k)).collect();
    let mut t = MemStore::open(s.log.clone());
    let after: Vec<Option<String>> = keys.iter().map(|k| get(&mut t, k)).collect();
    assert_eq!(before, after);
    assert_eq!(after, vec![Some("3".to_string()), None, Some(String::new()), None]);
    assert_eq!(t.db.end(), s.db.end());
}

#[test]
fn log_grows_by_record_lengths() {
    let mut s = MemStore::open(Vec::new());
    assert_eq!(s.db.end(), 0);
    assert!(put(&mut s, "a", "abcd"));
    assert_eq!(s.db.end(), 8 + 1 + 4);
    assert!(s.del(DelRequest::new("a")));
    assert_eq!(s.db.end(), 13 + 8 + 1);
    assert!(put(&mut s, "key", ""));
    assert_eq!(s.db.end(), 22 + 8 + 3);
    assert_eq!(s.log.len() as u64, s.db.end());
}

#[test]
fn delete_missing_key_appends_tombstone() {
    let mut s = MemStore::open(Vec::new());
    assert!(s.del(DelRequest::new("never")));
    assert_eq!(s.log, vec![5, 0, 0, 0, 0xff, 0xff, 0xff, 0xff, b'n', b'e', b'v', b'e', b'r']);
    assert_eq!(s.db.end(), 13);
    assert!(s.db.locate(&GetRequest::new("never")).is_none());
    assert_eq!(get(&mut s, "never"), None);
}

#[test]
fn put_without_value_is_refused() {
    let mut s = MemStore::open(Vec::new());
    let req = PutRequest::new("a", None);
    assert!(!req.has_value());
    assert!(s.db.put_record(&req).is_none());
    assert!(!s.put(req));
    assert!(s.log.is_empty());
    assert_eq!(s.db.end(), 0);
}

#[test]
fn located_record_spans_whole_record() {
    let mut s = MemStore::open(Vec::new());
    assert!(put(&mut s, "x", "12"));
    assert!(put(&mut s, "ab", "cde"));
    let loc = s.db.locate(&GetRequest::new("ab")).unwrap();
    assert_eq!(loc.offset, 11);
    assert_eq!(loc.length, 8 + 2 + 3);
}

#[test]
fn open_stops_at_torn_tail() {
    let mut s = MemStore::open(Vec::new());
    assert!(put(&mut s, "a", "1"));
    assert!(put(&mut s, "b", "2"));
    let mut log = s.log.clone();
    log.truncate(log.len() - 7);
    let mut t = MemStore::open(log);
    assert_eq!(get(&mut t, "a"), Some("1".to_string()));
    assert_eq!(get(&mut t, "b"), None);
}

#[test]
fn commit_refuses_partial_record() {
    let mut s = MemStore::open(Vec::new());
    assert!(!s.db.commit_record(&[1, 0, 0, 0, 1, 0]));
    assert!(!s.db.commit_record(&[1, 0, 0, 0, 1, 0, 0, 0, b'a', b'b', b'c']));
    assert_eq!(s.db.end(), 0);
}
