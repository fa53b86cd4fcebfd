//! The engine: requests, and the index kept consistent with the log.
use vstd::prelude::*;
use vstd::std_specs::convert::IntoSpec;

use crate::codec::{
    decode, decode_record, encode_put, encode_tombstone, put_fits, put_record, tombstone_fits,
    tombstone_record,
};
use crate::entry::{clean, scan_log, EntryIter};
use crate::index::{apply_entry, replay, HashIndex, Location};
use crate::log::{appended_entry, log_get, record_value, head_deleted, head_key, head_len, lemma_append_clean, lemma_put_record, lemma_tombstone_record, whole_record};

verus! {

/// A request to read the value stored under a key.
pub struct GetRequest {
    pub key: Vec<u8>,
}

impl GetRequest {
    pub fn new<K: Into<Vec<u8>>>(key: K) -> (r: Self)
        ensures
            K::obeys_into_spec() ==> r.key == key.into_spec(),
    {
        GetRequest { key: key.into() }
    }
}

/// A request to store a value under a key.  A request without a value is
/// refused.
pub struct PutRequest {
    pub key: Vec<u8>,
    pub value: Option<Vec<u8>>,
}

impl PutRequest {
    pub fn new<K: Into<Vec<u8>>, V: Into<Option<Vec<u8>>>>(key: K, value: V) -> (r: Self)
        ensures
            K::obeys_into_spec() ==> r.key == key.into_spec(),
            V::obeys_into_spec() ==> r.value == value.into_spec(),
    {
        PutRequest { key: key.into(), value: value.into() }
    }

    /// Whether the request carries a value.
    pub fn has_value(&self) -> (r: bool)
        ensures
            r == (self.value is Some),
    {
        self.value.is_some()
    }
}

/// A request to delete a key.
pub struct DelRequest {
    pub key: Vec<u8>,
}

impl DelRequest {
    pub fn new<K: Into<Vec<u8>>>(key: K) -> (r: Self)
        ensures
            K::obeys_into_spec() ==> r.key == key.into_spec(),
    {
        DelRequest { key: key.into() }
    }
}

/// The operations of a key-value store.
pub trait Engine {
    /// Stores `req.value` under `req.key`; `false` when the request has no
    /// value or the write failed.
    fn put(&mut self, req: PutRequest) -> bool;

    /// The value stored under `req.key`, as text.
    fn get(&mut self, req: GetRequest) -> Option<String>;

    /// Deletes `req.key`; `false` when the write failed.
    fn del(&mut self, req: DelRequest) -> bool;
}

/// Number of index buckets an engine starts with.
pub const INDEX_BUCKETS: usize = 1024;

/// The text that bytes read as: UTF-8, with each invalid sequence replaced.
pub uninterp spec fn lossy_text(b: Seq<u8>) -> Seq<char>;

/// Relies on `String::from_utf8_lossy`, whose result depends on the bytes alone.
#[verifier::external_body]
fn text_of(b: &[u8]) -> (r: String)
    ensures
        r@ == lossy_text(b@),
{
    String::from_utf8_lossy(b).into_owned()
}

/// What a read of the record in `entry` (one whole record, as read from the
/// log at an indexed location) answers: the value as text, a marker for a
/// tombstone, or `None` when the buffer does not decode.
pub open spec fn entry_answer(entry: Seq<u8>) -> Option<Seq<char>> {
    match decode_record(entry) {
        None => None,
        Some((_, None)) => Some("!Deleted"@),
        Some((_, Some(v))) => Some(lossy_text(v)),
    }
}

/// The value held by `entry`, which holds one whole record: its value as
/// text, `"!Deleted"` for a tombstone, or `None` when it does not decode.
pub fn get_value_from_entry(entry: &[u8]) -> (r: Option<String>)
    ensures
        match r {
            Some(t) => entry_answer(entry@) == Some(t@),
            None => entry_answer(entry@) is None,
        },
{
    match decode(entry) {
        None => None,
        Some(rec) => match rec.value {
            None => {
                let t = "!Deleted".to_owned();
                proof {
                    reveal_strlit("!Deleted");
                }
                Some(t)
            },
            Some(v) => Some(text_of(v.as_slice())),
        },
    }
}

/// The engine's state: the index of the log, and the log's length.  The log
/// itself is read and written by the caller; the engine says which bytes to
/// append and where to read, and is told of each append.
pub struct Bitcask {
    index: HashIndex,
    end: u64,
    log: Ghost<Seq<u8>>,
    opened_clean: Ghost<bool>,
}

impl Bitcask {
    /// The log's contents, as far as the engine has been told of them.
    pub closed spec fn log(&self) -> Seq<u8> {
        self.log@
    }

    /// Each key's location in the log.
    pub closed spec fn locations(&self) -> Map<Seq<u8>, (nat, nat)> {
        self.index@
    }

    /// The value that a read of `k` finds: the value of the record at `k`'s
    /// location in the log.
    pub open spec fn read(&self, k: Seq<u8>) -> Option<Seq<u8>> {
        if self.locations().contains_key(k) {
            let loc = self.locations()[k];
            record_value(self.log().subrange(loc.0 as int, (loc.0 + loc.1) as int))
        } else {
            None
        }
    }

    /// Whether the engine was opened on a clean log.  Appends keep such a log
    /// clean.
    pub closed spec fn opened_clean(&self) -> bool {
        self.opened_clean@
    }

    /// The engine is consistent: it knows the log's length, and when it was
    /// opened on a clean log, the log is still clean and its index is the one
    /// that replaying the log builds.
    pub closed spec fn wf(&self) -> bool {
        &&& self.index.wf()
        &&& self.end as nat == self.log@.len()
        &&& self.opened_clean@ ==> clean(self.log@) && self.index@ == replay(scan_log(self.log@))
    }

    /// Opens the engine over the log's current contents, replaying every entry
    /// into the index in log order.
    pub fn open(log: &[u8]) -> (r: Bitcask)
        ensures
            r.wf(),
            r.log() == log@,
            r.locations() == replay(scan_log(log@)),
            r.opened_clean() == clean(log@),
    {
        let mut index = HashIndex::new(INDEX_BUCKETS);
        index.rebuild_from(EntryIter::new(log));
        assert(index@ == replay(scan_log(log@)));
        Bitcask { index, end: log.len() as u64, log: Ghost(log@), opened_clean: Ghost(clean(log@)) }
    }

    /// The log's length in bytes: the offset at which the next record goes.
    pub fn end(&self) -> (r: u64)
        requires
            self.wf(),
        ensures
            r == self.log().len(),
    {
        self.end
    }

    /// The record that `req` appends: `None` when the request has no value or
    /// its record cannot be written (the value length does not fit the signed
    /// field, the record's length does not fit a `u32`, or the log would pass
    /// `u64::MAX` bytes).
    pub fn put_record(&self, req: &PutRequest) -> (r: Option<Vec<u8>>)
        requires
            self.wf(),
        ensures
            r is Some <==> (req.value matches Some(v) && put_fits(req.key@.len(), v@.len())
                && self.log().len() + put_record(req.key@, v@).len() <= u64::MAX),
            r matches Some(rec) ==> req.value matches Some(v) && rec@ == put_record(req.key@, v@)
                && whole_record(rec@) && head_key(rec@) == req.key@ && !head_deleted(rec@),
    {
        match &req.value {
            None => None,
            Some(v) => {
                let k = req.key.len() as u64;
                let n = v.len() as u64;
                if n >= 0x8000_0000 || k > u32::MAX as u64 || 8 + k + n > u32::MAX as u64 {
                    return None;
                }
                if self.end > u64::MAX - (8 + k + n) {
                    return None;
                }
                proof {
                    lemma_put_record(req.key@, v@);
                }
                Some(encode_put(&req.key, v))
            },
        }
    }

    /// The tombstone that `req` appends: `None` when its length does not fit
    /// a `u32` or the log would pass `u64::MAX` bytes.
    pub fn del_record(&self, req: &DelRequest) -> (r: Option<Vec<u8>>)
        requires
            self.wf(),
        ensures
            r is Some <==> (tombstone_fits(req.key@.len()) && self.log().len() + tombstone_record(
                req.key@,
            ).len() <= u64::MAX),
            r matches Some(rec) ==> rec@ == tombstone_record(req.key@) && whole_record(rec@)
                && head_key(rec@) == req.key@ && head_deleted(rec@),
    {
        let k = req.key.len() as u64;
        if k > u32::MAX as u64 - 8 {
            return None;
        }
        if self.end > u64::MAX - (8 + k) {
            return None;
        }
        proof {
            lemma_tombstone_record(req.key@);
        }
        Some(encode_tombstone(&req.key))
    }

    /// Takes note that `record` now stands at the end of the log: its key's
    /// location becomes the record's, or, for a tombstone, the key leaves the
    /// index.  A buffer that is not exactly one record the scan reads in full,
    /// or that would take the log past `u64::MAX` bytes, changes nothing.
    pub fn commit_record(&mut self, record: &[u8]) -> (r: bool)
        requires
            old(self).wf(),
        ensures
            final(self).wf(),
            r == (whole_record(record@) && old(self).log().len() + record@.len() <= u64::MAX),
            r ==> final(self).log() == old(self).log() + record@ && final(self).locations()
                == apply_entry(old(self).locations(), appended_entry(record@, old(self).log().len())),
            !r ==> final(self).log() == old(self).log() && final(self).locations() == old(
                self,
            ).locations(),
            final(self).opened_clean() == old(self).opened_clean(),
    {
        let mut it = EntryIter::new(record);
        assert(record@.subrange(0, record@.len() as int) =~= record@);
        let Some(e) = it.next() else {
            return false;
        };
        assert(e.view().key == head_key(record@) && e.view().deleted == head_deleted(record@)
            && e.view().length == head_len(record@));
        if e.length as usize != record.len() || self.end > u64::MAX - e.length as u64 {
            return false;
        }
        let ghost old_log = self.log@;
        if e.deleted {
            self.index.remove(e.key.as_slice());
        } else {
            self.index.insert(e.key.as_slice(), Location { offset: self.end, length: e.length });
        }
        self.end = self.end + e.length as u64;
        self.log = Ghost(old_log + record@);
        proof {
            if self.opened_clean@ {
                lemma_append_clean(old_log, record@);
            }
        }
        true
    }

    /// The location of the latest record of `req.key`, if the key is live.
    pub fn locate(&self, req: &GetRequest) -> (r: Option<Location>)
        requires
            self.wf(),
        ensures
            match r {
                Some(loc) => self.locations().contains_key(req.key@) && self.locations()[req.key@]
                    == loc@,
                None => !self.locations().contains_key(req.key@),
            },
    {
        self.index.lookup(req.key.as_slice())
    }
}

/// Reopening: for an engine opened on a clean log, whatever puts and deletes
/// followed, the index it holds is the one that replaying its log rebuilds,
/// so an engine opened afresh on the same log answers every read as this one
/// does.
pub proof fn lemma_reopen_same_index(e: &Bitcask)
    requires
        e.wf(),
        e.opened_clean(),
    ensures
        clean(e.log()),
        replay(scan_log(e.log())) == e.locations(),
        forall|k: Seq<u8>| #[trigger] e.read(k) == log_get(e.log(), k),
{
}

} // verus!
