//! Forward scan of a log image into the entries it holds.
use vstd::prelude::*;

use crate::codec::{body_len, header_at, copy_range, key_len_of, value_len_of};

verus! {

/// An entry of the log as a mathematical value.
pub ghost struct LogEntry {
    pub key: Seq<u8>,
    pub offset: nat,
    pub length: nat,
    pub deleted: bool,
}

/// What the scan makes of the bytes `b` at a record boundary: the key, the
/// record's total length and whether it is a tombstone.  The scan needs the
/// whole header and the whole key; the value is skipped and may be cut short.
/// A record whose length does not fit a `u32` ends the scan too.
pub open spec fn scan_head(b: Seq<u8>) -> Option<(Seq<u8>, nat, bool)> {
    if b.len() < 8 {
        None
    } else {
        let k = key_len_of(b);
        let v = value_len_of(b);
        let total = 8 + k + body_len(v);
        if b.len() < 8 + k || total > u32::MAX {
            None
        } else {
            Some((b.subrange(8, 8 + k as int), total, v == -1))
        }
    }
}

/// The entries that a scan of `log` starting at `off` yields, in log order.
/// The scan stops silently at the end of the log or at the first header or
/// key that cannot be read in full.
pub open spec fn scan_from(log: Seq<u8>, off: nat) -> Seq<LogEntry>
    decreases log.len() - off,
{
    if off >= log.len() {
        seq![]
    } else {
        match scan_head(log.subrange(off as int, log.len() as int)) {
            None => seq![],
            Some((key, n, deleted)) => seq![LogEntry { key, offset: off, length: n, deleted }] + if 0
                < n && off + n <= log.len() {
                scan_from(log, off + n)
            } else {
                seq![]
            },
        }
    }
}

/// The offset at which a scan of `log` starting at `off` stops.
pub open spec fn scan_end(log: Seq<u8>, off: nat) -> nat
    decreases log.len() - off,
{
    if off >= log.len() {
        off
    } else {
        match scan_head(log.subrange(off as int, log.len() as int)) {
            None => off,
            Some((_, n, _)) => if 0 < n && off + n <= log.len() {
                scan_end(log, off + n)
            } else {
                off + n
            },
        }
    }
}

/// All the entries of a log.
pub open spec fn scan_log(log: Seq<u8>) -> Seq<LogEntry> {
    scan_from(log, 0)
}

/// A log is clean when its records end exactly at its end: no torn or
/// unreadable tail.
pub open spec fn clean(log: Seq<u8>) -> bool {
    scan_end(log, 0) == log.len()
}

/// One entry of a log, as the scan reports it.
#[derive(Debug)]
pub struct Entry {
    pub key: Vec<u8>,
    pub offset: u64,
    pub length: u32,
    pub deleted: bool,
}

impl Entry {
    pub open spec fn view(&self) -> LogEntry {
        LogEntry {
            key: self.key@,
            offset: self.offset as nat,
            length: self.length as nat,
            deleted: self.deleted,
        }
    }
}

/// A forward-only scan over a log image, captured when the scan starts.
pub struct EntryIter<'a> {
    log: &'a [u8],
    offset: usize,
}

impl<'a> EntryIter<'a> {
    /// The log being scanned.
    pub closed spec fn log(&self) -> Seq<u8> {
        self.log@
    }

    /// The entries that the scan has yet to yield.
    pub closed spec fn rest(&self) -> Seq<LogEntry> {
        scan_from(self.log@, self.offset as nat)
    }

    /// Starts a scan at the beginning of `log`.
    pub fn new(log: &'a [u8]) -> (r: Self)
        ensures
            r.log() == log@,
            r.rest() == scan_log(log@),
    {
        EntryIter { log, offset: 0 }
    }

    /// The next entry, or `None` when the scan has ended.
    pub fn next(&mut self) -> (r: Option<Entry>)
        ensures
            final(self).log() == old(self).log(),
            match r {
                None => old(self).rest().len() == 0 && final(self).rest().len() == 0,
                Some(e) => old(self).rest().len() > 0 && e.view() == old(self).rest()[0]
                    && final(self).rest() == old(self).rest().drop_first(),
            },
    {
        let len = self.log.len();
        let off = self.offset;
        if off >= len || len - off < 8 {
            return None;
        }
        let ghost b = self.log@.subrange(off as int, len as int);
        let (k, v) = header_at(self.log, off);
        let total: u64 = 8 + k as u64 + if v >= 0 { v as u64 } else { 0 };
        if ((len - off) as u64) < 8 + k as u64 || total > u32::MAX as u64 {
            return None;
        }
        let key = copy_range(self.log, off + 8, off + 8 + k as usize);
        assert(key@ =~= b.subrange(8, 8 + k as int));
        let next_off = if total > (len - off) as u64 {
            len
        } else {
            off + total as usize
        };
        self.offset = next_off;
        assert(old(self).rest() =~= seq![Entry { key, offset: off as u64, length: total as u32, deleted: v == -1 }.view()] + scan_from(self.log@, (off + total) as nat));
        assert(old(self).rest().drop_first() =~= scan_from(self.log@, (off + total) as nat));
        Some(Entry { key, offset: off as u64, length: total as u32, deleted: v == -1 })
    }
}

/// All the entries of `log`, in log order.
pub fn scan(log: &[u8]) -> (r: Vec<Entry>)
    ensures
        r@.map_values(|e: Entry| e.view()) == scan_log(log@),
{
    let mut it = EntryIter::new(log);
    let mut out: Vec<Entry> = Vec::new();
    loop
        invariant
            it.log() == log@,
            out@.map_values(|e: Entry| e.view()) + it.rest() == scan_log(log@),
        decreases it.rest().len(),
    {
        match it.next() {
            None => {
                assert(it.rest() =~= seq![]);
                assert(out@.map_values(|e: Entry| e.view()) + it.rest() =~= out@.map_values(|e: Entry| e.view()));
                return out;
            },
            Some(e) => {
                let ghost before = out@.map_values(|e: Entry| e.view());
                out.push(e);
                assert(out@.map_values(|e: Entry| e.view()) =~= before.push(e.view()));
            },
        }
    }
}

} // verus!
