//! The log as a whole: what a reader finds in it for a key, and the laws that
//! appending records obeys.
use vstd::prelude::*;

use crate::codec::{
    body_len, decode_record, key_len_of, le32, lemma_le32_round_trip, put_fits, put_record,
    tombstone_fits, tombstone_record, value_len_of, TOMBSTONE_FIELD,
};
use crate::entry::{clean, scan_end, scan_from, scan_head, scan_log, LogEntry};
use crate::index::{apply_entries, apply_entry, replay};

verus! {

/// The value held by a buffer that is one whole live record.
pub open spec fn record_value(b: Seq<u8>) -> Option<Seq<u8>> {
    match decode_record(b) {
        Some((_, Some(v))) => Some(v),
        _ => None,
    }
}

/// The value that a reader of `log` finds under `k`: the value of the record
/// that the index rebuilt from the log points at.
pub open spec fn log_get(log: Seq<u8>, k: Seq<u8>) -> Option<Seq<u8>> {
    let m = replay(scan_log(log));
    if m.contains_key(k) {
        record_value(log.subrange(m[k].0 as int, (m[k].0 + m[k].1) as int))
    } else {
        None
    }
}

/// The key of the record at the start of `b`, as the scan reads it.
pub open spec fn head_key(b: Seq<u8>) -> Seq<u8> {
    match scan_head(b) {
        Some((k, _, _)) => k,
        None => seq![],
    }
}

/// The length of the record at the start of `b`, as the scan reads it.
pub open spec fn head_len(b: Seq<u8>) -> nat {
    match scan_head(b) {
        Some((_, n, _)) => n,
        None => 0,
    }
}

/// Whether the record at the start of `b` is a tombstone, as the scan reads it.
pub open spec fn head_deleted(b: Seq<u8>) -> bool {
    match scan_head(b) {
        Some((_, _, d)) => d,
        None => false,
    }
}

/// The entry that the scan reports for a record appended at offset `at`.
pub open spec fn appended_entry(record: Seq<u8>, at: nat) -> LogEntry {
    LogEntry {
        key: head_key(record),
        offset: at,
        length: record.len(),
        deleted: head_deleted(record),
    }
}

/// `record` is exactly one record that the scan reads in full.
pub open spec fn whole_record(record: Seq<u8>) -> bool {
    scan_head(record) matches Some((_, n, _)) && n == record.len()
}

/// An operation on the store, as the record that it appends.
pub ghost enum LogOp {
    Put(Seq<u8>, Seq<u8>),
    Del(Seq<u8>),
}

impl LogOp {
    pub open spec fn key(self) -> Seq<u8> {
        match self {
            LogOp::Put(k, _) => k,
            LogOp::Del(k) => k,
        }
    }

    pub open spec fn record(self) -> Seq<u8> {
        match self {
            LogOp::Put(k, v) => put_record(k, v),
            LogOp::Del(k) => tombstone_record(k),
        }
    }

    /// The operation's record can be written.
    pub open spec fn fits(self) -> bool {
        match self {
            LogOp::Put(k, v) => put_fits(k.len(), v.len()),
            LogOp::Del(k) => tombstone_fits(k.len()),
        }
    }
}

/// The log after the operations `ops`, in order.
pub open spec fn apply_ops(log: Seq<u8>, ops: Seq<LogOp>) -> Seq<u8>
    decreases ops.len(),
{
    if ops.len() == 0 {
        log
    } else {
        apply_ops(log, ops.drop_last()) + ops.last().record()
    }
}

/// The total length of the records of `ops`.
pub open spec fn ops_len(ops: Seq<LogOp>) -> nat
    decreases ops.len(),
{
    if ops.len() == 0 {
        0
    } else {
        ops_len(ops.drop_last()) + ops.last().record().len()
    }
}

proof fn lemma_head_extend(b: Seq<u8>, rest: Seq<u8>)
    requires
        scan_head(b) is Some,
    ensures
        scan_head(b + rest) == scan_head(b),
{
    let c = b + rest;
    assert(c.subrange(0, 4) =~= b.subrange(0, 4));
    assert(c.subrange(4, 8) =~= b.subrange(4, 8));
    let k = key_len_of(b);
    assert(c.subrange(8, 8 + k as int) =~= b.subrange(8, 8 + k as int));
}

proof fn lemma_scan_append(log: Seq<u8>, rec: Seq<u8>, off: nat)
    requires
        off <= log.len(),
        scan_end(log, off) == log.len(),
        whole_record(rec),
    ensures
        scan_from(log + rec, off) == scan_from(log, off).push(appended_entry(rec, log.len())),
        scan_end(log + rec, off) == log.len() + rec.len(),
    decreases log.len() - off,
{
    let l = log + rec;
    if off == log.len() {
        assert(l.subrange(off as int, l.len() as int) =~= rec);
        assert(scan_from(log, off) =~= seq![]);
        assert(scan_from(l, off + rec.len()) =~= seq![]);
        assert(scan_end(l, off + rec.len()) == l.len());
        assert(scan_from(l, off) =~= scan_from(log, off).push(appended_entry(rec, log.len())));
    } else {
        let b = log.subrange(off as int, log.len() as int);
        assert(l.subrange(off as int, l.len() as int) =~= b + rec);
        lemma_head_extend(b, rec);
        let n = head_len(b);
        lemma_scan_append(log, rec, off + n);
        assert(scan_from(l, off) =~= scan_from(log, off).push(appended_entry(rec, log.len())));
    }
}

/// Appending one whole record to a clean log keeps it clean, and its scan
/// gains exactly that record's entry.
pub proof fn lemma_append_clean(log: Seq<u8>, rec: Seq<u8>)
    requires
        clean(log),
        whole_record(rec),
    ensures
        clean(log + rec),
        scan_log(log + rec) == scan_log(log).push(appended_entry(rec, log.len())),
        replay(scan_log(log + rec)) == apply_entry(
            replay(scan_log(log)),
            appended_entry(rec, log.len()),
        ),
{
    lemma_scan_append(log, rec, 0);
    assert(scan_log(log + rec).drop_last() =~= scan_log(log));
}

proof fn lemma_scan_within(log: Seq<u8>, off: nat)
    requires
        off <= log.len(),
        scan_end(log, off) == log.len(),
    ensures
        forall|i: int|
            0 <= i < scan_from(log, off).len() ==> #[trigger] scan_from(log, off)[i].offset
                + scan_from(log, off)[i].length <= log.len(),
    decreases log.len() - off,
{
    if off < log.len() {
        let b = log.subrange(off as int, log.len() as int);
        let n = head_len(b);
        lemma_scan_within(log, off + n);
        let s = scan_from(log, off);
        assert forall|i: int| 0 <= i < s.len() implies #[trigger] s[i].offset + s[i].length
            <= log.len() by {
            if i > 0 {
                assert(s[i] == scan_from(log, off + n)[i - 1]);
            }
        }
    }
}

proof fn lemma_replay_within(m: Map<Seq<u8>, (nat, nat)>, es: Seq<LogEntry>, bound: nat)
    requires
        forall|k: Seq<u8>| #[trigger] m.contains_key(k) ==> m[k].0 + m[k].1 <= bound,
        forall|i: int| 0 <= i < es.len() ==> #[trigger] es[i].offset + es[i].length <= bound,
    ensures
        forall|k: Seq<u8>| #[trigger] apply_entries(m, es).contains_key(k) ==> apply_entries(
            m,
            es,
        )[k].0 + apply_entries(m, es)[k].1 <= bound,
    decreases es.len(),
{
    if es.len() > 0 {
        let p = es.drop_last();
        assert forall|i: int| 0 <= i < p.len() implies #[trigger] p[i].offset + p[i].length
            <= bound by {
            assert(p[i] == es[i]);
        }
        lemma_replay_within(m, p, bound);
        let e = es[es.len() - 1];
        assert(es.last() == e);
        let prev = apply_entries(m, p);
        let cur = apply_entries(m, es);
        assert(cur == apply_entry(prev, e));
        assert forall|k: Seq<u8>| #[trigger] cur.contains_key(k) implies cur[k].0 + cur[k].1
            <= bound by {
            if !e.deleted && k == e.key {
                assert(cur[k] == (e.offset, e.length));
            } else {
                assert(prev.contains_key(k));
                assert(cur[k] == prev[k]);
            }
        }
    }
}

/// Every location that the index rebuilt from a clean log holds lies inside
/// the log.
pub proof fn lemma_locations_within(log: Seq<u8>)
    requires
        clean(log),
    ensures
        forall|k: Seq<u8>| #[trigger] replay(scan_log(log)).contains_key(k) ==> replay(
            scan_log(log),
        )[k].0 + replay(scan_log(log))[k].1 <= log.len(),
{
    lemma_scan_within(log, 0);
    lemma_replay_within(Map::empty(), scan_log(log), log.len());
}

/// What a reader finds after one whole record is appended to a clean log: the
/// record's own key now reads as that record says, every other key as before.
pub proof fn lemma_log_get_append(log: Seq<u8>, rec: Seq<u8>, k: Seq<u8>)
    requires
        clean(log),
        whole_record(rec),
    ensures
        clean(log + rec),
        log_get(log + rec, k) == if k == head_key(rec) {
            if head_deleted(rec) {
                None
            } else {
                record_value(rec)
            }
        } else {
            log_get(log, k)
        },
{
    lemma_append_clean(log, rec);
    let l = log + rec;
    let m = replay(scan_log(log));
    if k == head_key(rec) {
        if !head_deleted(rec) {
            assert(l.subrange(log.len() as int, (log.len() + rec.len()) as int) =~= rec);
        }
    } else if m.contains_key(k) {
        lemma_locations_within(log);
        assert(l.subrange(m[k].0 as int, (m[k].0 + m[k].1) as int) =~= log.subrange(
            m[k].0 as int,
            (m[k].0 + m[k].1) as int,
        ));
    }
}

/// A put record is one whole live record that reads back its key and value.
pub proof fn lemma_put_record(k: Seq<u8>, v: Seq<u8>)
    requires
        put_fits(k.len(), v.len()),
    ensures
        scan_head(put_record(k, v)) == Some((k, put_record(k, v).len(), false)),
        whole_record(put_record(k, v)),
        decode_record(put_record(k, v)) == Some((k, Some(v))),
        record_value(put_record(k, v)) == Some(v),
{
    let r = put_record(k, v);
    lemma_le32_round_trip(k.len());
    lemma_le32_round_trip(v.len());
    assert(r.subrange(0, 4) =~= le32(k.len()));
    assert(r.subrange(4, 8) =~= le32(v.len()));
    assert(key_len_of(r) == k.len());
    assert(value_len_of(r) == v.len());
    assert(r.subrange(8, 8 + k.len() as int) =~= k);
    assert(r.subrange(8 + k.len() as int, r.len() as int) =~= v);
}

/// A tombstone is one whole record that marks its key deleted.
pub proof fn lemma_tombstone_record(k: Seq<u8>)
    requires
        tombstone_fits(k.len()),
    ensures
        scan_head(tombstone_record(k)) == Some((k, tombstone_record(k).len(), true)),
        whole_record(tombstone_record(k)),
        decode_record(tombstone_record(k)) == Some((k, None::<Seq<u8>>)),
{
    let r = tombstone_record(k);
    lemma_le32_round_trip(k.len());
    lemma_le32_round_trip(TOMBSTONE_FIELD as nat);
    assert(r.subrange(0, 4) =~= le32(k.len()));
    assert(r.subrange(4, 8) =~= le32(TOMBSTONE_FIELD as nat));
    assert(key_len_of(r) == k.len());
    assert(value_len_of(r) == -1);
    assert(body_len(-1) == 0);
    assert(r.subrange(8, 8 + k.len() as int) =~= k);
}

proof fn lemma_op_record(op: LogOp)
    requires
        op.fits(),
    ensures
        whole_record(op.record()),
        head_key(op.record()) == op.key(),
        head_deleted(op.record()) == (op is Del),
{
    match op {
        LogOp::Put(k, v) => lemma_put_record(k, v),
        LogOp::Del(k) => lemma_tombstone_record(k),
    }
}

/// Operations on other keys leave what a reader finds under `k` unchanged,
/// and a clean log stays clean.
pub proof fn lemma_other_keys_frame(log: Seq<u8>, ops: Seq<LogOp>, k: Seq<u8>)
    requires
        clean(log),
        forall|i: int| 0 <= i < ops.len() ==> (#[trigger] ops[i]).fits() && ops[i].key() != k,
    ensures
        clean(apply_ops(log, ops)),
        log_get(apply_ops(log, ops), k) == log_get(log, k),
    decreases ops.len(),
{
    if ops.len() > 0 {
        let p = ops.drop_last();
        assert forall|i: int| 0 <= i < p.len() implies (#[trigger] p[i]).fits() && p[i].key()
            != k by {
            assert(p[i] == ops[i]);
        }
        lemma_other_keys_frame(log, p, k);
        let last = ops[ops.len() - 1];
        assert(last == ops.last());
        lemma_op_record(last);
        lemma_log_get_append(apply_ops(log, p), last.record(), k);
    }
}

/// Round trip: after `k` is written with `v`, a read of `k` gives `v` as
/// long as only other keys are written or deleted in between.
pub proof fn lemma_round_trip(log: Seq<u8>, k: Seq<u8>, v: Seq<u8>, later: Seq<LogOp>)
    requires
        clean(log),
        put_fits(k.len(), v.len()),
        forall|i: int| 0 <= i < later.len() ==> (#[trigger] later[i]).fits() && later[i].key() != k,
    ensures
        log_get(apply_ops(log + put_record(k, v), later), k) == Some(v),
{
    lemma_put_record(k, v);
    lemma_log_get_append(log, put_record(k, v), k);
    lemma_other_keys_frame(log + put_record(k, v), later, k);
}

/// Last write wins: of two puts of one key, a read gives the later value.
pub proof fn lemma_last_write_wins(log: Seq<u8>, k: Seq<u8>, v1: Seq<u8>, v2: Seq<u8>)
    requires
        clean(log),
        put_fits(k.len(), v1.len()),
        put_fits(k.len(), v2.len()),
    ensures
        log_get(log + put_record(k, v1) + put_record(k, v2), k) == Some(v2),
{
    lemma_put_record(k, v1);
    lemma_put_record(k, v2);
    lemma_log_get_append(log, put_record(k, v1), k);
    lemma_log_get_append(log + put_record(k, v1), put_record(k, v2), k);
}

/// A tombstone hides the value written before it.
pub proof fn lemma_tombstone_hides(log: Seq<u8>, k: Seq<u8>, v: Seq<u8>)
    requires
        clean(log),
        put_fits(k.len(), v.len()),
    ensures
        log_get(log + put_record(k, v) + tombstone_record(k), k) is None,
{
    lemma_put_record(k, v);
    lemma_tombstone_record(k);
    lemma_log_get_append(log, put_record(k, v), k);
    lemma_log_get_append(log + put_record(k, v), tombstone_record(k), k);
}

/// A key written again after its deletion reads back the new value.
pub proof fn lemma_resurrection(log: Seq<u8>, k: Seq<u8>, v1: Seq<u8>, v2: Seq<u8>)
    requires
        clean(log),
        put_fits(k.len(), v1.len()),
        put_fits(k.len(), v2.len()),
    ensures
        log_get(log + put_record(k, v1) + tombstone_record(k) + put_record(k, v2), k) == Some(
            v2,
        ),
{
    lemma_put_record(k, v1);
    lemma_put_record(k, v2);
    lemma_tombstone_record(k);
    lemma_log_get_append(log, put_record(k, v1), k);
    lemma_log_get_append(log + put_record(k, v1), tombstone_record(k), k);
    lemma_log_get_append(log + put_record(k, v1) + tombstone_record(k), put_record(k, v2), k);
}

/// The log only grows: after the operations `ops` its length is the old
/// length plus the length of each operation's record.
pub proof fn lemma_log_growth(log: Seq<u8>, ops: Seq<LogOp>)
    ensures
        apply_ops(log, ops).len() == log.len() + ops_len(ops),
        log.len() <= apply_ops(log, ops).len(),
        apply_ops(log, ops).subrange(0, log.len() as int) == log,
    decreases ops.len(),
{
    if ops.len() > 0 {
        lemma_log_growth(log, ops.drop_last());
        let p = apply_ops(log, ops.drop_last());
        assert((p + ops.last().record()).subrange(0, log.len() as int) =~= p.subrange(
            0,
            log.len() as int,
        ));
    } else {
        assert(log.subrange(0, log.len() as int) =~= log);
    }
}

} // verus!
