//! The in-memory index: from a key to the location of its latest record.
use vstd::prelude::*;

use crate::codec::push_bytes;
use crate::entry::{EntryIter, LogEntry};

verus! {

/// Where a record lies in the log: the offset of its first byte and its total
/// length (header, key and value).
#[derive(Clone, Copy, Debug, PartialEq, Eq)]
pub struct Location {
    pub offset: u64,
    pub length: u32,
}

impl View for Location {
    type V = (nat, nat);

    open spec fn view(&self) -> (nat, nat) {
        (self.offset as nat, self.length as nat)
    }
}

/// The index after one entry of the log: a tombstone removes its key, any
/// other record becomes its key's location.
pub open spec fn apply_entry(m: Map<Seq<u8>, (nat, nat)>, e: LogEntry) -> Map<Seq<u8>, (nat, nat)> {
    if e.deleted {
        m.remove(e.key)
    } else {
        m.insert(e.key, (e.offset, e.length))
    }
}

/// The index after the entries `es`, in order.
pub open spec fn apply_entries(m: Map<Seq<u8>, (nat, nat)>, es: Seq<LogEntry>) -> Map<
    Seq<u8>,
    (nat, nat),
>
    decreases es.len(),
{
    if es.len() == 0 {
        m
    } else {
        apply_entry(apply_entries(m, es.drop_last()), es.last())
    }
}

/// The index that the entries `es` build from nothing.
pub open spec fn replay(es: Seq<LogEntry>) -> Map<Seq<u8>, (nat, nat)> {
    apply_entries(Map::empty(), es)
}

/// One key of the index with its location.
pub struct IndexSlot {
    pub key: Vec<u8>,
    pub loc: Location,
}

/// The most buckets an index has.
pub const MAX_BUCKETS: usize = 1048576;

/// A bucket longer than this makes the index double its bucket count.
pub const MAX_CHAIN: usize = 8;

/// The bucket of key `k` among `n`: a polynomial hash of its bytes.
pub open spec fn bucket_of(k: Seq<u8>, n: nat) -> nat
    decreases k.len(),
{
    if k.len() == 0 || n == 0 {
        0
    } else {
        ((bucket_of(k.drop_last(), n) * 31 + k.last()) % (n as int)) as nat
    }
}

/// The mapping that one bucket holds.
pub open spec fn bucket_map(b: Seq<IndexSlot>) -> Map<Seq<u8>, (nat, nat)>
    decreases b.len(),
{
    if b.len() == 0 {
        Map::empty()
    } else {
        bucket_map(b.drop_last()).insert(b.last().key@, b.last().loc@)
    }
}

/// Every key of bucket `b`, the `i`-th of `n`, belongs in that bucket.
pub open spec fn placed(b: Seq<IndexSlot>, i: int, n: nat) -> bool {
    forall|j: int| 0 <= j < b.len() ==> bucket_of(#[trigger] b[j].key@, n) == i
}

/// No key stands twice in a bucket.
pub open spec fn unique_keys(b: Seq<IndexSlot>) -> bool {
    forall|i: int, j: int| 0 <= i < j < b.len() ==> b[i].key@ != b[j].key@
}

proof fn lemma_bucket_map_at(b: Seq<IndexSlot>, i: int)
    requires
        unique_keys(b),
        0 <= i < b.len(),
    ensures
        bucket_map(b).contains_key(b[i].key@),
        bucket_map(b)[b[i].key@] == b[i].loc@,
    decreases b.len(),
{
    if i < b.len() - 1 {
        let p = b.drop_last();
        assert(p[i] == b[i]);
        assert(unique_keys(p));
        lemma_bucket_map_at(p, i);
        assert(b[i].key@ != b.last().key@);
    }
}

proof fn lemma_bucket_map_absent(b: Seq<IndexSlot>, k: Seq<u8>)
    requires
        forall|j: int| 0 <= j < b.len() ==> b[j].key@ != k,
    ensures
        !bucket_map(b).contains_key(k),
    decreases b.len(),
{
    if b.len() > 0 {
        let p = b.drop_last();
        assert forall|j: int| 0 <= j < p.len() implies p[j].key@ != k by {
            assert(p[j] == b[j]);
        }
        lemma_bucket_map_absent(p, k);
        assert(b.last() == b[b.len() - 1]);
    }
}

proof fn lemma_bucket_map_update(b: Seq<IndexSlot>, i: int, s: IndexSlot)
    requires
        unique_keys(b),
        0 <= i < b.len(),
        b[i].key@ == s.key@,
    ensures
        unique_keys(b.update(i, s)),
        bucket_map(b.update(i, s)) == bucket_map(b).insert(s.key@, s.loc@),
{
    let c = b.update(i, s);
    assert(unique_keys(c));
    lemma_bucket_map_at(c, i);
    assert forall|k: Seq<u8>| k != s.key@ implies #[trigger] bucket_map(c).contains_key(k)
        == bucket_map(b).contains_key(k) && (bucket_map(b).contains_key(k) ==> bucket_map(c)[k]
        == bucket_map(b)[k]) by {
        if exists|j: int| 0 <= j < b.len() && b[j].key@ == k {
            let j = choose|j: int| 0 <= j < b.len() && b[j].key@ == k;
            lemma_bucket_map_at(b, j);
            assert(c[j] == b[j]);
            lemma_bucket_map_at(c, j);
        } else {
            lemma_bucket_map_absent(b, k);
            assert forall|j: int| 0 <= j < c.len() implies c[j].key@ != k by {
                if j != i {
                    assert(c[j] == b[j]);
                }
            }
            lemma_bucket_map_absent(c, k);
        }
    }
    assert(bucket_map(c) =~= bucket_map(b).insert(s.key@, s.loc@));
}

proof fn lemma_bucket_map_remove(b: Seq<IndexSlot>, i: int)
    requires
        unique_keys(b),
        0 <= i < b.len(),
    ensures
        unique_keys(b.remove(i)),
        bucket_map(b.remove(i)) == bucket_map(b).remove(b[i].key@),
{
    let c = b.remove(i);
    let k0 = b[i].key@;
    assert forall|x: int, y: int| 0 <= x < y < c.len() implies c[x].key@ != c[y].key@ by {
        let bx = if x < i { x } else { x + 1 };
        let by_ = if y < i { y } else { y + 1 };
        assert(c[x] == b[bx] && c[y] == b[by_]);
    }
    assert forall|j: int| 0 <= j < c.len() implies c[j].key@ != k0 by {
        let bj = if j < i { j } else { j + 1 };
        assert(c[j] == b[bj]);
    }
    lemma_bucket_map_absent(c, k0);
    assert forall|k: Seq<u8>| k != k0 implies #[trigger] bucket_map(c).contains_key(k)
        == bucket_map(b).contains_key(k) && (bucket_map(b).contains_key(k) ==> bucket_map(c)[k]
        == bucket_map(b)[k]) by {
        if exists|j: int| 0 <= j < b.len() && b[j].key@ == k {
            let j = choose|j: int| 0 <= j < b.len() && b[j].key@ == k;
            lemma_bucket_map_at(b, j);
            let cj = if j < i { j } else { j - 1 };
            assert(c[cj] == b[j]);
            lemma_bucket_map_at(c, cj);
        } else {
            lemma_bucket_map_absent(b, k);
            assert forall|j: int| 0 <= j < c.len() implies c[j].key@ != k by {
                let bj = if j < i { j } else { j + 1 };
                assert(c[j] == b[bj]);
            }
            lemma_bucket_map_absent(c, k);
        }
    }
    assert(bucket_map(c) =~= bucket_map(b).remove(k0));
}

/// Whether two byte strings are equal.
fn bytes_equal(a: &[u8], b: &[u8]) -> (r: bool)
    ensures
        r == (a@ == b@),
{
    if a.len() != b.len() {
        return false;
    }
    let mut i: usize = 0;
    while i < a.len()
        invariant
            i <= a@.len() == b@.len(),
            forall|j: int| 0 <= j < i ==> a@[j] == b@[j],
        decreases a@.len() - i,
    {
        if a[i] != b[i] {
            return false;
        }
        i = i + 1;
    }
    assert(a@ =~= b@);
    true
}

/// Position of `key` in `bucket`, if it is there.
fn find_in(bucket: &Vec<IndexSlot>, key: &[u8]) -> (r: Option<usize>)
    ensures
        match r {
            Some(i) => i < bucket@.len() && bucket@[i as int].key@ == key@,
            None => forall|j: int| 0 <= j < bucket@.len() ==> bucket@[j].key@ != key@,
        },
{
    let mut i: usize = 0;
    while i < bucket.len()
        invariant
            i <= bucket@.len(),
            forall|j: int| 0 <= j < i ==> bucket@[j].key@ != key@,
        decreases bucket@.len() - i,
    {
        if bytes_equal(bucket[i].key.as_slice(), key) {
            return Some(i);
        }
        i = i + 1;
    }
    None
}

/// An index from keys to the locations of their latest records, kept in hash
/// buckets whose number doubles when a bucket grows long.
pub struct HashIndex {
    buckets: Vec<Vec<IndexSlot>>,
}

impl View for HashIndex {
    type V = Map<Seq<u8>, (nat, nat)>;

    closed spec fn view(&self) -> Map<Seq<u8>, (nat, nat)> {
        Map::new(
            |k: Seq<u8>| bucket_map(self.slots_for(k)).contains_key(k),
            |k: Seq<u8>| bucket_map(self.slots_for(k))[k],
        )
    }
}

impl HashIndex {
    /// The bucket in which key `k` belongs.
    closed spec fn slots_for(&self, k: Seq<u8>) -> Seq<IndexSlot> {
        self.buckets@[bucket_of(k, self.buckets@.len() as nat) as int]@
    }

    /// The index is well formed: it has buckets, each key stands in its own
    /// bucket, and no bucket repeats a key.
    pub closed spec fn wf(&self) -> bool {
        &&& 0 < self.buckets@.len() <= MAX_BUCKETS
        &&& forall|i: int|
            0 <= i < self.buckets@.len() ==> unique_keys(#[trigger] self.buckets@[i]@) && placed(
                self.buckets@[i]@,
                i,
                self.buckets@.len() as nat,
            )
    }

    proof fn lemma_bucket_in_range(&self, k: Seq<u8>)
        requires
            self.wf(),
        ensures
            bucket_of(k, self.buckets@.len() as nat) < self.buckets@.len(),
    {
        if k.len() > 0 {
            let n = self.buckets@.len() as int;
            let p = bucket_of(k.drop_last(), n as nat) * 31 + k.last();
            assert(bucket_of(k, n as nat) == (p % n) as nat);
            assert(0 <= p % n < n);
        }
    }

    /// An empty index that starts with about `cap` buckets (at least one, at
    /// most `MAX_BUCKETS`).
    pub fn new(cap: usize) -> (r: Self)
        ensures
            r.wf(),
            r@ == Map::<Seq<u8>, (nat, nat)>::empty(),
    {
        let n: usize = if cap == 0 {
            1
        } else if cap > MAX_BUCKETS {
            MAX_BUCKETS
        } else {
            cap
        };
        HashIndex::with_buckets(n)
    }

    /// An empty index with `n` buckets.
    fn with_buckets(n: usize) -> (r: Self)
        requires
            0 < n <= MAX_BUCKETS,
        ensures
            r.wf(),
            r@ == Map::<Seq<u8>, (nat, nat)>::empty(),
            r.buckets@.len() == n,
    {
        let mut buckets: Vec<Vec<IndexSlot>> = Vec::new();
        while buckets.len() < n
            invariant
                buckets@.len() <= n,
                forall|i: int| 0 <= i < buckets@.len() ==> (#[trigger] buckets@[i])@.len() == 0,
            decreases n - buckets@.len(),
        {
            buckets.push(Vec::new());
        }
        let r = HashIndex { buckets };
        assert forall|k: Seq<u8>| !(#[trigger] r@.contains_key(k)) by {
            r.lemma_bucket_in_range(k);
            assert(r.slots_for(k).len() == 0);
        }
        assert(r@ =~= Map::<Seq<u8>, (nat, nat)>::empty());
        r
    }

    /// The bucket number of `key`.
    fn bucket_index(&self, key: &[u8]) -> (r: usize)
        requires
            self.wf(),
        ensures
            r as nat == bucket_of(key@, self.buckets@.len() as nat),
            r < self.buckets@.len(),
    {
        let n = self.buckets.len() as u64;
        let mut h: u64 = 0;
        let mut i: usize = 0;
        while i < key.len()
            invariant
                n == self.buckets@.len(),
                0 < n <= MAX_BUCKETS,
                i <= key@.len(),
                h < n,
                h as nat == bucket_of(key@.subrange(0, i as int), n as nat),
            decreases key@.len() - i,
        {
            let ghost pre = key@.subrange(0, i as int);
            h = (h * 31 + key[i] as u64) % n;
            i = i + 1;
            assert(key@.subrange(0, i as int).drop_last() =~= pre);
        }
        assert(key@.subrange(0, i as int) =~= key@);
        h as usize
    }

    /// The location recorded for `key`, if any.
    pub fn lookup(&self, key: &[u8]) -> (r: Option<Location>)
        requires
            self.wf(),
        ensures
            match r {
                Some(loc) => self@.contains_key(key@) && self@[key@] == loc@,
                None => !self@.contains_key(key@),
            },
    {
        let bi = self.bucket_index(key);
        let bucket = &self.buckets[bi];
        assert(bucket@ == self.slots_for(key@));
        match find_in(bucket, key) {
            Some(i) => {
                proof {
                    lemma_bucket_map_at(bucket@, i as int);
                }
                Some(bucket[i].loc)
            },
            None => {
                proof {
                    lemma_bucket_map_absent(bucket@, key@);
                }
                None
            },
        }
    }

    /// Takes bucket `bi` out, leaving an empty one in its place.
    fn take_bucket(&mut self, bi: usize) -> (r: Vec<IndexSlot>)
        requires
            bi < old(self).buckets@.len(),
        ensures
            r == old(self).buckets@[bi as int],
            final(self).buckets@.len() == old(self).buckets@.len(),
            final(self).buckets@[bi as int]@.len() == 0,
            forall|j: int|
                0 <= j < old(self).buckets@.len() && j != bi ==> final(self).buckets@[j]
                    == old(self).buckets@[j],
    {
        self.buckets.push(Vec::new());
        self.buckets.swap_remove(bi)
    }

    /// Records `loc` for `key`, replacing any earlier location.  A bucket
    /// grown past `MAX_CHAIN` keys makes the index double its buckets.
    pub fn insert(&mut self, key: &[u8], loc: Location)
        requires
            old(self).wf(),
        ensures
            final(self).wf(),
            final(self)@ == old(self)@.insert(key@, loc@),
    {
        let chain = self.insert_in_place(key, loc);
        if chain > MAX_CHAIN && self.buckets.len() <= MAX_BUCKETS / 2 {
            self.grow();
        }
    }

    /// Records `loc` for `key` without changing the bucket count; returns the
    /// length of the bucket that holds `key`.
    fn insert_in_place(&mut self, key: &[u8], loc: Location) -> (r: usize)
        requires
            old(self).wf(),
        ensures
            final(self).wf(),
            final(self)@ == old(self)@.insert(key@, loc@),
            final(self).buckets@.len() == old(self).buckets@.len(),
    {
        let bi = self.bucket_index(key);
        let ghost n = self.buckets@.len() as nat;
        let mut bucket = self.take_bucket(bi);
        let ghost ob = bucket@;
        assert(unique_keys(ob) && placed(ob, bi as int, n));
        let mut owned: Vec<u8> = Vec::new();
        push_bytes(&mut owned, key);
        assert(owned@ =~= key@);
        let slot = IndexSlot { key: owned, loc };
        match find_in(&bucket, key) {
            Some(i) => {
                bucket.set(i, slot);
                proof {
                    lemma_bucket_map_update(ob, i as int, slot);
                    assert forall|j: int| 0 <= j < bucket@.len() implies bucket_of(
                        #[trigger] bucket@[j].key@,
                        n,
                    ) == bi by {
                        if j != i {
                            assert(bucket@[j] == ob[j]);
                        }
                    }
                }
            },
            None => {
                bucket.push(slot);
                proof {
                    assert forall|x: int, y: int| 0 <= x < y < bucket@.len() implies bucket@[x].key@
                        != bucket@[y].key@ by {
                        assert(bucket@[x] == ob[x]);
                        if y < ob.len() {
                            assert(bucket@[y] == ob[y]);
                        }
                    }
                    assert(bucket@.drop_last() =~= ob);
                    assert forall|j: int| 0 <= j < bucket@.len() implies bucket_of(
                        #[trigger] bucket@[j].key@,
                        n,
                    ) == bi by {
                        if j < ob.len() {
                            assert(bucket@[j] == ob[j]);
                        }
                    }
                }
            },
        }
        let chain = bucket.len();
        self.buckets.set(bi, bucket);
        proof {
            assert forall|i: int| 0 <= i < self.buckets@.len() implies unique_keys(
                #[trigger] self.buckets@[i]@,
            ) && placed(self.buckets@[i]@, i, n) by {
                if i != bi {
                    assert(self.buckets@[i] == old(self).buckets@[i]);
                }
            }
            assert forall|k: Seq<u8>| k != key@ implies bucket_map(#[trigger] self.slots_for(k))
                == bucket_map(old(self).slots_for(k)) || bucket_of(k, n) == bi by {}
            assert(self@ =~= old(self)@.insert(key@, loc@));
        }
        chain
    }

    /// Forgets `key`; no change when it is absent.
    pub fn remove(&mut self, key: &[u8])
        requires
            old(self).wf(),
        ensures
            final(self).wf(),
            final(self)@ == old(self)@.remove(key@),
    {
        let bi = self.bucket_index(key);
        let ghost n = self.buckets@.len() as nat;
        let mut bucket = self.take_bucket(bi);
        let ghost ob = bucket@;
        assert(placed(ob, bi as int, n));
        match find_in(&bucket, key) {
            Some(i) => {
                bucket.remove(i);
                proof {
                    lemma_bucket_map_remove(ob, i as int);
                    assert forall|j: int| 0 <= j < bucket@.len() implies bucket_of(
                        #[trigger] bucket@[j].key@,
                        n,
                    ) == bi by {
                        let oj = if j < i { j } else { j + 1 };
                        assert(bucket@[j] == ob[oj]);
                    }
                }
            },
            None => {
                proof {
                    lemma_bucket_map_absent(ob, key@);
                    assert(bucket_map(ob).remove(key@) =~= bucket_map(ob));
                }
            },
        }
        self.buckets.set(bi, bucket);
        proof {
            assert forall|i: int| 0 <= i < self.buckets@.len() implies unique_keys(
                #[trigger] self.buckets@[i]@,
            ) && placed(self.buckets@[i]@, i, n) by {
                if i != bi {
                    assert(self.buckets@[i] == old(self).buckets@[i]);
                }
            }
            assert(self@ =~= old(self)@.remove(key@));
        }
    }

    /// Moves every key into an index with twice the buckets.
    fn grow(&mut self)
        requires
            old(self).wf(),
            old(self).buckets@.len() * 2 <= MAX_BUCKETS,
        ensures
            final(self).wf(),
            final(self)@ == old(self)@,
    {
        let ghost v = self@;
        let mut from = HashIndex::with_buckets(self.buckets.len() * 2);
        std::mem::swap(self, &mut from);
        let ghost n = from.buckets@.len() as nat;
        let mut i: usize = 0;
        while i < from.buckets.len()
            invariant
                from.wf(),
                from@ == v,
                n == from.buckets@.len(),
                i <= n,
                self.wf(),
                self@ == Map::new(
                    |k: Seq<u8>| v.contains_key(k) && bucket_of(k, n) < i,
                    |k: Seq<u8>| v[k],
                ),
            decreases n - i,
        {
            let bucket = &from.buckets[i];
            let ghost b = bucket@;
            assert(unique_keys(b) && placed(b, i as int, n));
            let mut j: usize = 0;
            while j < bucket.len()
                invariant
                    from.wf(),
                    from@ == v,
                    n == from.buckets@.len(),
                    i < n,
                    b == from.buckets@[i as int]@,
                    bucket@ == b,
                    unique_keys(b),
                    placed(b, i as int, n),
                    j <= b.len(),
                    self.wf(),
                    self@ == Map::new(
                        |k: Seq<u8>|
                            v.contains_key(k) && (bucket_of(k, n) < i || (bucket_of(k, n) == i
                                && exists|t: int| 0 <= t < j && b[t].key@ == k)),
                        |k: Seq<u8>| v[k],
                    ),
                decreases b.len() - j,
            {
                let slot = &bucket[j];
                let ghost prev = self@;
                self.insert_in_place(slot.key.as_slice(), slot.loc);
                proof {
                    let kk = b[j as int].key@;
                    assert(bucket_of(kk, n) == i);
                    assert(from.slots_for(kk) == b);
                    lemma_bucket_map_at(b, j as int);
                    assert(v.contains_key(kk) && v[kk] == slot.loc@);
                    let next = Map::new(
                        |k: Seq<u8>|
                            v.contains_key(k) && (bucket_of(k, n) < i || (bucket_of(k, n) == i
                                && exists|t: int| 0 <= t < j + 1 && b[t].key@ == k)),
                        |k: Seq<u8>| v[k],
                    );
                    assert forall|k: Seq<u8>| #[trigger] next.contains_key(k) == prev.insert(
                        kk,
                        slot.loc@,
                    ).contains_key(k) by {
                        if k != kk && bucket_of(k, n) == i && v.contains_key(k) {
                            if exists|t: int| 0 <= t < j + 1 && b[t].key@ == k {
                                let t = choose|t: int| 0 <= t < j + 1 && b[t].key@ == k;
                                assert(t != j);
                            }
                        }
                        if k == kk {
                            assert(0 <= j < j + 1 && b[j as int].key@ == k);
                        }
                    }
                    assert(self@ =~= next);
                }
                j = j + 1;
            }
            proof {
                let next = Map::new(
                    |k: Seq<u8>| v.contains_key(k) && bucket_of(k, n) < i + 1,
                    |k: Seq<u8>| v[k],
                );
                assert forall|k: Seq<u8>| #[trigger] next.contains_key(k) == self@.contains_key(
                    k,
                ) by {
                    if v.contains_key(k) && bucket_of(k, n) == i {
                        assert(from.slots_for(k) == b);
                        if !(exists|t: int| 0 <= t < b.len() && b[t].key@ == k) {
                            lemma_bucket_map_absent(b, k);
                        }
                    }
                }
                assert(self@ =~= next);
            }
            i = i + 1;
        }
        proof {
            assert forall|k: Seq<u8>| v.contains_key(k) implies bucket_of(k, n) < n by {
                from.lemma_bucket_in_range(k);
            }
            assert(self@ =~= v);
        }
    }

    /// Drains `scan` in order: each tombstone removes its key, each other
    /// entry records its location.  Later entries win.
    pub fn rebuild_from(&mut self, scan: EntryIter)
        requires
            old(self).wf(),
        ensures
            final(self).wf(),
            final(self)@ == apply_entries(old(self)@, scan.rest()),
    {
        let mut it = scan;
        let ghost all = scan.rest();
        let ghost done: Seq<LogEntry> = seq![];
        loop
            invariant
                self.wf(),
                all == scan.rest(),
                done + it.rest() == all,
                self@ == apply_entries(old(self)@, done),
            decreases it.rest().len(),
        {
            match it.next() {
                None => {
                    assert(done + it.rest() =~= done);

                    return;
                },
                Some(e) => {
                    if e.deleted {
                        self.remove(e.key.as_slice());
                    } else {
                        self.insert(e.key.as_slice(), Location { offset: e.offset, length: e.length });
                    }
                    proof {
                        let nd = done.push(e.view());
                        assert(nd.drop_last() =~= done);
                        assert(nd + it.rest() =~= all);
                        done = nd;
                    }
                },
            }
        }
    }
}

} // verus!
