//! The storage facade: get/set/add/replace/delete/cas over segments, the
//! hash index and the TTL buckets.
//!
//! Every operation's contract is stated over `contents()`, the abstract map
//! from key bytes to stored entries. Time is a coarse tick handed in by the
//! caller; an entry with `expire_at <= now` is treated as absent by reads and
//! conditional writes and is reclaimed by the expiration sweep.

use vstd::prelude::*;
use crate::hashtable::{EntryView, HashTable};
use crate::protocol::MemcacheEntry;
use crate::seg::{Item, Segments, ITEM_HDR_SIZE, spec_item_size};
use crate::ttl::{TtlBuckets, NONE_SEG, spec_bucket_index};

verus! {

/// Why a storage operation failed.
#[derive(Clone, Copy, PartialEq, Eq, Structural, Debug)]
pub enum MemcacheStorageError {
    /// A `cas` found the key but with a different CAS counter.
    Exists,
    /// The key was absent (or expired).
    NotFound,
    /// The write could not be performed.
    NotStored,
}

/// The tick at which an entry written now with this TTL expires.
/// A TTL of `None` or `Some(0)` means never (`u32::MAX`); otherwise `now +
/// ttl`, saturating.
pub open spec fn spec_expire_at(ttl: Option<u32>, now: u32) -> u32 {
    match ttl {
        Option::None => u32::MAX,
        Option::Some(t) => if t == 0 {
            u32::MAX
        } else if now + t >= u32::MAX {
            u32::MAX
        } else {
            (now + t) as u32
        },
    }
}

/// The TTL in seconds used for bucket selection; `None` maps to 0.
pub open spec fn spec_ttl_secs(ttl: Option<u32>) -> u32 {
    match ttl {
        Option::None => 0u32,
        Option::Some(t) => t,
    }
}

/// Whether the map holds `k` unexpired at tick `now`.
pub open spec fn spec_live(m: Map<Seq<u8>, EntryView>, k: Seq<u8>, now: u32) -> bool {
    m.contains_key(k) && m[k].expire_at > now
}

/// The CAS counter a successful mutation of `k` writes: one more than the
/// key's current counter (saturating), or 1 for a fresh key.
pub open spec fn spec_next_cas(m: Map<Seq<u8>, EntryView>, k: Seq<u8>) -> u64 {
    if m.contains_key(k) {
        if m[k].cas < u64::MAX {
            (m[k].cas + 1) as u64
        } else {
            u64::MAX
        }
    } else {
        1u64
    }
}

/// The entry a successful write of `e` at tick `now` stores, given the prior
/// map `m`.
pub open spec fn spec_stored_entry(m: Map<Seq<u8>, EntryView>, e: MemcacheEntry, now: u32)
    -> EntryView {
    EntryView {
        value: e.value@,
        flags: e.flags,
        cas: spec_next_cas(m, e.key@),
        expire_at: spec_expire_at(e.ttl, now),
    }
}

/// Whether the write of an entry with the given spec-level fields can be
/// stored right now.
pub open spec fn spec_can_store_req(c: SegCache, e: crate::protocol::EntrySpec) -> bool {
    c.spec_can_store(e.key.len() as int, e.value.len() as int, e.ttl)
}

/// The entry a successful write of the spec-level entry `e` at tick `now`
/// stores, given the prior map `m`.
pub open spec fn spec_stored_entry_of(
    m: Map<Seq<u8>, EntryView>,
    e: crate::protocol::EntrySpec,
    now: u32,
) -> EntryView {
    EntryView {
        value: e.value,
        flags: e.flags,
        cas: spec_next_cas(m, e.key),
        expire_at: spec_expire_at(e.ttl, now),
    }
}

/// The storage engine: a segment pool, a hash index and the TTL buckets.
pub struct SegCache {
    /// The segment pool and free list.
    pub segments: Segments,
    /// The hash index from keys to item locators.
    pub hashtable: HashTable,
    /// The TTL bucket heads.
    pub ttl_buckets: TtlBuckets,
}

impl SegCache {
    /// Well-formedness: the pool, the index and the bucket heads agree.
    pub open spec fn wf(self) -> bool {
        &&& self.segments.wf()
        &&& self.hashtable.wf(self.segments)
        &&& self.ttl_buckets.wf()
        &&& forall|g: int|
            self.segments.in_chain(g) ==> (#[trigger] self.segments.segments@[g]).ttl_bucket
                < 1024
        &&& forall|b: int|
            0 <= b < 1024 ==> {
                let l = (#[trigger] self.ttl_buckets.buckets@[b]).last_seg;
                l != NONE_SEG ==> l < self.segments.segments.len()
                    && self.segments.segments@[l as int].ttl_bucket == b
            }
    }

    /// The abstract content: the map from key bytes to stored entries.
    pub open spec fn contents(self) -> Map<Seq<u8>, EntryView> {
        self.hashtable.view_of(self.segments)
    }

    /// Whether a write of an entry with the given key and value lengths and
    /// TTL can be stored right now: the item fits a segment, and either the
    /// TTL bucket's tail segment has room or a free segment is available.
    pub open spec fn spec_can_store(self, key_len: int, value_len: int, ttl: Option<u32>) -> bool {
        let size = spec_item_size(key_len, value_len);
        let b = spec_bucket_index(spec_ttl_secs(ttl));
        let l = self.ttl_buckets.buckets@[b].last_seg;
        &&& size <= self.segments.segment_size
        &&& ((l != NONE_SEG && self.segments.segments@[l as int].write_offset + size
            <= self.segments.segment_size) || self.segments.free.len() > 0)
    }

    /// Create a cache with `n_segments` segments of `segment_size` bytes and
    /// a hash index of `n_buckets` buckets. The cache starts empty.
    pub fn new(n_segments: u32, segment_size: usize, n_buckets: usize) -> (r: SegCache)
        requires
            n_segments < NONE_SEG,
            ITEM_HDR_SIZE <= segment_size <= 0x4000_0000,
            n_buckets > 0,
        ensures
            r.wf(),
            r.contents() == Map::<Seq<u8>, EntryView>::empty(),
            r.segments.segments.len() == n_segments,
            r.segments.free.len() == n_segments,
            r.segments.segment_size == segment_size,
            r.ttl_buckets.last_expired == 0,
    {
        let segments = Segments::new(n_segments, segment_size);
        let hashtable = HashTable::new(n_buckets);
        let ttl_buckets = TtlBuckets::new();
        let r = SegCache { segments, hashtable, ttl_buckets };
        proof {
            assert forall|b: int, i: int|
                0 <= b < r.hashtable.buckets.len() && 0 <= i < r.hashtable.buckets@[b]@.len()
                    implies #[trigger] r.hashtable.slot_ok(r.segments, b, i) by {
                assert(r.hashtable.buckets@[b]@.len() == 0);
            }
            assert(r.hashtable.wf_basic(r.segments));
            assert forall|k: Seq<u8>| !(#[trigger] r.hashtable.spec_contains(r.segments, k)) by {
                if r.hashtable.spec_contains(r.segments, k) {
                    let i = choose|i: int| r.hashtable.matches(r.segments, k, i);
                    let b = r.hashtable.spec_bucket_of(k);
                    assert(r.hashtable.buckets@[b]@.len() == 0);
                }
            }
            assert(r.contents() =~= Map::<Seq<u8>, EntryView>::empty());
        }
        r
    }

    /// Whether the cache holds `key` unexpired at tick `now`.
    pub fn contains_live(&self, key: &[u8], now: u32) -> (r: bool)
        requires
            self.wf(),
        ensures
            r == spec_live(self.contents(), key@, now),
    {
        match self.hashtable.lookup(&self.segments, key) {
            Some((i, s)) => {
                proof {
                    self.hashtable.lemma_match_unique(self.segments, key@, i as int);
                }
                s.expire_at > now
            },
            None => {
                proof {
                    if self.contents().contains_key(key@) {
                        assert(self.hashtable.spec_contains(self.segments, key@));
                    }
                }
                false
            },
        }
    }

    /// Return the entries of all the given keys that are present and
    /// unexpired at tick `now`, in key order; misses are silently omitted.
    pub fn get(&self, keys: &Vec<Vec<u8>>, now: u32) -> (r: Vec<Item>)
        requires
            self.wf(),
        ensures
            r@.map_values(|it: Item| spec_item_pair(it)) == spec_hits(
                self.contents(),
                keys@.map_values(|k: Vec<u8>| k@),
                now,
            ),
    {
        let mut r: Vec<Item> = Vec::new();
        let mut i: usize = 0;
        while i < keys.len()
            invariant
                self.wf(),
                i <= keys@.len(),
                r@.map_values(|it: Item| spec_item_pair(it)) == spec_hits(
                    self.contents(),
                    keys@.map_values(|k: Vec<u8>| k@).take(i as int),
                    now,
                ),
            decreases keys@.len() - i,
        {
            let key: &Vec<u8> = &keys[i];
            let ghost ks = keys@.map_values(|k: Vec<u8>| k@);
            match self.hashtable.lookup(&self.segments, key.as_slice()) {
                Some((j, s)) => {
                    proof {
                        self.hashtable.lemma_match_unique(self.segments, key@, j as int);
                        assert(self.hashtable.slot_ok(
                            self.segments,
                            self.hashtable.spec_bucket_of(key@),
                            j as int,
                        ));
                    }
                    if s.expire_at > now {
                        let item_ref = &self.segments.segments[s.seg as usize].data[s.idx
                            as usize];
                        let hit = Item {
                            key: vstd::slice::slice_to_vec(key.as_slice()),
                            value: vstd::slice::slice_to_vec(item_ref.value.as_slice()),
                            flags: item_ref.flags,
                            cas: s.cas,
                            expire_at: s.expire_at,
                            deleted: false,
                        };
                        r.push(hit);
                    }
                },
                None => {
                    proof {
                        if self.contents().contains_key(key@) {
                            assert(self.hashtable.spec_contains(self.segments, key@));
                        }
                    }
                },
            }
            proof {
                let t1 = keys@.map_values(|k: Vec<u8>| k@).take(i + 1);
                assert(t1.drop_last() =~= keys@.map_values(|k: Vec<u8>| k@).take(i as int));
                assert(t1.last() == key@);
                assert(r@.map_values(|it: Item| spec_item_pair(it)) =~= spec_hits(
                    self.contents(),
                    t1,
                    now,
                ));
            }
            i = i + 1;
        }
        proof {
            assert(keys@.map_values(|k: Vec<u8>| k@).take(keys@.len() as int) =~= keys@.map_values(
                |k: Vec<u8>| k@,
            ));
        }
        r
    }
}

proof fn lemma_data_len_fits(segs: Segments, g: int)
    requires
        segs.wf(),
        0 <= g < segs.segments.len(),
    ensures
        segs.segments@[g].data.len() < NONE_SEG,
{
    let n = segs.segments@[g].data.len() as int;
    assert(n * ITEM_HDR_SIZE <= segs.segments@[g].write_offset);
    assert(n < NONE_SEG) by (nonlinear_arith)
        requires
            n * 24 <= 0x4000_0000,
            n >= 0,
    ;
}

impl SegCache {
    /// Write `entry` at tick `now`, inserting or replacing its key. Fails
    /// exactly when no room can be found: the item does not fit a segment, or
    /// the TTL bucket's tail is full and no free segment is available.
    #[verifier::rlimit(60)]
    fn upsert(&mut self, entry: &MemcacheEntry, now: u32) -> (r: Result<(), ()>)
        requires
            old(self).wf(),
            entry.key@.len() + entry.value@.len() + ITEM_HDR_SIZE <= usize::MAX,
        ensures
            final(self).wf(),
            final(self).segments.segments.len() == old(self).segments.segments.len(),
            final(self).segments.segment_size == old(self).segments.segment_size,
            final(self).ttl_buckets.last_expired == old(self).ttl_buckets.last_expired,
            match r {
                Ok(()) => {
                    &&& old(self).spec_can_store(
                        entry.key@.len() as int,
                        entry.value@.len() as int,
                        entry.ttl,
                    )
                    &&& final(self).contents() == old(self).contents().insert(
                        entry.key@,
                        spec_stored_entry(old(self).contents(), *entry, now),
                    )
                },
                Err(()) => {
                    &&& !old(self).spec_can_store(
                        entry.key@.len() as int,
                        entry.value@.len() as int,
                        entry.ttl,
                    )
                    &&& *final(self) == *old(self)
                },
            },
    {
        let size = ITEM_HDR_SIZE + entry.key.len() + entry.value.len();
        if size > self.segments.segment_size {
            return Err(());
        }
        let ttl_secs: u32 = match entry.ttl {
            Some(t) => t,
            None => 0,
        };
        let bidx = self.ttl_buckets.get_bucket_index(ttl_secs);
        let tail = self.ttl_buckets.buckets[bidx].last_seg;
        let ghost pre = *self;
        let g: u32;
        if tail != NONE_SEG && self.segments.segments[tail as usize].write_offset
            <= self.segments.segment_size - size {
            g = tail;
        } else {
            if self.segments.free.len() == 0 {
                return Err(());
            }
            let gn = match self.segments.alloc_seg() {
                Some(gn) => gn,
                None => {
                    proof {
                        assert(false);
                    }
                    return Err(());
                },
            };
            // link the fresh segment as the bucket's new tail
            let seg = &mut self.segments.segments[gn as usize];
            seg.ttl_bucket = bidx as u32;
            seg.create_at = now;
            seg.prev = tail;
            seg.next = NONE_SEG;
            if tail != NONE_SEG {
                self.segments.segments[tail as usize].next = gn;
            }
            let bref = &mut self.ttl_buckets.buckets[bidx];
            if bref.first_seg == NONE_SEG {
                bref.first_seg = gn;
            }
            bref.last_seg = gn;
            if bref.n_segments < u32::MAX {
                bref.n_segments = bref.n_segments + 1;
            }
            g = gn;
            proof {
                assert(self.segments.wf());
                assert forall|b2: int, i2: int|
                    0 <= b2 < self.hashtable.buckets.len() && 0 <= i2
                        < self.hashtable.buckets@[b2]@.len() implies {
                    let s = (#[trigger] self.hashtable.buckets@[b2]@[i2]);
                    &&& s.seg < self.segments.segments.len()
                    &&& self.segments.segments@[s.seg as int].ttl_bucket != NONE_SEG
                    &&& s.idx < self.segments.segments@[s.seg as int].data.len()
                    &&& self.segments.segments@[s.seg as int].data@[s.idx as int]
                        == pre.segments.segments@[s.seg as int].data@[s.idx as int]
                } by {
                    assert(self.hashtable.slot_ok(pre.segments, b2, i2));
                }
                self.hashtable.lemma_same_refs(pre.segments, self.segments);
                assert forall|g2: int, t2: int|
                    self.segments.in_chain(g2) && 0 <= t2 < self.segments.segments@[g2].data.len()
                        && !self.segments.segments@[g2].data@[t2].deleted implies #[trigger] self
                    .hashtable.item_refd(g2, t2) by {
                    assert(self.hashtable.item_refd(g2, t2));
                }
                assert(self.wf());
                assert(self.contents() == pre.contents());
            }
        }
        // the target segment is in the chosen bucket's chain and has room
        assert(self.segments.in_chain(g as int));
        assert(self.segments.segments@[g as int].write_offset + size
            <= self.segments.segment_size);
        assert(self.contents() == pre.contents());
        assert(self.hashtable.wf_basic(self.segments));
        proof {
            lemma_data_len_fits(self.segments, g as int);
        }
        // current slot for the key, if any
        let found = self.hashtable.lookup(&self.segments, entry.key.as_slice());
        let new_cas: u64 = match found {
            Some((i, s)) => {
                proof {
                    self.hashtable.lemma_match_unique(self.segments, entry.key@, i as int);
                }
                if s.cas < u64::MAX {
                    s.cas + 1
                } else {
                    s.cas
                }
            },
            None => 1,
        };
        assert(new_cas == spec_next_cas(pre.contents(), entry.key@)) by {
            if self.hashtable.spec_contains(self.segments, entry.key@) {
            }
        }
        let expire_at: u32 = match entry.ttl {
            None => u32::MAX,
            Some(t) => {
                if t == 0 {
                    u32::MAX
                } else {
                    let sum: u64 = now as u64 + t as u64;
                    if sum >= u32::MAX as u64 {
                        u32::MAX
                    } else {
                        sum as u32
                    }
                }
            },
        };
        assert(expire_at == spec_expire_at(entry.ttl, now));
        let item = Item {
            key: vstd::slice::slice_to_vec(entry.key.as_slice()),
            value: vstd::slice::slice_to_vec(entry.value.as_slice()),
            flags: entry.flags,
            cas: new_cas,
            expire_at,
            deleted: false,
        };
        let t: usize = self.segments.segments[g as usize].data.len();
        let ghost segs_a = self.segments;
        let ghost ht_a = self.hashtable;
        self.segments.append_item(g as usize, item);
        proof {
            assert forall|b2: int, i2: int|
                0 <= b2 < self.hashtable.buckets.len() && 0 <= i2
                    < self.hashtable.buckets@[b2]@.len() implies {
                let s = (#[trigger] self.hashtable.buckets@[b2]@[i2]);
                &&& s.seg < self.segments.segments.len()
                &&& self.segments.segments@[s.seg as int].ttl_bucket != NONE_SEG
                &&& s.idx < self.segments.segments@[s.seg as int].data.len()
                &&& self.segments.segments@[s.seg as int].data@[s.idx as int]
                    == segs_a.segments@[s.seg as int].data@[s.idx as int]
            } by {
                assert(self.hashtable.slot_ok(segs_a, b2, i2));
            }
            self.hashtable.lemma_same_refs(segs_a, self.segments);
            assert(self.hashtable.view_of(self.segments) == pre.contents());
        }
        let ghost m_pre = pre.contents();
        let ghost k = entry.key@;
        let ghost e_new = spec_stored_entry(m_pre, *entry, now);
        let ghost it_new = self.segments.segments@[g as int].data@[t as int];
        assert(it_new.key@ == k && it_new.value@ == entry.value@ && it_new.cas == new_cas
            && it_new.expire_at == expire_at && !it_new.deleted);
        match found {
            None => {
                proof {
                    assert(!ht_a.spec_contains(segs_a, k));
                    if self.hashtable.spec_contains(self.segments, k) {
                        let i = choose|i: int| self.hashtable.matches(self.segments, k, i);
                        assert(ht_a.matches(segs_a, k, i));
                    }
                }
                self.hashtable.push_slot(&self.segments, g, t as u32);
            },
            Some((i, s)) => {
                proof {
                    assert(ht_a.matches(segs_a, k, i as int));
                    assert(self.hashtable.matches(self.segments, k, i as int));
                    assert(ht_a.slot_ok(segs_a, ht_a.spec_bucket_of(k), i as int));
                    if s.seg == g {
                        assert((s.idx as int) < segs_a.segments@[g as int].data.len());
                    }
                }
                self.hashtable.set_slot(&self.segments, i, g, t as u32);
                let ghost segs_b = self.segments;
                let ghost ht_b = self.hashtable;
                proof {
                    assert(!self.hashtable.item_refd(s.seg as int, s.idx as int));
                }
                self.segments.mark_deleted(s.seg as usize, s.idx as usize);
                proof {
                    assert forall|b2: int, i2: int|
                        0 <= b2 < self.hashtable.buckets.len() && 0 <= i2
                            < self.hashtable.buckets@[b2]@.len() implies {
                        let s2 = (#[trigger] self.hashtable.buckets@[b2]@[i2]);
                        &&& s2.seg < self.segments.segments.len()
                        &&& self.segments.segments@[s2.seg as int].ttl_bucket != NONE_SEG
                        &&& s2.idx < self.segments.segments@[s2.seg as int].data.len()
                        &&& self.segments.segments@[s2.seg as int].data@[s2.idx as int]
                            == segs_b.segments@[s2.seg as int].data@[s2.idx as int]
                    } by {
                        assert(ht_b.slot_ok(segs_b, b2, i2));
                        if self.hashtable.buckets@[b2]@[i2].seg == s.seg
                            && self.hashtable.buckets@[b2]@[i2].idx == s.idx {
                            assert(self.hashtable.item_refd(s.seg as int, s.idx as int));
                            assert(false);
                        }
                    }
                    self.hashtable.lemma_same_refs(segs_b, self.segments);
                }
            },
        }
        // the key now maps to the freshly written entry; everything else is
        // unchanged
        proof {
            assert(self.hashtable.view_of(self.segments) == m_pre.insert(
                k,
                EntryView {
                    value: it_new.value@,
                    flags: it_new.flags,
                    cas: it_new.cas,
                    expire_at: it_new.expire_at,
                },
            ));
            assert(EntryView {
                value: it_new.value@,
                flags: it_new.flags,
                cas: it_new.cas,
                expire_at: it_new.expire_at,
            } == e_new);
        }
        // restore the connection invariant: every live item is referenced
        proof {
            assert forall|g2: int, t2: int|
                self.segments.in_chain(g2) && 0 <= t2 < self.segments.segments@[g2].data.len()
                    && !self.segments.segments@[g2].data@[t2].deleted implies #[trigger] self
                .hashtable.item_refd(g2, t2) by {
                if g2 == g as int && t2 == t as int {
                } else {
                    match found {
                        None => {
                            assert(segs_a.in_chain(g2));
                            assert(segs_a.segments@[g2].data@[t2]
                                == self.segments.segments@[g2].data@[t2]);
                            assert(ht_a.item_refd(g2, t2));
                            assert(ht_a.item_refd(g2, t2));
                        },
                        Some((i, s)) => {
                            assert(!(g2 == s.seg as int && t2 == s.idx as int));
                            assert(segs_a.in_chain(g2));
                            assert(segs_a.segments@[g2].data@[t2]
                                == self.segments.segments@[g2].data@[t2]);
                            assert(ht_a.item_refd(g2, t2));
                        },
                    }
                }
            }
            assert(self.wf());
        }
        Ok(())
    }
}

impl SegCache {
    /// Unconditionally store `entry`. Fails with `NotStored` exactly when no
    /// segment room can be found.
    pub fn set(&mut self, entry: &MemcacheEntry, now: u32) -> (r: Result<
        (),
        MemcacheStorageError,
    >)
        requires
            old(self).wf(),
            entry.key@.len() + entry.value@.len() + ITEM_HDR_SIZE <= usize::MAX,
        ensures
            final(self).wf(),
            final(self).segments.segments.len() == old(self).segments.segments.len(),
            final(self).segments.segment_size == old(self).segments.segment_size,
            final(self).ttl_buckets.last_expired == old(self).ttl_buckets.last_expired,
            r is Ok <==> old(self).spec_can_store(
                entry.key@.len() as int,
                entry.value@.len() as int,
                entry.ttl,
            ),
            r is Ok ==> final(self).contents() == old(self).contents().insert(
                entry.key@,
                spec_stored_entry(old(self).contents(), *entry, now),
            ),
            r is Err ==> r == Result::<(), MemcacheStorageError>::Err(
                MemcacheStorageError::NotStored,
            ) && *final(self) == *old(self),
    {
        match self.upsert(entry, now) {
            Ok(()) => Ok(()),
            Err(()) => Err(MemcacheStorageError::NotStored),
        }
    }

    /// Store `entry` only if its key is absent (or expired) at tick `now`.
    /// Fails with `NotStored` when the key is live or no room can be found.
    pub fn add(&mut self, entry: &MemcacheEntry, now: u32) -> (r: Result<
        (),
        MemcacheStorageError,
    >)
        requires
            old(self).wf(),
            entry.key@.len() + entry.value@.len() + ITEM_HDR_SIZE <= usize::MAX,
        ensures
            final(self).wf(),
            final(self).segments.segments.len() == old(self).segments.segments.len(),
            final(self).segments.segment_size == old(self).segments.segment_size,
            final(self).ttl_buckets.last_expired == old(self).ttl_buckets.last_expired,
            r is Ok <==> !spec_live(old(self).contents(), entry.key@, now) && old(self).spec_can_store(entry.key@.len() as int, entry.value@.len() as int, entry.ttl),
            r is Ok ==> final(self).contents() == old(self).contents().insert(
                entry.key@,
                spec_stored_entry(old(self).contents(), *entry, now),
            ),
            r is Err ==> r == Result::<(), MemcacheStorageError>::Err(
                MemcacheStorageError::NotStored,
            ) && *final(self) == *old(self),
    {
        if self.contains_live(entry.key.as_slice(), now) {
            return Err(MemcacheStorageError::NotStored);
        }
        match self.upsert(entry, now) {
            Ok(()) => Ok(()),
            Err(()) => Err(MemcacheStorageError::NotStored),
        }
    }

    /// Store `entry` only if its key is present and unexpired at tick `now`.
    /// Fails with `NotStored` when the key is not live or no room can be
    /// found.
    pub fn replace(&mut self, entry: &MemcacheEntry, now: u32) -> (r: Result<
        (),
        MemcacheStorageError,
    >)
        requires
            old(self).wf(),
            entry.key@.len() + entry.value@.len() + ITEM_HDR_SIZE <= usize::MAX,
        ensures
            final(self).wf(),
            final(self).segments.segments.len() == old(self).segments.segments.len(),
            final(self).segments.segment_size == old(self).segments.segment_size,
            final(self).ttl_buckets.last_expired == old(self).ttl_buckets.last_expired,
            r is Ok <==> spec_live(old(self).contents(), entry.key@, now) && old(self).spec_can_store(entry.key@.len() as int, entry.value@.len() as int, entry.ttl),
            r is Ok ==> final(self).contents() == old(self).contents().insert(
                entry.key@,
                spec_stored_entry(old(self).contents(), *entry, now),
            ),
            r is Err ==> r == Result::<(), MemcacheStorageError>::Err(
                MemcacheStorageError::NotStored,
            ) && *final(self) == *old(self),
    {
        if !self.contains_live(entry.key.as_slice(), now) {
            return Err(MemcacheStorageError::NotStored);
        }
        match self.upsert(entry, now) {
            Ok(()) => Ok(()),
            Err(()) => Err(MemcacheStorageError::NotStored),
        }
    }

    /// Store `entry` only if its key is live and its current CAS counter
    /// equals `entry.cas`. Fails with `NotFound` when the key is not live,
    /// `Exists` when the counter differs, and `NotStored` when no room can be
    /// found.
    pub fn cas(&mut self, entry: &MemcacheEntry, now: u32) -> (r: Result<
        (),
        MemcacheStorageError,
    >)
        requires
            old(self).wf(),
            entry.key@.len() + entry.value@.len() + ITEM_HDR_SIZE <= usize::MAX,
            entry.cas is Some,
        ensures
            final(self).wf(),
            final(self).segments.segments.len() == old(self).segments.segments.len(),
            final(self).segments.segment_size == old(self).segments.segment_size,
            final(self).ttl_buckets.last_expired == old(self).ttl_buckets.last_expired,
            ({
                let m = old(self).contents();
                let k = entry.key@;
                let live = spec_live(m, k, now);
                let can = old(self).spec_can_store(k.len() as int, entry.value@.len() as int, entry.ttl);
                match r {
                    Ok(()) => live && m[k].cas == entry.cas->0 && can && final(self).contents()
                        == m.insert(k, spec_stored_entry(m, *entry, now)),
                    Err(e) => {
                        &&& *final(self) == *old(self)
                        &&& (e == MemcacheStorageError::NotFound <==> !live)
                        &&& (e == MemcacheStorageError::Exists <==> live && m[k].cas
                            != entry.cas->0)
                        &&& (e == MemcacheStorageError::NotStored <==> live && m[k].cas
                            == entry.cas->0 && !can)
                    },
                }
            }),
    {
        let expected: u64 = match entry.cas {
            Some(c) => c,
            None => 0,
        };
        match self.hashtable.lookup(&self.segments, entry.key.as_slice()) {
            Some((i, s)) => {
                proof {
                    self.hashtable.lemma_match_unique(self.segments, entry.key@, i as int);
                }
                if s.expire_at <= now {
                    return Err(MemcacheStorageError::NotFound);
                }
                if s.cas != expected {
                    return Err(MemcacheStorageError::Exists);
                }
                match self.upsert(entry, now) {
                    Ok(()) => Ok(()),
                    Err(()) => Err(MemcacheStorageError::NotStored),
                }
            },
            None => {
                proof {
                    if self.contents().contains_key(entry.key@) {
                        assert(self.hashtable.spec_contains(self.segments, entry.key@));
                    }
                }
                Err(MemcacheStorageError::NotFound)
            },
        }
    }

    /// Remove `key`. Fails with `NotFound` exactly when the key is absent or
    /// expired at tick `now`.
    pub fn delete(&mut self, key: &[u8], now: u32) -> (r: Result<(), MemcacheStorageError>)
        requires
            old(self).wf(),
        ensures
            final(self).wf(),
            final(self).segments.segments.len() == old(self).segments.segments.len(),
            final(self).segments.segment_size == old(self).segments.segment_size,
            final(self).ttl_buckets.last_expired == old(self).ttl_buckets.last_expired,
            r is Ok <==> spec_live(old(self).contents(), key@, now),
            r is Ok ==> final(self).contents() == old(self).contents().remove(key@),
            r is Err ==> r == Result::<(), MemcacheStorageError>::Err(
                MemcacheStorageError::NotFound,
            ) && *final(self) == *old(self),
    {
        match self.hashtable.lookup(&self.segments, key) {
            Some((i, s)) => {
                proof {
                    self.hashtable.lemma_match_unique(self.segments, key@, i as int);
                    assert(self.hashtable.slot_ok(
                        self.segments,
                        self.hashtable.spec_bucket_of(key@),
                        i as int,
                    ));
                }
                if s.expire_at <= now {
                    return Err(MemcacheStorageError::NotFound);
                }
                let ghost segs_b = self.segments;
                let ghost ht_a = self.hashtable;
                self.hashtable.remove_slot(&self.segments, key, i);
                let ghost ht_b = self.hashtable;
                proof {
                    assert(!self.hashtable.item_refd(s.seg as int, s.idx as int));
                }
                self.segments.mark_deleted(s.seg as usize, s.idx as usize);
                proof {
                    assert forall|b2: int, i2: int|
                        0 <= b2 < self.hashtable.buckets.len() && 0 <= i2
                            < self.hashtable.buckets@[b2]@.len() implies {
                        let s2 = (#[trigger] self.hashtable.buckets@[b2]@[i2]);
                        &&& s2.seg < self.segments.segments.len()
                        &&& self.segments.segments@[s2.seg as int].ttl_bucket != NONE_SEG
                        &&& s2.idx < self.segments.segments@[s2.seg as int].data.len()
                        &&& self.segments.segments@[s2.seg as int].data@[s2.idx as int]
                            == segs_b.segments@[s2.seg as int].data@[s2.idx as int]
                    } by {
                        assert(ht_b.slot_ok(segs_b, b2, i2));
                        if self.hashtable.buckets@[b2]@[i2].seg == s.seg
                            && self.hashtable.buckets@[b2]@[i2].idx == s.idx {
                            assert(self.hashtable.item_refd(s.seg as int, s.idx as int));
                            assert(false);
                        }
                    }
                    self.hashtable.lemma_same_refs(segs_b, self.segments);
                    // the connection invariant: the deleted item is the only
                    // live item that lost its slot
                    assert forall|g2: int, t2: int|
                        self.segments.in_chain(g2) && 0 <= t2
                            < self.segments.segments@[g2].data.len()
                            && !self.segments.segments@[g2].data@[t2].deleted implies
                        #[trigger] self.hashtable.item_refd(g2, t2) by {
                        assert(!(g2 == s.seg as int && t2 == s.idx as int));
                        assert(segs_b.in_chain(g2));
                        assert(segs_b.segments@[g2].data@[t2]
                            == self.segments.segments@[g2].data@[t2]);
                        assert(ht_a.item_refd(g2, t2));
                    }
                    assert(self.wf());
                }
                Ok(())
            },
            None => {
                proof {
                    if self.contents().contains_key(key@) {
                        assert(self.hashtable.spec_contains(self.segments, key@));
                    }
                }
                Err(MemcacheStorageError::NotFound)
            },
        }
    }
}

/// Every segment other than `g` keeps its items, its chain membership and
/// its creation time.
pub open spec fn other_segments_kept(pre: SegCache, post: SegCache, g: int) -> bool {
    forall|g2: int|
        0 <= g2 < pre.segments.segments.len() && g2 != g ==> {
            let s1 = (#[trigger] post.segments.segments@[g2]);
            let s0 = pre.segments.segments@[g2];
            &&& s1.data == s0.data
            &&& s1.ttl_bucket == s0.ttl_bucket
            &&& s1.create_at == s0.create_at
        }
}

/// Every key still present afterwards was present before, with the same
/// entry.
pub open spec fn contents_kept(pre: SegCache, post: SegCache) -> bool {
    forall|k: Seq<u8>| #[trigger]
        post.contents().contains_key(k) ==> pre.contents().contains_key(k) && post.contents()[k]
            == pre.contents()[k]
}

/// Every key that disappeared is witnessed by a live item of segment `g`
/// carrying that key and the entry's expiry tick.
pub open spec fn removed_keys_witnessed(pre: SegCache, post: SegCache, g: int) -> bool {
    forall|k: Seq<u8>| #[trigger]
        pre.contents().contains_key(k) && !post.contents().contains_key(k) ==> exists|t: int|
            0 <= t < pre.segments.segments@[g].data.len() && !(
            #[trigger] pre.segments.segments@[g].data@[t]).deleted
                && pre.segments.segments@[g].data@[t].key@ == k
                && pre.segments.segments@[g].data@[t].expire_at == pre.contents()[k].expire_at
}

/// Every key unexpired at `now` is kept.
pub open spec fn unexpired_kept(pre: SegCache, post: SegCache, now: u32) -> bool {
    forall|k: Seq<u8>| #[trigger]
        pre.contents().contains_key(k) && pre.contents()[k].expire_at > now
            ==> post.contents().contains_key(k)
}

/// The width (seconds) of the expiry window of TTL bucket `b`.
pub open spec fn spec_bucket_width(b: int) -> int {
    crate::ttl::spec_interval(b / 256)
}

/// Whether segment `g` is ripe for the sweep at tick `now`: it is in a
/// chain, its bucket's expiry window has passed since the segment was
/// linked, and every live item in it has expired.
pub open spec fn spec_sweepable(segs: Segments, g: int, now: u32) -> bool {
    &&& segs.in_chain(g)
    &&& segs.segments@[g].create_at + spec_bucket_width(segs.segments@[g].ttl_bucket as int)
        <= now
    &&& forall|t: int|
        0 <= t < segs.segments@[g].data.len() && !(#[trigger] segs.segments@[g].data@[t]).deleted
            ==> segs.segments@[g].data@[t].expire_at <= now
}

/// Number of segments among the first `upto` that are linked into a chain.
pub open spec fn spec_n_chained(segs: Segments, upto: int) -> int
    decreases upto,
{
    if upto <= 0 {
        0
    } else {
        spec_n_chained(segs, upto - 1) + (if segs.in_chain(upto - 1) {
            1int
        } else {
            0
        })
    }
}

/// The chained-segment count is between 0 and `upto`.
pub proof fn lemma_n_chained_bounds(segs: Segments, upto: int)
    ensures
        0 <= spec_n_chained(segs, upto) <= (if upto >= 0 {
            upto
        } else {
            0
        }),
    decreases upto,
{
    if upto > 0 {
        lemma_n_chained_bounds(segs, upto - 1);
    }
}

/// Unchaining exactly one segment lowers the chained count by one.
pub proof fn lemma_n_chained_unchain(s0: Segments, s1: Segments, g: int, upto: int)
    requires
        s0.segments.len() == s1.segments.len(),
        forall|g2: int|
            0 <= g2 < s0.segments.len() && g2 != g ==> (#[trigger] s1.segments@[g2]).ttl_bucket
                == s0.segments@[g2].ttl_bucket,
        0 <= g < s0.segments.len(),
        s0.in_chain(g),
        !s1.in_chain(g),
        upto <= s0.segments.len(),
    ensures
        spec_n_chained(s1, upto) == spec_n_chained(s0, upto) - (if g < upto {
            1int
        } else {
            0
        }),
    decreases upto,
{
    if upto > 0 {
        lemma_n_chained_unchain(s0, s1, g, upto - 1);
    }
}

/// With no segment chained the chained count is zero.
pub proof fn lemma_n_chained_zero(segs: Segments, upto: int)
    requires
        forall|g: int| 0 <= g < upto ==> !segs.in_chain(g),
    ensures
        spec_n_chained(segs, upto) == 0,
    decreases upto,
{
    if upto > 0 {
        lemma_n_chained_zero(segs, upto - 1);
    }
}

impl SegCache {
    /// Unlink segment `g` from its TTL bucket chain, drop all its live items
    /// from the index, and return it to the free list. Every key removed from
    /// the contents is witnessed by a live item of `g` carrying that key and
    /// the entry's expiry tick.
    #[verifier::rlimit(60)]
    fn reclaim_segment(&mut self, g: usize)
        requires
            old(self).wf(),
            old(self).segments.in_chain(g as int),
        ensures
            final(self).wf(),
            final(self).segments.segments.len() == old(self).segments.segments.len(),
            final(self).segments.segment_size == old(self).segments.segment_size,
            final(self).ttl_buckets.last_expired == old(self).ttl_buckets.last_expired,
            !final(self).segments.in_chain(g as int),
            other_segments_kept(*old(self), *final(self), g as int),
            contents_kept(*old(self), *final(self)),
            removed_keys_witnessed(*old(self), *final(self), g as int),
            final(self).segments.free@ == old(self).segments.free@ + seq![g as u32],
    {
        let ghost m0 = self.contents();
        let ghost d0 = self.segments.segments@[g as int].data@;
        let ghost pre = *self;
        // drop every live item of the segment from the index
        let mut t: usize = 0;
        let n_data = self.segments.segments[g].data.len();
        while t < n_data
            invariant
                self.wf(),
                self.segments.in_chain(g as int),
                g < self.segments.segments.len(),
                t <= n_data,
                self.segments.segments@[g as int].data.len() == n_data,
                n_data == d0.len(),
                self.segments.segments.len() == pre.segments.segments.len(),
                self.segments.segment_size == pre.segments.segment_size,
                self.segments.free@ == pre.segments.free@,
                self.ttl_buckets == pre.ttl_buckets,
                forall|g2: int|
                    0 <= g2 < pre.segments.segments.len() && g2 != g ==> (
                    #[trigger] self.segments.segments@[g2]) == pre.segments.segments@[g2],
                ({
                    let s1 = self.segments.segments@[g as int];
                    let s0 = pre.segments.segments@[g as int];
                    &&& s1.ttl_bucket == s0.ttl_bucket
                    &&& s1.create_at == s0.create_at
                    &&& s1.next == s0.next
                    &&& s1.prev == s0.prev
                    &&& s1.write_offset == s0.write_offset
                    &&& s1.n_items == s0.n_items
                }),
                forall|t2: int|
                    0 <= t2 < t ==> (#[trigger] self.segments.segments@[g as int].data@[t2]).deleted,
                forall|t2: int|
                    t <= t2 < n_data ==> (#[trigger] self.segments.segments@[g as int].data@[t2])
                        == d0[t2],
                forall|k: Seq<u8>| #[trigger]
                    self.contents().contains_key(k) ==> m0.contains_key(k) && self.contents()[k]
                        == m0[k],
                forall|k: Seq<u8>| #[trigger]
                    m0.contains_key(k) && !self.contents().contains_key(k) ==> exists|t2: int|
                        0 <= t2 < t && !(#[trigger] d0[t2]).deleted && d0[t2].key@ == k
                            && d0[t2].expire_at == m0[k].expire_at,
            decreases n_data - t,
        {
            let is_live = !self.segments.segments[g].data[t].deleted;
            if is_live {
                let ghost m_cur = self.contents();
                let ghost k = self.segments.segments@[g as int].data@[t as int].key@;
                proof {
                    assert(self.hashtable.item_refd(g as int, t as int));
                }
                // the key's single slot references exactly this item
                let found = {
                    let key_ref: &Vec<u8> = &self.segments.segments[g].data[t].key;
                    self.hashtable.lookup(&self.segments, key_ref.as_slice())
                };
                let (i, s) = match found {
                    Some(p) => p,
                    None => {
                        proof {
                            let (b3, i3) = choose|b3: int, i3: int|
                                0 <= b3 < self.hashtable.buckets.len() && 0 <= i3
                                    < self.hashtable.buckets@[b3]@.len() && (
                                #[trigger] self.hashtable.buckets@[b3]@[i3]).seg == g && self
                                    .hashtable.buckets@[b3]@[i3].idx == t;
                            assert(self.hashtable.slot_ok(self.segments, b3, i3));
                            assert(self.hashtable.slot_key(self.segments, b3, i3) == k);
                            assert(self.hashtable.matches(self.segments, k, i3));
                            assert(false);
                        }
                        return ;
                    },
                };
                proof {
                    // the found slot targets (g, t): both reference key k, and
                    // live keys are unique
                    self.hashtable.lemma_match_unique(self.segments, k, i as int);
                    let (b3, i3) = choose|b3: int, i3: int|
                        0 <= b3 < self.hashtable.buckets.len() && 0 <= i3
                            < self.hashtable.buckets@[b3]@.len() && (
                        #[trigger] self.hashtable.buckets@[b3]@[i3]).seg == g && self
                            .hashtable.buckets@[b3]@[i3].idx == t;
                    assert(self.hashtable.slot_ok(self.segments, b3, i3));
                    assert(self.hashtable.slot_key(self.segments, b3, i3) == k);
                    assert(self.hashtable.matches(self.segments, k, i3));
                    assert(i3 == i as int);
                    assert(s.seg == g && s.idx == t);
                    assert(self.contents()[k].expire_at == s.expire_at);
                    assert(s.expire_at == self.segments.segments@[g as int].data@[t as int].expire_at);
                }
                let ghost segs_b = self.segments;
                let ghost ht_a = self.hashtable;
                {
                    let key_ref: &Vec<u8> = &self.segments.segments[g].data[t].key;
                    self.hashtable.remove_slot(&self.segments, key_ref.as_slice(), i);
                }
                let ghost ht_b = self.hashtable;
                proof {
                    assert(!self.hashtable.item_refd(g as int, t as int));
                }
                self.segments.mark_deleted(g, t);
                proof {
                    assert forall|b2: int, i2: int|
                        0 <= b2 < self.hashtable.buckets.len() && 0 <= i2
                            < self.hashtable.buckets@[b2]@.len() implies {
                        let s2 = (#[trigger] self.hashtable.buckets@[b2]@[i2]);
                        &&& s2.seg < self.segments.segments.len()
                        &&& self.segments.segments@[s2.seg as int].ttl_bucket != NONE_SEG
                        &&& s2.idx < self.segments.segments@[s2.seg as int].data.len()
                        &&& self.segments.segments@[s2.seg as int].data@[s2.idx as int]
                            == segs_b.segments@[s2.seg as int].data@[s2.idx as int]
                    } by {
                        assert(ht_b.slot_ok(segs_b, b2, i2));
                        if self.hashtable.buckets@[b2]@[i2].seg == g
                            && self.hashtable.buckets@[b2]@[i2].idx == t {
                            assert(self.hashtable.item_refd(g as int, t as int));
                            assert(false);
                        }
                    }
                    self.hashtable.lemma_same_refs(segs_b, self.segments);
                    assert(self.contents() == m_cur.remove(k));
                    // connection invariant: only (g, t) lost its slot, and it
                    // is now deleted
                    assert forall|g2: int, t2: int|
                        self.segments.in_chain(g2) && 0 <= t2
                            < self.segments.segments@[g2].data.len()
                            && !self.segments.segments@[g2].data@[t2].deleted implies
                        #[trigger] self.hashtable.item_refd(g2, t2) by {
                        assert(!(g2 == g as int && t2 == t as int));
                        assert(segs_b.in_chain(g2));
                        assert(segs_b.segments@[g2].data@[t2]
                            == self.segments.segments@[g2].data@[t2]);
                        assert(ht_a.item_refd(g2, t2));
                    }
                    assert(self.wf());
                    // the removed key is witnessed by item (g, t)
                    assert(!d0[t as int].deleted && d0[t as int].key@ == k);
                    assert(d0[t as int].expire_at == m0[k].expire_at);
                }
            }
            t = t + 1;
        }
        // no slot references the segment any more: all its items are deleted
        let ghost segs_c = self.segments;
        let ghost ht_c = self.hashtable;
        let ghost m_exit = self.contents();
        proof {
            assert forall|b2: int, i2: int|
                0 <= b2 < self.hashtable.buckets.len() && 0 <= i2
                    < self.hashtable.buckets@[b2]@.len() implies (
            #[trigger] self.hashtable.buckets@[b2]@[i2]).seg != g by {
                assert(self.hashtable.slot_ok(self.segments, b2, i2));
            }
            assert forall|k: Seq<u8>| #[trigger]
                m_exit.contains_key(k) implies m0.contains_key(k) && m_exit[k] == m0[k] by {
                assert(self.contents().contains_key(k));
            }
            assert forall|k: Seq<u8>| #[trigger]
                m0.contains_key(k) && !m_exit.contains_key(k) implies exists|t2: int|
                0 <= t2 < d0.len() && !(#[trigger] d0[t2]).deleted && d0[t2].key@ == k && d0[
                t2].expire_at == m0[k].expire_at by {
                assert(!self.contents().contains_key(k));
            }
        }
        // unlink from the bucket chain
        let b = self.segments.segments[g].ttl_bucket as usize;
        let seg_prev = self.segments.segments[g].prev;
        let seg_next = self.segments.segments[g].next;
        let n_segs = self.segments.segments.len();
        let prev_in_b = seg_prev != NONE_SEG && seg_prev as usize != g && (seg_prev as usize)
            < n_segs && self.segments.segments[seg_prev as usize].ttl_bucket as usize == b;
        let next_in_b = seg_next != NONE_SEG && seg_next as usize != g && (seg_next as usize)
            < n_segs && self.segments.segments[seg_next as usize].ttl_bucket as usize == b;
        let bref = &mut self.ttl_buckets.buckets[b];
        if bref.last_seg as usize == g {
            bref.last_seg = if prev_in_b {
                seg_prev
            } else {
                NONE_SEG
            };
        }
        if bref.first_seg as usize == g {
            bref.first_seg = if next_in_b {
                seg_next
            } else {
                NONE_SEG
            };
        }
        if bref.n_segments > 0 {
            bref.n_segments = bref.n_segments - 1;
        }
        if prev_in_b {
            self.segments.segments[seg_prev as usize].next = seg_next;
        }
        if next_in_b {
            self.segments.segments[seg_next as usize].prev = seg_prev;
        }
        // clear the segment and return it to the free list
        let seg = &mut self.segments.segments[g];
        seg.ttl_bucket = NONE_SEG;
        seg.next = NONE_SEG;
        seg.prev = NONE_SEG;
        seg.data.clear();
        seg.write_offset = 0;
        seg.n_items = 0;
        seg.n_dead_items = 0;
        seg.create_at = 0;
        proof {
            assert forall|j: int|
                0 <= j < pre.segments.free.len() implies (#[trigger] pre.segments.free@[j])
                    != g by {
                assert(segs_c.segments@[pre.segments.free@[j] as int].ttl_bucket == NONE_SEG);
            }
        }
        self.segments.free.push(g as u32);
        proof {
            assert(self.segments.wf());
            assert forall|b2: int, i2: int|
                0 <= b2 < self.hashtable.buckets.len() && 0 <= i2
                    < self.hashtable.buckets@[b2]@.len() implies {
                let s2 = (#[trigger] self.hashtable.buckets@[b2]@[i2]);
                &&& s2.seg < self.segments.segments.len()
                &&& self.segments.segments@[s2.seg as int].ttl_bucket != NONE_SEG
                &&& s2.idx < self.segments.segments@[s2.seg as int].data.len()
                &&& self.segments.segments@[s2.seg as int].data@[s2.idx as int]
                    == segs_c.segments@[s2.seg as int].data@[s2.idx as int]
            } by {
                assert(ht_c.slot_ok(segs_c, b2, i2));
                assert(self.hashtable.buckets@[b2]@[i2].seg != g);
            }
            self.hashtable.lemma_same_refs(segs_c, self.segments);
            assert forall|g2: int, t2: int|
                self.segments.in_chain(g2) && 0 <= t2 < self.segments.segments@[g2].data.len()
                    && !self.segments.segments@[g2].data@[t2].deleted implies #[trigger] self
                .hashtable.item_refd(g2, t2) by {
                assert(g2 != g as int);
                assert(segs_c.in_chain(g2));
                assert(segs_c.segments@[g2].data@[t2] == self.segments.segments@[g2].data@[t2]);
                assert(ht_c.item_refd(g2, t2));
            }
            assert(self.wf());
            // bridge the loop invariant to the postconditions
            assert(self.contents() == m_exit);
            assert forall|k: Seq<u8>| #[trigger]
                self.contents().contains_key(k) implies m0.contains_key(k) && self.contents()[k]
                == m0[k] by {
                assert(m_exit.contains_key(k));
            }
            assert forall|k: Seq<u8>| #[trigger]
                m0.contains_key(k) && !self.contents().contains_key(k) implies exists|t2: int|
                0 <= t2 < d0.len() && !(#[trigger] d0[t2]).deleted && d0[t2].key@ == k && d0[
                t2].expire_at == m0[k].expire_at by {
                assert(!m_exit.contains_key(k));
            }
            assert(contents_kept(pre, *self));
            assert(removed_keys_witnessed(pre, *self, g as int));
            assert(self.segments.free@ =~= pre.segments.free@ + seq![g as u32]);
        }
    }

    /// Sweep the TTL buckets at tick `now`: return to the free list every
    /// chained segment whose bucket window has passed and whose live items
    /// have all expired, dropping those items from the index. Returns the
    /// number of segments reclaimed. Keys that are unexpired at `now` are
    /// never removed.
    pub fn expire(&mut self, now: u32) -> (n: usize)
        requires
            old(self).wf(),
        ensures
            final(self).wf(),
            final(self).segments.segments.len() == old(self).segments.segments.len(),
            final(self).segments.segment_size == old(self).segments.segment_size,
            final(self).ttl_buckets.last_expired == now,
            contents_kept(*old(self), *final(self)),
            unexpired_kept(*old(self), *final(self), now),
            old(self).ttl_buckets.last_expired == now ==> *final(self) == *old(self) && n == 0,
            old(self).ttl_buckets.last_expired != now ==> forall|g: int|
                spec_sweepable(old(self).segments, g, now) ==> !final(self).segments.in_chain(g),
            n == spec_n_chained(old(self).segments, old(self).segments.segments.len() as int)
                - spec_n_chained(final(self).segments, final(self).segments.segments.len() as int),
            final(self).segments.free@.len() == old(self).segments.free@.len() + n,
    {
        if self.ttl_buckets.last_expired == now {
            return 0;
        }
        self.ttl_buckets.last_expired = now;
        let ghost m0 = self.contents();
        let ghost segs0 = old(self).segments;
        let mut n: usize = 0;
        let mut g: usize = 0;
        let n_segs = self.segments.segments.len();
        while g < n_segs
            invariant
                self.wf(),
                n_segs == self.segments.segments.len(),
                n <= g <= n_segs,
                segs0 == old(self).segments,
                self.segments.segment_size == old(self).segments.segment_size,
                self.ttl_buckets.last_expired == now,
                forall|k: Seq<u8>| #[trigger]
                    self.contents().contains_key(k) ==> m0.contains_key(k) && self.contents()[k]
                        == m0[k],
                forall|k: Seq<u8>| #[trigger]
                    m0.contains_key(k) && m0[k].expire_at > now ==> self.contents().contains_key(
                        k,
                    ),
                forall|g2: int|
                    g <= g2 < n_segs ==> {
                        let s1 = (#[trigger] self.segments.segments@[g2]);
                        let s0 = segs0.segments@[g2];
                        s1.data == s0.data && s1.ttl_bucket == s0.ttl_bucket && s1.create_at
                            == s0.create_at
                    },
                forall|g2: int|
                    0 <= g2 < g && spec_sweepable(segs0, g2, now) ==> !(
                    #[trigger] self.segments.in_chain(g2)),
                n == spec_n_chained(segs0, n_segs as int) - spec_n_chained(
                    self.segments,
                    n_segs as int,
                ),
                self.segments.free@.len() == old(self).segments.free@.len() + n,
            decreases n_segs - g,
        {
            let ghost seg_old = segs0.segments@[g as int];
            if self.segments.segments[g].ttl_bucket != NONE_SEG {
                let b = self.segments.segments[g].ttl_bucket as usize;
                let width: u32 = if b < 256 {
                    8
                } else if b < 512 {
                    128
                } else {
                    if b < 768 {
                        2048
                    } else {
                        32768
                    }
                };
                proof {
                    assert(width == spec_bucket_width(b as int));
                }
                let create = self.segments.segments[g].create_at;
                if create as u64 + width as u64 <= now as u64 {
                    // reclaim only when every live item has in fact expired
                    let mut all_expired = true;
                    let mut t: usize = 0;
                    let n_data = self.segments.segments[g].data.len();
                    while t < n_data
                        invariant_except_break
                            all_expired,
                        invariant
                            self.wf(),
                            g < self.segments.segments.len(),
                            n_data == self.segments.segments@[g as int].data.len(),
                            t <= n_data,
                            all_expired ==> forall|t2: int|
                                0 <= t2 < t && !(#[trigger] self.segments.segments@[g as int].data@[t2]).deleted ==> self.segments.segments@[g as int].data@[t2].expire_at <= now,
                        ensures
                            t <= n_data,
                            all_expired && t == n_data ==> forall|t2: int|
                                0 <= t2 < n_data && !(#[trigger] self.segments.segments@[g as int].data@[t2]).deleted ==> self.segments.segments@[g as int].data@[t2].expire_at <= now,
                            !(all_expired && t == n_data) ==> exists|t2: int|
                                0 <= t2 < n_data && !(#[trigger] self.segments.segments@[g as int].data@[t2]).deleted && self.segments.segments@[g as int].data@[t2].expire_at > now,
                        decreases n_data - t,
                    {
                        let it = &self.segments.segments[g].data[t];
                        if !it.deleted && it.expire_at > now {
                            all_expired = false;
                            break ;
                        }
                        t = t + 1;
                    }
                    if all_expired && t == n_data {
                        let ghost m_cur = self.contents();
                        let ghost d_cur = self.segments.segments@[g as int].data@;
                        let ghost before = *self;
                        self.reclaim_segment(g);
                        proof {
                            assert forall|k: Seq<u8>| #[trigger]
                                m0.contains_key(k) && m0[k].expire_at > now implies self.contents()
                                .contains_key(k) by {
                                if !self.contents().contains_key(k) {
                                    if m_cur.contains_key(k) {
                                        let t2 = choose|t2: int|
                                            0 <= t2 < d_cur.len()
                                            && !(#[trigger] d_cur[t2]).deleted
                                            && d_cur[t2].key@ == k
                                            && d_cur[t2].expire_at == m_cur[k].expire_at;
                                        assert(d_cur[t2].expire_at <= now);
                                    }
                                }
                            }
                            lemma_n_chained_unchain(
                                before.segments,
                                self.segments,
                                g as int,
                                n_segs as int,
                            );
                            lemma_n_chained_bounds(segs0, n_segs as int);
                            lemma_n_chained_bounds(self.segments, n_segs as int);
                            assert forall|g2: int|
                                0 <= g2 <= g && spec_sweepable(segs0, g2, now) implies !(
                            #[trigger] self.segments.in_chain(g2)) by {
                                if g2 < g {
                                    assert(self.segments.segments@[g2].ttl_bucket
                                        == before.segments.segments@[g2].ttl_bucket);
                                    assert(!before.segments.in_chain(g2));
                                }
                            }
                        }
                        n = n + 1;
                    } else {
                        proof {
                            // a live unexpired item rules the segment out
                            assert(!spec_sweepable(segs0, g as int, now)) by {
                                let t2 = choose|t2: int|
                                    0 <= t2 < n_data
                                    && !(#[trigger] self.segments.segments@[g as int].data@[t2]).deleted
                                    && self.segments.segments@[g as int].data@[t2].expire_at
                                        > now;
                                assert(seg_old.data@[t2] == self.segments.segments@[g as int].data@[t2]);
                            }
                        }
                    }
                } else {
                    proof {
                        // the bucket window has not passed yet
                        assert(!spec_sweepable(segs0, g as int, now));
                    }
                }
            } else {
                proof {
                    assert(!spec_sweepable(segs0, g as int, now));
                }
            }
            g = g + 1;
        }
        n
    }

    /// Unconditionally return every chained segment to the free list and drop
    /// every key. Afterwards the cache is empty.
    pub fn clear(&mut self) -> (n: usize)
        requires
            old(self).wf(),
        ensures
            final(self).wf(),
            final(self).segments.segments.len() == old(self).segments.segments.len(),
            final(self).segments.segment_size == old(self).segments.segment_size,
            final(self).ttl_buckets.last_expired == old(self).ttl_buckets.last_expired,
            final(self).contents() == Map::<Seq<u8>, EntryView>::empty(),
            forall|g: int| 0 <= g < final(self).segments.segments.len() ==> !final(self).segments.in_chain(g),
            n == spec_n_chained(old(self).segments, old(self).segments.segments.len() as int),
            final(self).segments.free@.len() == old(self).segments.free@.len() + n,
    {
        let ghost segs0 = old(self).segments;
        let mut n: usize = 0;
        let mut g: usize = 0;
        let n_segs = self.segments.segments.len();
        while g < n_segs
            invariant
                self.wf(),
                n_segs == self.segments.segments.len(),
                n <= g <= n_segs,
                segs0 == old(self).segments,
                self.segments.segment_size == old(self).segments.segment_size,
                self.ttl_buckets.last_expired == old(self).ttl_buckets.last_expired,
                forall|g2: int| 0 <= g2 < g ==> !self.segments.in_chain(g2),
                n == spec_n_chained(segs0, n_segs as int) - spec_n_chained(
                    self.segments,
                    n_segs as int,
                ),
                self.segments.free@.len() == old(self).segments.free@.len() + n,
            decreases n_segs - g,
        {
            if self.segments.segments[g].ttl_bucket != NONE_SEG {
                let ghost before = *self;
                self.reclaim_segment(g);
                proof {
                    assert forall|g2: int| 0 <= g2 < g implies !self.segments.in_chain(g2) by {
                        assert(self.segments.segments@[g2].ttl_bucket
                            == before.segments.segments@[g2].ttl_bucket);
                        assert(!before.segments.in_chain(g2));
                    }
                    lemma_n_chained_unchain(
                        before.segments,
                        self.segments,
                        g as int,
                        n_segs as int,
                    );
                    lemma_n_chained_bounds(segs0, n_segs as int);
                    lemma_n_chained_bounds(self.segments, n_segs as int);
                }
                n = n + 1;
            }
            g = g + 1;
        }
        proof {
            assert forall|k: Seq<u8>| !(#[trigger] self.hashtable.spec_contains(
                self.segments,
                k,
            )) by {
                if self.hashtable.spec_contains(self.segments, k) {
                    let i = choose|i: int| self.hashtable.matches(self.segments, k, i);
                    let b = self.hashtable.spec_bucket_of(k);
                    assert(self.hashtable.slot_ok(self.segments, b, i));
                    let s = self.hashtable.buckets@[b]@[i];
                    assert(self.segments.in_chain(s.seg as int));
                    assert(false);
                }
            }
            assert(self.contents() =~= Map::<Seq<u8>, EntryView>::empty());
            lemma_n_chained_zero(self.segments, n_segs as int);
        }
        n
    }
}

impl SegCache {
    /// Store `entry`, sweeping expired segments on write pressure: when no
    /// room can be found at first, run the expiration sweep and try once
    /// more. Unexpired keys other than the target are never lost, and the
    /// write fails only when even the sweep frees no room.
    pub fn set_with_pressure_sweep(&mut self, entry: &MemcacheEntry, now: u32) -> (r: Result<
        (),
        MemcacheStorageError,
    >)
        requires
            old(self).wf(),
            entry.key@.len() + entry.value@.len() + ITEM_HDR_SIZE <= usize::MAX,
        ensures
            final(self).wf(),
            final(self).segments.segments.len() == old(self).segments.segments.len(),
            final(self).segments.segment_size == old(self).segments.segment_size,
            forall|k: Seq<u8>| #[trigger]
                old(self).contents().contains_key(k) && old(self).contents()[k].expire_at > now
                    && k != entry.key@ ==> final(self).contents().contains_key(k) && final(self).contents()[k] == old(self).contents()[k],
            r is Ok ==> ({
                let e = final(self).contents()[entry.key@];
                &&& final(self).contents().contains_key(entry.key@)
                &&& e.value == entry.value@
                &&& e.flags == entry.flags
                &&& e.expire_at == spec_expire_at(entry.ttl, now)
            }),
            r is Err ==> r == Result::<(), MemcacheStorageError>::Err(
                MemcacheStorageError::NotStored,
            ) && !final(self).spec_can_store(
                entry.key@.len() as int,
                entry.value@.len() as int,
                entry.ttl,
            ) && (final(self).contents().contains_key(entry.key@) ==> old(self).contents().contains_key(entry.key@) && final(self).contents()[entry.key@] == old(self).contents()[entry.key@]),
    {
        let ghost m0 = self.contents();
        match self.set(entry, now) {
            Ok(()) => Ok(()),
            Err(_) => {
                let _ = self.expire(now);
                let ghost m1 = self.contents();
                match self.set(entry, now) {
                    Ok(()) => Ok(()),
                    Err(_) => {
                        proof {
                            if self.contents().contains_key(entry.key@) {
                                assert(m1.contains_key(entry.key@));
                                assert(m0.contains_key(entry.key@));
                            }
                        }
                        Err(MemcacheStorageError::NotStored)
                    },
                }
            },
        }
    }
}

/// The key and abstract entry carried by a returned item.
pub open spec fn spec_item_pair(it: Item) -> (Seq<u8>, EntryView) {
    (
        it.key@,
        EntryView { value: it.value@, flags: it.flags, cas: it.cas, expire_at: it.expire_at },
    )
}

/// The sequence of hits a `get` of `keys` at tick `now` returns: for each key
/// in order, its key and entry when live, nothing otherwise.
pub open spec fn spec_hits(m: Map<Seq<u8>, EntryView>, keys: Seq<Seq<u8>>, now: u32) -> Seq<
    (Seq<u8>, EntryView),
>
    decreases keys.len(),
{
    if keys.len() == 0 {
        Seq::empty()
    } else {
        spec_hits(m, keys.drop_last(), now) + (if spec_live(m, keys.last(), now) {
            seq![(keys.last(), m[keys.last()])]
        } else {
            Seq::empty()
        })
    }
}

} // verus!
