//! Hash-indexed lookup from keys to item locators inside segments.
//!
//! Each bucket holds a small set of slots. A slot stores a key tag (an
//! independent hash of the key), the item locator `(segment id, item index)`,
//! the key's CAS counter and its expiry tick. A lookup matches a slot only
//! when the stored tag equals the probe key's tag and the key bytes fetched
//! through the locator equal the probe key.
//!
//! The abstract content of the pair (table, segments) is a map from key bytes
//! to entries; all storage contracts are stated over that map.

use vstd::prelude::*;
use crate::seg::Segments;
use crate::ttl::NONE_SEG;

verus! {

/// Offset basis of the FNV-1a hash used for bucket addressing.
pub const FNV_OFFSET_BASIS: u64 = 0xcbf2_9ce4_8422_2325;
/// Offset basis of the independent FNV-1a hash used for key tags.
pub const TAG_OFFSET_BASIS: u64 = 0x8422_2325_cbf2_9ce4;
/// The FNV-1a multiplier.
pub const FNV_PRIME: u64 = 0x0000_0100_0000_01b3;

/// FNV-1a over `s` starting from state `h0`.
pub open spec fn spec_fnv_from(h0: u64, s: Seq<u8>) -> u64
    decreases s.len(),
{
    if s.len() == 0 {
        h0
    } else {
        ((((spec_fnv_from(h0, s.drop_last()) ^ s.last() as u64) as int) * (FNV_PRIME as int) % (
        0x1_0000_0000_0000_0000)) as u64)
    }
}

/// The bucket-addressing hash of a key.
pub open spec fn spec_hash(s: Seq<u8>) -> u64 {
    spec_fnv_from(FNV_OFFSET_BASIS, s)
}

/// The tag hash of a key.
pub open spec fn spec_tag(s: Seq<u8>) -> u64 {
    spec_fnv_from(TAG_OFFSET_BASIS, s)
}

fn hash_from(h0: u64, key: &[u8]) -> (h: u64)
    ensures
        h == spec_fnv_from(h0, key@),
{
    let mut h = h0;
    let mut i: usize = 0;
    while i < key.len()
        invariant
            i <= key@.len(),
            h == spec_fnv_from(h0, key@.take(i as int)),
        decreases key@.len() - i,
    {
        let x: u64 = h ^ (key[i] as u64);
        let p: u128 = (x as u128) * (FNV_PRIME as u128);
        h = (p % 0x1_0000_0000_0000_0000) as u64;
        proof {
            let t = key@.take(i + 1);
            assert(t.drop_last() =~= key@.take(i as int));
            assert(t.last() == key@[i as int]);
        }
        i = i + 1;
    }
    proof {
        assert(key@.take(key@.len() as int) =~= key@);
    }
    h
}

/// Whether two byte strings hold the same bytes.
pub fn bytes_eq(a: &[u8], b: &[u8]) -> (r: bool)
    ensures
        r == (a@ == b@),
{
    if a.len() != b.len() {
        proof {
            assert(a@ != b@);
        }
        return false;
    }
    let mut i: usize = 0;
    while i < a.len()
        invariant
            i <= a@.len(),
            a@.len() == b@.len(),
            forall|j: int| 0 <= j < i ==> a@[j] == b@[j],
        decreases a@.len() - i,
    {
        if a[i] != b[i] {
            proof {
                assert(a@ != b@);
            }
            return false;
        }
        i = i + 1;
    }
    proof {
        assert(a@ =~= b@);
    }
    true
}

/// The abstract content stored under one key.
pub struct EntryView {
    /// The value bytes.
    pub value: Seq<u8>,
    /// Opaque client flags.
    pub flags: u32,
    /// The key's current CAS counter.
    pub cas: u64,
    /// Coarse tick at which the entry expires; `u32::MAX` means never.
    pub expire_at: u32,
}

/// One hash slot: a key tag plus an item locator, CAS counter and expiry.
#[derive(Clone, Copy)]
pub struct Slot {
    /// Tag hash of the referenced key.
    pub tag: u64,
    /// Segment id of the referenced item.
    pub seg: u32,
    /// Index of the referenced item inside the segment.
    pub idx: u32,
    /// Current CAS counter of the key.
    pub cas: u64,
    /// Expiry tick of the entry; `u32::MAX` means never.
    pub expire_at: u32,
}

/// The hash index: an array of buckets of slots.
pub struct HashTable {
    /// The buckets; the bucket of a key is its hash modulo the bucket count.
    pub buckets: Vec<Vec<Slot>>,
}

impl HashTable {
    /// The bucket index that key `k` addresses.
    pub open spec fn spec_bucket_of(self, k: Seq<u8>) -> int {
        spec_hash(k) as int % (self.buckets.len() as int)
    }

    /// Structural validity of the slot at bucket `b`, position `i`: it points
    /// at a live item in an in-chain segment and caches that item's tag, CAS
    /// and expiry, and the item's key addresses bucket `b`.
    pub open spec fn slot_ok(self, segs: Segments, b: int, i: int) -> bool {
        let s = self.buckets@[b]@[i];
        &&& s.seg < segs.segments.len()
        &&& segs.segments@[s.seg as int].ttl_bucket != NONE_SEG
        &&& s.idx < segs.segments@[s.seg as int].data.len()
        &&& {
            let it = segs.segments@[s.seg as int].data@[s.idx as int];
            &&& !it.deleted
            &&& s.tag == spec_tag(it.key@)
            &&& s.cas == it.cas
            &&& s.expire_at == it.expire_at
            &&& self.spec_bucket_of(it.key@) == b
        }
    }

    /// The key bytes referenced by the slot at bucket `b`, position `i`.
    pub open spec fn slot_key(self, segs: Segments, b: int, i: int) -> Seq<u8> {
        let s = self.buckets@[b]@[i];
        segs.segments@[s.seg as int].data@[s.idx as int].key@
    }

    /// The abstract entry referenced by the slot at bucket `b`, position `i`.
    pub open spec fn slot_entry(self, segs: Segments, b: int, i: int) -> EntryView {
        let s = self.buckets@[b]@[i];
        let it = segs.segments@[s.seg as int].data@[s.idx as int];
        EntryView { value: it.value@, flags: it.flags, cas: s.cas, expire_at: s.expire_at }
    }

    /// Basic well-formedness: at least one bucket, every slot valid, and no
    /// two slots of a bucket referencing the same key.
    pub open spec fn wf_basic(self, segs: Segments) -> bool {
        &&& self.buckets.len() > 0
        &&& forall|b: int, i: int|
            0 <= b < self.buckets.len() && 0 <= i < self.buckets@[b]@.len()
                ==> #[trigger] self.slot_ok(segs, b, i)
        &&& forall|b: int, i: int, j: int|
            0 <= b < self.buckets.len() && 0 <= i < self.buckets@[b]@.len() && 0 <= j
                < self.buckets@[b]@.len() && i != j ==> #[trigger] self.slot_key(segs, b, i)
                != #[trigger] self.slot_key(segs, b, j)
    }

    /// Whether position `i` of `k`'s bucket holds a slot referencing key `k`.
    pub open spec fn matches(self, segs: Segments, k: Seq<u8>, i: int) -> bool {
        let b = self.spec_bucket_of(k);
        &&& 0 <= i < self.buckets@[b]@.len()
        &&& self.slot_key(segs, b, i) == k
    }

    /// Whether the table holds key `k`.
    pub open spec fn spec_contains(self, segs: Segments, k: Seq<u8>) -> bool {
        exists|i: int| self.matches(segs, k, i)
    }

    /// The entry stored under key `k` (meaningful when `spec_contains`).
    pub open spec fn spec_entry(self, segs: Segments, k: Seq<u8>) -> EntryView {
        self.slot_entry(segs, self.spec_bucket_of(k), choose|i: int| self.matches(segs, k, i))
    }

    /// The abstract content of the pair (table, segments): the map from key
    /// bytes to stored entries.
    pub open spec fn view_of(self, segs: Segments) -> Map<Seq<u8>, EntryView> {
        Map::new(
            |k: Seq<u8>| self.spec_contains(segs, k),
            |k: Seq<u8>| self.spec_entry(segs, k),
        )
    }

    /// Whether some slot references the item at `(g, t)`.
    pub open spec fn item_refd(self, g: int, t: int) -> bool {
        exists|b: int, i: int|
            0 <= b < self.buckets.len() && 0 <= i < self.buckets@[b]@.len()
                && (#[trigger] self.buckets@[b]@[i]).seg == g && self.buckets@[b]@[i].idx == t
    }

    /// Connection invariant: every live item of an in-chain segment is
    /// referenced by some slot.
    pub open spec fn wf_conn(self, segs: Segments) -> bool {
        forall|g: int, t: int|
            segs.in_chain(g) && 0 <= t < segs.segments@[g].data.len()
                && !segs.segments@[g].data@[t].deleted ==> #[trigger] self.item_refd(g, t)
    }

    /// Full well-formedness of the index against a segment pool.
    pub open spec fn wf(self, segs: Segments) -> bool {
        self.wf_basic(segs) && self.wf_conn(segs)
    }

    /// A fresh table with `n_buckets` empty buckets.
    pub fn new(n_buckets: usize) -> (r: HashTable)
        requires
            n_buckets > 0,
        ensures
            r.buckets.len() == n_buckets,
            forall|b: int| 0 <= b < n_buckets ==> (#[trigger] r.buckets@[b])@.len() == 0,
    {
        let mut buckets: Vec<Vec<Slot>> = Vec::new();
        let mut b: usize = 0;
        while b < n_buckets
            invariant
                b <= n_buckets,
                buckets.len() == b,
                forall|j: int| 0 <= j < b ==> (#[trigger] buckets@[j])@.len() == 0,
            decreases n_buckets - b,
        {
            buckets.push(Vec::new());
            b = b + 1;
        }
        HashTable { buckets }
    }

    /// If any slot matches `k`, it is the only one, and the map holds `k`
    /// with that slot's entry.
    pub proof fn lemma_match_unique(self, segs: Segments, k: Seq<u8>, i: int)
        requires
            self.wf_basic(segs),
            self.matches(segs, k, i),
        ensures
            self.view_of(segs).contains_key(k),
            self.view_of(segs)[k] == self.slot_entry(segs, self.spec_bucket_of(k), i),
            forall|j: int| self.matches(segs, k, j) ==> j == i,
    {
        assert forall|j: int| self.matches(segs, k, j) implies j == i by {
            let b = self.spec_bucket_of(k);
            if j != i {
                assert(self.slot_key(segs, b, i) != self.slot_key(segs, b, j));
            }
        }
    }

    /// Look up key `key`: the position of the slot referencing it and a copy
    /// of that slot, if any.
    pub fn lookup(&self, segs: &Segments, key: &[u8]) -> (r: Option<(usize, Slot)>)
        requires
            self.wf_basic(*segs),
            segs.wf(),
        ensures
            match r {
                Some((i, s)) => self.matches(*segs, key@, i as int) && s
                    == self.buckets@[self.spec_bucket_of(key@)]@[i as int],
                None => !self.spec_contains(*segs, key@),
            },
    {
        let h = hash_from(FNV_OFFSET_BASIS, key);
        let tag = hash_from(TAG_OFFSET_BASIS, key);
        let b = (h % (self.buckets.len() as u64)) as usize;
        assert(b == self.spec_bucket_of(key@));
        let bucket = &self.buckets[b];
        let mut i: usize = 0;
        while i < bucket.len()
            invariant
                self.wf_basic(*segs),
                segs.wf(),
                bucket == &self.buckets[b as int],
                b == self.spec_bucket_of(key@),
                b < self.buckets.len(),
                tag == spec_tag(key@),
                i <= bucket@.len(),
                forall|j: int| 0 <= j < i ==> !self.matches(*segs, key@, j),
            decreases bucket@.len() - i,
        {
            let s = bucket[i];
            assert(self.slot_ok(*segs, b as int, i as int));
            if s.tag == tag {
                let item_key: &Vec<u8> = &segs.segments[s.seg as usize].data[s.idx as usize].key;
                if bytes_eq(item_key.as_slice(), key) {
                    assert(self.matches(*segs, key@, i as int));
                    return Some((i, s));
                }
                assert(!self.matches(*segs, key@, i as int));
            } else {
                assert(!self.matches(*segs, key@, i as int)) by {
                    if self.slot_key(*segs, b as int, i as int) == key@ {
                        assert(s.tag == spec_tag(key@));
                    }
                }
            }
            i = i + 1;
        }
        assert forall|j: int| !self.matches(*segs, key@, j) by {
            if 0 <= j < bucket@.len() {
            } else {
            }
        }
        None
    }

    /// If the segment pool changes without touching any referenced item
    /// (same bytes at every referenced locator, segments still in chains),
    /// the table stays well formed and its abstract map is unchanged.
    pub proof fn lemma_same_refs(self, segs0: Segments, segs1: Segments)
        requires
            self.wf_basic(segs0),
            forall|b: int, i: int|
                0 <= b < self.buckets.len() && 0 <= i < self.buckets@[b]@.len() ==> {
                    let s = (#[trigger] self.buckets@[b]@[i]);
                    &&& s.seg < segs1.segments.len()
                    &&& segs1.segments@[s.seg as int].ttl_bucket != NONE_SEG
                    &&& s.idx < segs1.segments@[s.seg as int].data.len()
                    &&& segs1.segments@[s.seg as int].data@[s.idx as int]
                        == segs0.segments@[s.seg as int].data@[s.idx as int]
                },
        ensures
            self.wf_basic(segs1),
            self.view_of(segs1) == self.view_of(segs0),
            forall|k: Seq<u8>, i: int| #[trigger] self.matches(segs1, k, i) == self.matches(
                segs0,
                k,
                i,
            ),
    {
        assert forall|b: int, i: int|
            0 <= b < self.buckets.len() && 0 <= i < self.buckets@[b]@.len() implies
            #[trigger] self.slot_ok(segs1, b, i) by {
            assert(self.slot_ok(segs0, b, i));
        }
        assert forall|b: int, i: int|
            0 <= b < self.buckets.len() && 0 <= i < self.buckets@[b]@.len() implies
            #[trigger] self.slot_key(segs1, b, i) == self.slot_key(segs0, b, i) by {
            assert(self.slot_ok(segs0, b, i));
        }
        assert forall|b: int, i: int|
            0 <= b < self.buckets.len() && 0 <= i < self.buckets@[b]@.len() implies
            #[trigger] self.slot_entry(segs1, b, i) == self.slot_entry(segs0, b, i) by {
            assert(self.slot_ok(segs0, b, i));
        }
        assert(self.wf_basic(segs1));
        assert forall|k: Seq<u8>, i: int| #[trigger] self.matches(segs1, k, i) == self.matches(
            segs0,
            k,
            i,
        ) by {
            let b = self.spec_bucket_of(k);
            if 0 <= i < self.buckets@[b]@.len() {
                assert(self.slot_key(segs1, b, i) == self.slot_key(segs0, b, i));
            }
        }
        assert forall|k: Seq<u8>| #[trigger] self.spec_contains(segs1, k) == self.spec_contains(
            segs0,
            k,
        ) by {
            if self.spec_contains(segs0, k) {
                let i = choose|i: int| self.matches(segs0, k, i);
                assert(self.matches(segs1, k, i));
            }
            if self.spec_contains(segs1, k) {
                let i = choose|i: int| self.matches(segs1, k, i);
                assert(self.matches(segs0, k, i));
            }
        }
        assert forall|k: Seq<u8>| self.spec_contains(segs0, k) implies #[trigger] self.spec_entry(
            segs1,
            k,
        ) == self.spec_entry(segs0, k) by {
            let i0 = choose|i: int| self.matches(segs0, k, i);
            assert(self.matches(segs1, k, i0));
            let i1 = choose|i: int| self.matches(segs1, k, i);
            assert(self.matches(segs0, k, i1));
            self.lemma_match_unique(segs0, k, i0);
            assert(i1 == i0);
            assert(self.slot_entry(segs1, self.spec_bucket_of(k), i0) == self.slot_entry(
                segs0,
                self.spec_bucket_of(k),
                i0,
            ));
        }
        assert(self.view_of(segs1) =~= self.view_of(segs0));
    }

    /// Add a slot for the (previously absent) key of the live item at
    /// `(g, t)`. The abstract map gains exactly that key.
    pub fn push_slot(&mut self, segs: &Segments, g: u32, t: u32)
        requires
            old(self).wf_basic(*segs),
            segs.wf(),
            segs.in_chain(g as int),
            t < segs.segments@[g as int].data.len(),
            !segs.segments@[g as int].data@[t as int].deleted,
            !old(self).spec_contains(*segs, segs.segments@[g as int].data@[t as int].key@),
        ensures
            final(self).wf_basic(*segs),
            final(self).buckets.len() == old(self).buckets.len(),
            ({
                let it = segs.segments@[g as int].data@[t as int];
                final(self).view_of(*segs) == old(self).view_of(*segs).insert(
                    it.key@,
                    EntryView {
                        value: it.value@,
                        flags: it.flags,
                        cas: it.cas,
                        expire_at: it.expire_at,
                    },
                )
            }),
            forall|g2: int, t2: int|
                old(self).item_refd(g2, t2) ==> final(self).item_refd(g2, t2),
            final(self).item_refd(g as int, t as int),
    {
        let item_key: &Vec<u8> = &segs.segments[g as usize].data[t as usize].key;
        let h = hash_from(FNV_OFFSET_BASIS, item_key.as_slice());
        let tag = hash_from(TAG_OFFSET_BASIS, item_key.as_slice());
        let b = (h % (self.buckets.len() as u64)) as usize;
        let it_cas = segs.segments[g as usize].data[t as usize].cas;
        let it_exp = segs.segments[g as usize].data[t as usize].expire_at;
        let slot = Slot { tag, seg: g, idx: t, cas: it_cas, expire_at: it_exp };
        let ghost old_self = *self;
        self.buckets[b].push(slot);
        proof {
            let it = segs.segments@[g as int].data@[t as int];
            let k = it.key@;
            let e = EntryView {
                value: it.value@,
                flags: it.flags,
                cas: it.cas,
                expire_at: it.expire_at,
            };
            let bi = b as int;
            let n = old_self.buckets@[bi]@.len() as int;
            assert(bi == old_self.spec_bucket_of(k));
            // structural facts about the updated table
            assert(forall|b2: int|
                0 <= b2 < self.buckets.len() && b2 != bi ==> self.buckets@[b2]
                    == old_self.buckets@[b2]);
            assert(self.buckets@[bi]@ =~= old_self.buckets@[bi]@ + seq![slot]);
            // well-formedness
            assert forall|b2: int, i: int|
                0 <= b2 < self.buckets.len() && 0 <= i < self.buckets@[b2]@.len() implies
                #[trigger] self.slot_ok(*segs, b2, i) by {
                if b2 != bi || i < n {
                    assert(old_self.slot_ok(*segs, b2, i));
                    assert(self.buckets@[b2]@[i] == old_self.buckets@[b2]@[i]);
                } else {
                    assert(self.buckets@[bi]@[i] == slot);
                }
            }
            assert forall|b2: int, i: int|
                0 <= b2 < self.buckets.len() && 0 <= i < self.buckets@[b2]@.len() implies
                #[trigger] self.slot_key(*segs, b2, i) == (if b2 == bi && i == n {
                k
            } else {
                old_self.slot_key(*segs, b2, i)
            }) by {
                if b2 == bi && i == n {
                    assert(self.buckets@[bi]@[i] == slot);
                } else {
                    assert(self.buckets@[b2]@[i] == old_self.buckets@[b2]@[i]);
                }
            }
            assert forall|b2: int, i: int, j: int|
                0 <= b2 < self.buckets.len() && 0 <= i < self.buckets@[b2]@.len() && 0 <= j
                    < self.buckets@[b2]@.len() && i != j implies #[trigger] self.slot_key(
                *segs,
                b2,
                i,
            ) != #[trigger] self.slot_key(*segs, b2, j) by {
                if b2 == bi && i == n {
                    // old slot j cannot hold k: k was absent
                    if old_self.slot_key(*segs, b2, j) == k {
                        assert(old_self.matches(*segs, k, j));
                    }
                } else if b2 == bi && j == n {
                    if old_self.slot_key(*segs, b2, i) == k {
                        assert(old_self.matches(*segs, k, i));
                    }
                }
            }
            assert(self.wf_basic(*segs));
            // view update
            assert forall|k2: Seq<u8>, i: int|
                k2 != k implies #[trigger] self.matches(*segs, k2, i) == old_self.matches(
                *segs,
                k2,
                i,
            ) by {
                let b2 = self.spec_bucket_of(k2);
                assert(b2 == old_self.spec_bucket_of(k2));
                if 0 <= i < self.buckets@[b2]@.len() {
                    if b2 == bi && i == n {
                        assert(self.slot_key(*segs, b2, i) == k);
                    }
                }
            }
            assert(self.matches(*segs, k, n));
            self.lemma_match_unique(*segs, k, n);
            assert(self.slot_entry(*segs, bi, n) == e);
            let m0 = old_self.view_of(*segs);
            let m1 = self.view_of(*segs);
            assert forall|k2: Seq<u8>| #[trigger] m1.contains_key(k2) == m0.insert(
                k,
                e,
            ).contains_key(k2) && (m1.contains_key(k2) ==> m1[k2] == m0.insert(k, e)[k2]) by {
                if k2 == k {
                    assert(m1.contains_key(k));
                    assert(m1[k] == e);
                } else {
                    if old_self.spec_contains(*segs, k2) {
                        let i0 = choose|i: int| old_self.matches(*segs, k2, i);
                        assert(self.matches(*segs, k2, i0));
                        let i1 = choose|i: int| self.matches(*segs, k2, i);
                        self.lemma_match_unique(*segs, k2, i1);
                        assert(i1 == i0);
                        assert(old_self.matches(*segs, k2, i1));
                        old_self.lemma_match_unique(*segs, k2, i0);
                        assert(self.slot_entry(*segs, self.spec_bucket_of(k2), i0)
                            == old_self.slot_entry(*segs, self.spec_bucket_of(k2), i0));
                    } else if self.spec_contains(*segs, k2) {
                        let i1 = choose|i: int| self.matches(*segs, k2, i);
                        assert(old_self.matches(*segs, k2, i1));
                    }
                }
            }
            assert(m1 =~= m0.insert(k, e));
            // referenced items are preserved; the new item is now referenced
            assert forall|g2: int, t2: int|
                old_self.item_refd(g2, t2) implies self.item_refd(g2, t2) by {
                let (b2, i2) = choose|b2: int, i2: int|
                    0 <= b2 < old_self.buckets.len() && 0 <= i2 < old_self.buckets@[b2]@.len()
                        && (#[trigger] old_self.buckets@[b2]@[i2]).seg == g2
                        && old_self.buckets@[b2]@[i2].idx == t2;
                assert(self.buckets@[b2]@[i2] == old_self.buckets@[b2]@[i2]);
            }
            assert(self.buckets@[bi]@[n].seg == g && self.buckets@[bi]@[n].idx == t);
        }
    }

    /// Redirect the slot at position `i` of the key's bucket to the live item
    /// at `(g, t)`, which holds the same key. The abstract map is updated at
    /// exactly that key, and afterwards no slot references the slot's old
    /// target item.
    pub fn set_slot(&mut self, segs: &Segments, i: usize, g: u32, t: u32)
        requires
            old(self).wf_basic(*segs),
            segs.wf(),
            segs.in_chain(g as int),
            t < segs.segments@[g as int].data.len(),
            !segs.segments@[g as int].data@[t as int].deleted,
            old(self).matches(*segs, segs.segments@[g as int].data@[t as int].key@, i as int),
            ({
                let k = segs.segments@[g as int].data@[t as int].key@;
                let s = old(self).buckets@[old(self).spec_bucket_of(k)]@[i as int];
                !(s.seg == g && s.idx == t)
            }),
        ensures
            final(self).wf_basic(*segs),
            final(self).buckets.len() == old(self).buckets.len(),
            ({
                let it = segs.segments@[g as int].data@[t as int];
                final(self).view_of(*segs) == old(self).view_of(*segs).insert(
                    it.key@,
                    EntryView {
                        value: it.value@,
                        flags: it.flags,
                        cas: it.cas,
                        expire_at: it.expire_at,
                    },
                )
            }),
            ({
                let k = segs.segments@[g as int].data@[t as int].key@;
                let s = old(self).buckets@[old(self).spec_bucket_of(k)]@[i as int];
                &&& forall|g2: int, t2: int|
                    old(self).item_refd(g2, t2) && !(g2 == s.seg && t2 == s.idx)
                        ==> final(self).item_refd(g2, t2)
                &&& final(self).item_refd(g as int, t as int)
                &&& !final(self).item_refd(s.seg as int, s.idx as int)
            }),
    {
        let item_key: &Vec<u8> = &segs.segments[g as usize].data[t as usize].key;
        let h = hash_from(FNV_OFFSET_BASIS, item_key.as_slice());
        let tag = hash_from(TAG_OFFSET_BASIS, item_key.as_slice());
        let b = (h % (self.buckets.len() as u64)) as usize;
        let it_cas = segs.segments[g as usize].data[t as usize].cas;
        let it_exp = segs.segments[g as usize].data[t as usize].expire_at;
        let slot = Slot { tag, seg: g, idx: t, cas: it_cas, expire_at: it_exp };
        let ghost old_self = *self;
        let ghost k = segs.segments@[g as int].data@[t as int].key@;
        let ghost bi = b as int;
        assert(bi == old_self.spec_bucket_of(k));
        assert(i < self.buckets@[bi]@.len());
        self.buckets[b][i] = slot;
        proof {
            let it = segs.segments@[g as int].data@[t as int];
            let e = EntryView {
                value: it.value@,
                flags: it.flags,
                cas: it.cas,
                expire_at: it.expire_at,
            };
            let s0 = old_self.buckets@[bi]@[i as int];
            assert(forall|b2: int|
                0 <= b2 < self.buckets.len() && b2 != bi ==> self.buckets@[b2]
                    == old_self.buckets@[b2]);
            assert(self.buckets@[bi]@ =~= old_self.buckets@[bi]@.update(i as int, slot));
            // well-formedness
            assert forall|b2: int, i2: int|
                0 <= b2 < self.buckets.len() && 0 <= i2 < self.buckets@[b2]@.len() implies
                #[trigger] self.slot_ok(*segs, b2, i2) by {
                if b2 != bi || i2 != i {
                    assert(old_self.slot_ok(*segs, b2, i2));
                    assert(self.buckets@[b2]@[i2] == old_self.buckets@[b2]@[i2]);
                } else {
                    assert(self.buckets@[bi]@[i2] == slot);
                }
            }
            assert forall|b2: int, i2: int|
                0 <= b2 < self.buckets.len() && 0 <= i2 < self.buckets@[b2]@.len() implies
                #[trigger] self.slot_key(*segs, b2, i2) == (if b2 == bi && i2 == i {
                k
            } else {
                old_self.slot_key(*segs, b2, i2)
            }) by {
                if b2 == bi && i2 == i {
                    assert(self.buckets@[bi]@[i2] == slot);
                } else {
                    assert(self.buckets@[b2]@[i2] == old_self.buckets@[b2]@[i2]);
                }
            }
            assert(old_self.slot_key(*segs, bi, i as int) == k);
            assert forall|b2: int, i2: int, j2: int|
                0 <= b2 < self.buckets.len() && 0 <= i2 < self.buckets@[b2]@.len() && 0 <= j2
                    < self.buckets@[b2]@.len() && i2 != j2 implies #[trigger] self.slot_key(
                *segs,
                b2,
                i2,
            ) != #[trigger] self.slot_key(*segs, b2, j2) by {
                if b2 == bi && i2 == i {
                    assert(old_self.slot_key(*segs, b2, j2) != k);
                } else if b2 == bi && j2 == i {
                    assert(old_self.slot_key(*segs, b2, i2) != k);
                }
            }
            assert(self.wf_basic(*segs));
            // view update
            assert forall|k2: Seq<u8>, i2: int|
                k2 != k implies #[trigger] self.matches(*segs, k2, i2) == old_self.matches(
                *segs,
                k2,
                i2,
            ) by {
                let b2 = self.spec_bucket_of(k2);
                if 0 <= i2 < self.buckets@[b2]@.len() {
                    if b2 == bi && i2 == i {
                        assert(self.slot_key(*segs, b2, i2) == k);
                        assert(old_self.slot_key(*segs, b2, i2) == k);
                    }
                }
            }
            assert(self.matches(*segs, k, i as int));
            self.lemma_match_unique(*segs, k, i as int);
            assert(self.slot_entry(*segs, bi, i as int) == e);
            let m0 = old_self.view_of(*segs);
            let m1 = self.view_of(*segs);
            assert forall|k2: Seq<u8>| #[trigger] m1.contains_key(k2) == m0.insert(
                k,
                e,
            ).contains_key(k2) && (m1.contains_key(k2) ==> m1[k2] == m0.insert(k, e)[k2]) by {
                if k2 == k {
                } else {
                    if old_self.spec_contains(*segs, k2) {
                        let i0 = choose|j: int| old_self.matches(*segs, k2, j);
                        assert(self.matches(*segs, k2, i0));
                        let i1 = choose|j: int| self.matches(*segs, k2, j);
                        self.lemma_match_unique(*segs, k2, i1);
                        assert(i1 == i0);
                        old_self.lemma_match_unique(*segs, k2, i0);
                        assert(self.buckets@[self.spec_bucket_of(k2)]@[i0]
                            == old_self.buckets@[old_self.spec_bucket_of(k2)]@[i0]);
                    } else if self.spec_contains(*segs, k2) {
                        let i1 = choose|j: int| self.matches(*segs, k2, j);
                        assert(old_self.matches(*segs, k2, i1));
                    }
                }
            }
            assert(m1 =~= m0.insert(k, e));
            // reference bookkeeping
            assert forall|g2: int, t2: int|
                old_self.item_refd(g2, t2) && !(g2 == s0.seg && t2 == s0.idx) implies
                self.item_refd(g2, t2) by {
                let (b2, i2) = choose|b2: int, i2: int|
                    0 <= b2 < old_self.buckets.len() && 0 <= i2 < old_self.buckets@[b2]@.len()
                        && (#[trigger] old_self.buckets@[b2]@[i2]).seg == g2
                        && old_self.buckets@[b2]@[i2].idx == t2;
                if b2 == bi && i2 == i {
                    assert(old_self.buckets@[b2]@[i2] == s0);
                } else {
                    assert(self.buckets@[b2]@[i2] == old_self.buckets@[b2]@[i2]);
                }
            }
            assert(self.buckets@[bi]@[i as int].seg == g && self.buckets@[bi]@[i as int].idx == t);
            // no slot references the old target any more: any such slot would
            // have to hold the same key, and the key's single slot is slot `i`
            assert forall|b2: int, i2: int|
                0 <= b2 < self.buckets.len() && 0 <= i2 < self.buckets@[b2]@.len() implies !((
                #[trigger] self.buckets@[b2]@[i2]).seg == s0.seg && self.buckets@[b2]@[i2].idx
                == s0.idx) by {
                if self.buckets@[b2]@[i2].seg == s0.seg && self.buckets@[b2]@[i2].idx == s0.idx {
                    assert(old_self.slot_ok(*segs, bi, i as int));
                    assert(self.slot_ok(*segs, b2, i2));
                    // the old target item holds key k, so this slot's key is k
                    assert(self.slot_key(*segs, b2, i2) == old_self.slot_key(
                        *segs,
                        bi,
                        i as int,
                    ));
                    assert(self.matches(*segs, k, i2));
                    assert(i2 == i);
                    assert(self.buckets@[bi]@[i as int] == slot);
                }
            }
            assert(!self.item_refd(s0.seg as int, s0.idx as int));
        }
    }

    /// Remove the slot at position `i` of `key`'s bucket, which references
    /// `key`. The abstract map loses exactly that key, and afterwards no slot
    /// references the removed slot's target item.
    pub fn remove_slot(&mut self, segs: &Segments, key: &[u8], i: usize)
        requires
            old(self).wf_basic(*segs),
            segs.wf(),
            old(self).matches(*segs, key@, i as int),
        ensures
            final(self).wf_basic(*segs),
            final(self).buckets.len() == old(self).buckets.len(),
            final(self).view_of(*segs) == old(self).view_of(*segs).remove(key@),
            ({
                let s = old(self).buckets@[old(self).spec_bucket_of(key@)]@[i as int];
                &&& forall|g2: int, t2: int|
                    old(self).item_refd(g2, t2) && !(g2 == s.seg && t2 == s.idx)
                        ==> final(self).item_refd(g2, t2)
                &&& !final(self).item_refd(s.seg as int, s.idx as int)
            }),
    {
        let h = hash_from(FNV_OFFSET_BASIS, key);
        let b = (h % (self.buckets.len() as u64)) as usize;
        let ghost old_self = *self;
        let ghost k = key@;
        let ghost bi = b as int;
        assert(bi == old_self.spec_bucket_of(k));
        assert(i < self.buckets@[bi]@.len());
        let _ = self.buckets[b].swap_remove(i);
        proof {
            let s0 = old_self.buckets@[bi]@[i as int];
            let n = old_self.buckets@[bi]@.len() as int;
            assert(forall|b2: int|
                0 <= b2 < self.buckets.len() && b2 != bi ==> self.buckets@[b2]
                    == old_self.buckets@[b2]);
            assert(self.buckets@[bi]@ =~= old_self.buckets@[bi]@.update(
                i as int,
                old_self.buckets@[bi]@.last(),
            ).drop_last());
            // every new slot equals some old slot at a position other than i
            let map_back = |i2: int| if i2 == i as int { n - 1 } else { i2 };
            assert forall|i2: int|
                0 <= i2 < self.buckets@[bi]@.len() implies self.buckets@[bi]@[i2]
                == old_self.buckets@[bi]@[map_back(i2)] && map_back(i2) != i as int && 0 <= map_back(
                i2,
            ) < n by {
                if i2 == i as int {
                    assert(i2 < n - 1);
                }
            }
            assert forall|b2: int, i2: int|
                0 <= b2 < self.buckets.len() && 0 <= i2 < self.buckets@[b2]@.len() implies
                #[trigger] self.slot_ok(*segs, b2, i2) by {
                if b2 != bi {
                    assert(old_self.slot_ok(*segs, b2, i2));
                    assert(self.buckets@[b2]@[i2] == old_self.buckets@[b2]@[i2]);
                } else {
                    assert(old_self.slot_ok(*segs, b2, map_back(i2)));
                }
            }
            assert forall|b2: int, i2: int|
                0 <= b2 < self.buckets.len() && 0 <= i2 < self.buckets@[b2]@.len() implies
                #[trigger] self.slot_key(*segs, b2, i2) == (if b2 == bi {
                old_self.slot_key(*segs, b2, map_back(i2))
            } else {
                old_self.slot_key(*segs, b2, i2)
            }) by {
                if b2 == bi {
                    assert(self.buckets@[bi]@[i2] == old_self.buckets@[bi]@[map_back(i2)]);
                }
            }
            assert forall|b2: int, i2: int, j2: int|
                0 <= b2 < self.buckets.len() && 0 <= i2 < self.buckets@[b2]@.len() && 0 <= j2
                    < self.buckets@[b2]@.len() && i2 != j2 implies #[trigger] self.slot_key(
                *segs,
                b2,
                i2,
            ) != #[trigger] self.slot_key(*segs, b2, j2) by {
                if b2 == bi {
                    assert(map_back(i2) != map_back(j2));
                    assert(old_self.slot_key(*segs, b2, map_back(i2)) != old_self.slot_key(
                        *segs,
                        b2,
                        map_back(j2),
                    ));
                }
            }
            assert(self.wf_basic(*segs));
            assert(old_self.slot_key(*segs, bi, i as int) == k);
            // no new slot holds key k
            assert forall|i2: int| !self.matches(*segs, k, i2) by {
                if 0 <= i2 < self.buckets@[bi]@.len() {
                    if self.slot_key(*segs, bi, i2) == k {
                        assert(old_self.slot_key(*segs, bi, map_back(i2)) == k);
                        assert(old_self.slot_key(*segs, bi, map_back(i2)) != old_self.slot_key(
                            *segs,
                            bi,
                            i as int,
                        ));
                    }
                }
            }
            // other keys unchanged
            assert forall|k2: Seq<u8>|
                k2 != k implies #[trigger] self.spec_contains(*segs, k2) == old_self.spec_contains(
                *segs,
                k2,
            ) && (self.spec_contains(*segs, k2) ==> self.spec_entry(*segs, k2)
                == old_self.spec_entry(*segs, k2)) by {
                let b2 = self.spec_bucket_of(k2);
                if old_self.spec_contains(*segs, k2) {
                    let i0 = choose|j: int| old_self.matches(*segs, k2, j);
                    old_self.lemma_match_unique(*segs, k2, i0);
                    if b2 == bi {
                        // the slot for k2 was not slot i (that one holds k)
                        assert(i0 != i as int);
                        if i0 == n - 1 {
                            assert(self.buckets@[bi]@[i as int] == old_self.buckets@[bi]@[n - 1]);
                            assert(self.matches(*segs, k2, i as int));
                            let i1 = choose|j: int| self.matches(*segs, k2, j);
                            self.lemma_match_unique(*segs, k2, i1);
                            assert(self.slot_entry(*segs, bi, i1) == old_self.slot_entry(
                                *segs,
                                bi,
                                i0,
                            ));
                        } else {
                            assert(self.buckets@[bi]@[i0] == old_self.buckets@[bi]@[i0]);
                            assert(self.matches(*segs, k2, i0));
                            let i1 = choose|j: int| self.matches(*segs, k2, j);
                            self.lemma_match_unique(*segs, k2, i1);
                            assert(self.slot_entry(*segs, bi, i1) == old_self.slot_entry(
                                *segs,
                                bi,
                                i0,
                            ));
                        }
                    } else {
                        assert(self.buckets@[b2]@[i0] == old_self.buckets@[b2]@[i0]);
                        assert(self.matches(*segs, k2, i0));
                        let i1 = choose|j: int| self.matches(*segs, k2, j);
                        self.lemma_match_unique(*segs, k2, i1);
                        assert(self.slot_entry(*segs, b2, i1) == old_self.slot_entry(
                            *segs,
                            b2,
                            i0,
                        ));
                    }
                } else {
                    if self.spec_contains(*segs, k2) {
                        let i1 = choose|j: int| self.matches(*segs, k2, j);
                        if b2 == bi {
                            assert(old_self.matches(*segs, k2, map_back(i1)));
                        } else {
                            assert(old_self.matches(*segs, k2, i1));
                        }
                    }
                }
            }
            let m0 = old_self.view_of(*segs);
            let m1 = self.view_of(*segs);
            assert(m1 =~= m0.remove(k));
            // reference bookkeeping
            assert forall|g2: int, t2: int|
                old_self.item_refd(g2, t2) && !(g2 == s0.seg && t2 == s0.idx) implies
                self.item_refd(g2, t2) by {
                let (b2, i2) = choose|b2: int, i2: int|
                    0 <= b2 < old_self.buckets.len() && 0 <= i2 < old_self.buckets@[b2]@.len()
                        && (#[trigger] old_self.buckets@[b2]@[i2]).seg == g2
                        && old_self.buckets@[b2]@[i2].idx == t2;
                if b2 == bi {
                    assert(i2 != i as int);
                    if i2 == n - 1 {
                        if n - 1 == i as int {
                        } else {
                            assert((i as int) < n - 1);
                            assert(self.buckets@[bi]@[i as int] == old_self.buckets@[bi]@[n - 1]);
                        }
                    } else {
                        assert(self.buckets@[bi]@[i2] == old_self.buckets@[bi]@[i2]);
                    }
                } else {
                    assert(self.buckets@[b2]@[i2] == old_self.buckets@[b2]@[i2]);
                }
            }
            assert forall|b2: int, i2: int|
                0 <= b2 < self.buckets.len() && 0 <= i2 < self.buckets@[b2]@.len() implies !((
                #[trigger] self.buckets@[b2]@[i2]).seg == s0.seg && self.buckets@[b2]@[i2].idx
                == s0.idx) by {
                if self.buckets@[b2]@[i2].seg == s0.seg && self.buckets@[b2]@[i2].idx == s0.idx {
                    assert(old_self.slot_ok(*segs, bi, i as int));
                    assert(self.slot_ok(*segs, b2, i2));
                    assert(self.slot_key(*segs, b2, i2) == k);
                    assert(self.matches(*segs, k, i2));
                }
            }
            assert(!self.item_refd(s0.seg as int, s0.idx as int));
        }
    }
}

} // verus!
