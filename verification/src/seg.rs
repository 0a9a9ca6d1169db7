//! Segments: fixed-size regions into which cache items are appended.
//!
//! All segments are carved out of one pool at startup. A segment belongs to
//! exactly one TTL bucket chain, or to the free list, at any time. Writes are
//! append-only within a segment; items are never moved once written, they are
//! logically deleted and reclaimed only when the whole segment is recycled.

use vstd::prelude::*;
use crate::ttl::NONE_SEG;

verus! {

/// Model cost (bytes) of one item's header: lengths, flags, CAS and expiry.
pub const ITEM_HDR_SIZE: usize = 24;

/// One cache entry stored inline inside a segment.
pub struct Item {
    /// The key bytes.
    pub key: Vec<u8>,
    /// The value bytes.
    pub value: Vec<u8>,
    /// Opaque client flags.
    pub flags: u32,
    /// CAS counter at the time this item was written.
    pub cas: u64,
    /// Coarse tick at which the item expires; `u32::MAX` means never.
    pub expire_at: u32,
    /// Whether the item has been logically deleted.
    pub deleted: bool,
}

/// The number of segment bytes an item with the given key and value lengths
/// occupies.
pub open spec fn spec_item_size(key_len: int, value_len: int) -> int {
    ITEM_HDR_SIZE + key_len + value_len
}

/// A fixed-size buffer of items with a header describing its place in a TTL
/// bucket chain or on the free list.
pub struct Segment {
    /// This segment's own id; equals its index in the pool.
    pub id: u32,
    /// Id of the next segment in the chain, or `NONE_SEG`.
    pub next: u32,
    /// Id of the previous segment in the chain, or `NONE_SEG`.
    pub prev: u32,
    /// Index of the TTL bucket whose chain holds this segment, or `NONE_SEG`
    /// when the segment is free.
    pub ttl_bucket: u32,
    /// Bytes used so far; append-only.
    pub write_offset: usize,
    /// Number of items written into the segment.
    pub n_items: usize,
    /// Number of those items that are logically deleted.
    pub n_dead_items: usize,
    /// Coarse tick at which the segment was linked into its chain.
    pub create_at: u32,
    /// The items written into this segment, in write order.
    pub data: Vec<Item>,
}

/// The pool of all segments plus the free list.
pub struct Segments {
    /// All segments; index equals segment id.
    pub segments: Vec<Segment>,
    /// Ids of free segments, in stack order.
    pub free: Vec<u32>,
    /// Capacity (bytes) of each segment.
    pub segment_size: usize,
}

impl Segments {
    /// Whether segment `g` is currently linked into some TTL bucket chain.
    pub open spec fn in_chain(self, g: int) -> bool {
        0 <= g < self.segments.len() && self.segments@[g].ttl_bucket != NONE_SEG
    }

    /// Structural well-formedness of the pool.
    pub open spec fn wf(self) -> bool {
        &&& self.segments.len() < NONE_SEG
        &&& ITEM_HDR_SIZE <= self.segment_size <= 0x4000_0000
        &&& forall|g: int|
            0 <= g < self.segments.len() ==> (#[trigger] self.segments@[g]).data.len()
                * ITEM_HDR_SIZE <= self.segments@[g].write_offset
        &&& forall|g: int|
            0 <= g < self.segments.len() ==> (#[trigger] self.segments@[g]).id == g
        &&& forall|g: int|
            0 <= g < self.segments.len() ==> (#[trigger] self.segments@[g]).write_offset
                <= self.segment_size
        &&& forall|g: int|
            0 <= g < self.segments.len() ==> (#[trigger] self.segments@[g]).n_items
                == self.segments@[g].data.len() && self.segments@[g].n_dead_items
                <= self.segments@[g].n_items
        &&& forall|g: int|
            0 <= g < self.segments.len() && (#[trigger] self.segments@[g]).ttl_bucket == NONE_SEG
                ==> self.segments@[g].data.len() == 0 && self.segments@[g].write_offset == 0
        &&& forall|j: int|
            0 <= j < self.free.len() ==> (#[trigger] self.free@[j]) < self.segments.len()
                && self.segments@[self.free@[j] as int].ttl_bucket == NONE_SEG
        &&& forall|j1: int, j2: int|
            0 <= j1 < j2 < self.free.len() ==> self.free@[j1] != self.free@[j2]
    }

    /// Create a pool of `count` empty segments, all on the free list.
    pub fn new(count: u32, segment_size: usize) -> (r: Segments)
        requires
            count < NONE_SEG,
            ITEM_HDR_SIZE <= segment_size <= 0x4000_0000,
        ensures
            r.wf(),
            r.segments.len() == count,
            r.free.len() == count,
            r.segment_size == segment_size,
            forall|g: int| 0 <= g < count ==> !r.in_chain(g),
    {
        let mut segments: Vec<Segment> = Vec::new();
        let mut free: Vec<u32> = Vec::new();
        let mut g: u32 = 0;
        while g < count
            invariant
                g <= count,
                count < NONE_SEG,
                segments.len() == g,
                free.len() == g,
                forall|i: int|
                    0 <= i < g ==> (#[trigger] segments@[i]).id == i
                        && segments@[i].ttl_bucket == NONE_SEG && segments@[i].data.len() == 0
                        && segments@[i].write_offset == 0 && segments@[i].n_items == 0
                        && segments@[i].n_dead_items == 0,
                forall|j: int| 0 <= j < g ==> (#[trigger] free@[j]) == g - 1 - j,
            decreases count - g,
        {
            segments.push(
                Segment {
                    id: g,
                    next: NONE_SEG,
                    prev: NONE_SEG,
                    ttl_bucket: NONE_SEG,
                    write_offset: 0,
                    n_items: 0,
                    n_dead_items: 0,
                    create_at: 0,
                    data: Vec::new(),
                },
            );
            // keep the free list in stack order with the lowest id on top
            free.insert(0, g);
            g = g + 1;
        }
        Segments { segments, free, segment_size }
    }

    /// Pop a free segment id, if any. Fails exactly when the free list is
    /// empty.
    pub fn alloc_seg(&mut self) -> (r: Option<u32>)
        requires
            old(self).wf(),
        ensures
            final(self).wf(),
            final(self).segments@ == old(self).segments@,
            final(self).segment_size == old(self).segment_size,
            match r {
                Some(g) => {
                    &&& old(self).free.len() > 0
                    &&& g == old(self).free@.last()
                    &&& final(self).free@ == old(self).free@.drop_last()
                    &&& g < old(self).segments.len()
                    &&& old(self).segments@[g as int].ttl_bucket == NONE_SEG
                },
                None => old(self).free.len() == 0 && final(self).free@ == old(self).free@,
            },
    {
        self.free.pop()
    }

    /// Append an item at the tail of segment `g`, advancing `write_offset`
    /// by the item's size. Everything else is unchanged.
    pub fn append_item(&mut self, g: usize, item: Item)
        requires
            old(self).wf(),
            old(self).in_chain(g as int),
            !item.deleted,
            old(self).segments@[g as int].data.len() < NONE_SEG,
            old(self).segments@[g as int].write_offset + spec_item_size(
                item.key@.len() as int,
                item.value@.len() as int,
            ) <= old(self).segment_size,
            item.key@.len() + item.value@.len() + ITEM_HDR_SIZE <= usize::MAX,
        ensures
            final(self).wf(),
            final(self).segment_size == old(self).segment_size,
            final(self).free@ == old(self).free@,
            final(self).segments.len() == old(self).segments.len(),
            forall|g2: int|
                0 <= g2 < old(self).segments.len() && g2 != g ==> final(self).segments@[g2]
                    == old(self).segments@[g2],
            ({
                let s0 = old(self).segments@[g as int];
                let s1 = final(self).segments@[g as int];
                &&& s1.data@ == s0.data@ + seq![item]
                &&& s1.id == s0.id
                &&& s1.next == s0.next
                &&& s1.prev == s0.prev
                &&& s1.ttl_bucket == s0.ttl_bucket
                &&& s1.create_at == s0.create_at
                &&& s1.n_dead_items == s0.n_dead_items
                &&& s1.write_offset == s0.write_offset + spec_item_size(
                    item.key@.len() as int,
                    item.value@.len() as int,
                )
            }),
    {
        let size = ITEM_HDR_SIZE + item.key.len() + item.value.len();
        let seg = &mut self.segments[g];
        seg.data.push(item);
        seg.write_offset = seg.write_offset + size;
        seg.n_items = seg.n_items + 1;
    }

    /// Logically delete the item at `(g, t)`; the item stays in place until
    /// its segment is recycled.
    pub fn mark_deleted(&mut self, g: usize, t: usize)
        requires
            old(self).wf(),
            old(self).in_chain(g as int),
            t < old(self).segments@[g as int].data.len(),
            !old(self).segments@[g as int].data@[t as int].deleted,
        ensures
            final(self).wf(),
            final(self).segment_size == old(self).segment_size,
            final(self).free@ == old(self).free@,
            final(self).segments.len() == old(self).segments.len(),
            forall|g2: int|
                0 <= g2 < old(self).segments.len() && g2 != g ==> final(self).segments@[g2]
                    == old(self).segments@[g2],
            ({
                let s0 = old(self).segments@[g as int];
                let s1 = final(self).segments@[g as int];
                &&& s1.data@.len() == s0.data@.len()
                &&& forall|t2: int|
                    0 <= t2 < s0.data@.len() && t2 != t ==> s1.data@[t2] == s0.data@[t2]
                &&& s1.data@[t as int].deleted
                &&& s1.data@[t as int].key == s0.data@[t as int].key
                &&& s1.data@[t as int].value == s0.data@[t as int].value
                &&& s1.data@[t as int].flags == s0.data@[t as int].flags
                &&& s1.data@[t as int].cas == s0.data@[t as int].cas
                &&& s1.data@[t as int].expire_at == s0.data@[t as int].expire_at
                &&& s1.id == s0.id
                &&& s1.next == s0.next
                &&& s1.prev == s0.prev
                &&& s1.ttl_bucket == s0.ttl_bucket
                &&& s1.create_at == s0.create_at
                &&& s1.write_offset == s0.write_offset
                &&& s1.n_items == s0.n_items
            }),
    {
        let seg = &mut self.segments[g];
        let it = &mut seg.data[t];
        it.deleted = true;
        if seg.n_dead_items < seg.n_items {
            seg.n_dead_items = seg.n_dead_items + 1;
        }
    }
}

} // verus!
