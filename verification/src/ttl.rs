//! TTL buckets: 1024 bucket heads covering the full range of TTLs.
//!
//! The buckets are divided into 4 ranges of 256 buckets each:
//! * 1-2048s in buckets 8s wide,
//! * 2048-32768s in buckets 128s wide,
//! * 32768-524288s in buckets 2048s wide,
//! * 524288-8388608s in buckets 32768s wide.
//! A TTL of 0 and TTLs beyond the last range are treated as the max TTL.
//!
//! The bucket heads, together with the time of the last expiration sweep, can
//! be written to and restored from a packed little-endian byte layout.

use vstd::prelude::*;

verus! {

/// Number of buckets in each of the four width ranges.
pub const N_BUCKET_PER_STEP: usize = 256;
/// Total number of TTL buckets.
pub const MAX_N_TTL_BUCKET: usize = 1024;
/// Largest valid bucket index.
pub const MAX_TTL_BUCKET_IDX: usize = 1023;

/// Bucket widths (seconds) for the four ranges.
pub const TTL_BUCKET_INTERVAL_1: u32 = 8;
pub const TTL_BUCKET_INTERVAL_2: u32 = 128;
pub const TTL_BUCKET_INTERVAL_3: u32 = 2048;
pub const TTL_BUCKET_INTERVAL_4: u32 = 32768;

/// Upper TTL boundaries (seconds) of the first three ranges.
pub const TTL_BOUNDARY_1: u32 = 2048;
pub const TTL_BOUNDARY_2: u32 = 32768;
pub const TTL_BOUNDARY_3: u32 = 524288;

/// Sentinel segment id meaning "no segment".
pub const NONE_SEG: u32 = 4294967295;

/// Head of a chain of segments whose items share an expiry window.
///
/// `first_seg` and `last_seg` are segment ids, with `NONE_SEG` for an empty
/// chain. All fields are plain integers so that the record has an exact
/// 20-byte little-endian layout for persistence.
#[derive(Clone, Copy, PartialEq, Eq, Structural, Debug)]
pub struct TtlBucket {
    /// Lowest TTL (seconds) that maps into this bucket.
    pub ttl: u32,
    /// Id of the first segment of the chain, or `NONE_SEG`.
    pub first_seg: u32,
    /// Id of the last segment of the chain, or `NONE_SEG`.
    pub last_seg: u32,
    /// Number of segments in the chain.
    pub n_segments: u32,
    /// Number of live items across the chain.
    pub n_items: u32,
}

impl TtlBucket {
    /// A fresh bucket head for the given lowest TTL, with an empty chain.
    pub fn new(ttl: u32) -> (r: Self)
        ensures
            r == (TtlBucket {
                ttl,
                first_seg: NONE_SEG,
                last_seg: NONE_SEG,
                n_segments: 0,
                n_items: 0,
            }),
    {
        TtlBucket { ttl, first_seg: NONE_SEG, last_seg: NONE_SEG, n_segments: 0, n_items: 0 }
    }
}

/// The bucket width (seconds) of the range that step `k` (0..4) covers.
pub open spec fn spec_interval(k: int) -> int {
    if k == 0 {
        8
    } else if k == 1 {
        128
    } else if k == 2 {
        2048
    } else {
        32768
    }
}

/// The lowest TTL that maps into the bucket at index `i`.
pub open spec fn spec_initial_ttl(i: int) -> int {
    spec_interval(i / 256) * (i % 256) + 1
}

/// The index of the bucket that covers TTL `ttl` (seconds).
///
/// A TTL of 0 maps to the last bucket; within each range the TTL is divided
/// by the range's bucket width and offset by 256 per preceding range; indexes
/// beyond the last bucket clamp to it.
pub open spec fn spec_bucket_index(ttl: u32) -> int {
    if ttl == 0 {
        MAX_TTL_BUCKET_IDX as int
    } else if ttl < TTL_BOUNDARY_1 {
        ttl as int / 8
    } else if ttl < TTL_BOUNDARY_2 {
        ttl as int / 128 + 256
    } else if ttl < TTL_BOUNDARY_3 {
        ttl as int / 2048 + 512
    } else if ttl as int / 32768 + 768 >= MAX_TTL_BUCKET_IDX as int {
        MAX_TTL_BUCKET_IDX as int
    } else {
        ttl as int / 32768 + 768
    }
}

/// A collection of 1024 `TtlBucket`s covering the full range of TTLs, plus
/// the time of the last expiration sweep.
pub struct TtlBuckets {
    /// The bucket heads; always exactly 1024 of them.
    pub buckets: Vec<TtlBucket>,
    /// Coarse tick (seconds) of the last expiration sweep.
    pub last_expired: u32,
    /// Whether the buckets were restored from a saved byte image.
    pub buckets_copied_back: bool,
}

impl TtlBuckets {
    /// Structural well-formedness: exactly 1024 buckets.
    pub open spec fn wf(self) -> bool {
        self.buckets.len() == MAX_N_TTL_BUCKET
    }

    /// Create a new set of `TtlBuckets` covering the full range of TTLs, all
    /// chains empty.
    pub fn new() -> (r: Self)
        ensures
            r.wf(),
            forall|i: int| 0 <= i < 1024 ==> #[trigger] r.buckets@[i] == (TtlBucket {
                ttl: spec_initial_ttl(i) as u32,
                first_seg: NONE_SEG,
                last_seg: NONE_SEG,
                n_segments: 0,
                n_items: 0,
            }),
            r.last_expired == 0,
            !r.buckets_copied_back,
    {
        let mut buckets: Vec<TtlBucket> = Vec::new();
        let mut i: usize = 0;
        while i < MAX_N_TTL_BUCKET
            invariant
                i <= 1024,
                buckets.len() == i,
                forall|j: int| 0 <= j < i ==> #[trigger] buckets@[j] == (TtlBucket {
                    ttl: spec_initial_ttl(j) as u32,
                    first_seg: NONE_SEG,
                    last_seg: NONE_SEG,
                    n_segments: 0,
                    n_items: 0,
                }),
            decreases 1024 - i,
        {
            let step: usize = i / 256;
            let interval: u32 = if step == 0 {
                TTL_BUCKET_INTERVAL_1
            } else if step == 1 {
                TTL_BUCKET_INTERVAL_2
            } else if step == 2 {
                TTL_BUCKET_INTERVAL_3
            } else {
                TTL_BUCKET_INTERVAL_4
            };
            let j: usize = i % 256;
            assert(interval as int * (j as int) <= 32768 * 255) by (nonlinear_arith)
                requires
                    interval <= 32768,
                    0 <= j <= 255,
            ;
            let ttl: u32 = interval * (j as u32) + 1;
            assert(ttl == spec_initial_ttl(i as int));
            buckets.push(TtlBucket::new(ttl));
            i = i + 1;
        }
        Self { buckets, last_expired: 0, buckets_copied_back: false }
    }

    /// The index of the bucket covering `ttl_secs`; always in range.
    pub fn get_bucket_index(&self, ttl_secs: u32) -> (r: usize)
        requires
            self.wf(),
        ensures
            r == spec_bucket_index(ttl_secs),
            r < self.buckets.len(),
    {
        if ttl_secs == 0 {
            MAX_TTL_BUCKET_IDX
        } else if ttl_secs < TTL_BOUNDARY_1 {
            (ttl_secs / 8) as usize
        } else if ttl_secs < TTL_BOUNDARY_2 {
            (ttl_secs / 128) as usize + N_BUCKET_PER_STEP
        } else if ttl_secs < TTL_BOUNDARY_3 {
            (ttl_secs / 2048) as usize + N_BUCKET_PER_STEP * 2
        } else {
            let idx = (ttl_secs / 32768) as usize + N_BUCKET_PER_STEP * 3;
            if idx >= MAX_TTL_BUCKET_IDX {
                MAX_TTL_BUCKET_IDX
            } else {
                idx
            }
        }
    }

    /// Whether `self`'s bucket array holds exactly the given bucket records.
    pub fn equivalent_buckets(&self, buckets: &Vec<TtlBucket>) -> (r: bool)
        ensures
            r == (self.buckets@ =~= buckets@),
    {
        if self.buckets.len() != buckets.len() {
            return false;
        }
        let mut id: usize = 0;
        while id < self.buckets.len()
            invariant
                id <= self.buckets.len(),
                self.buckets.len() == buckets.len(),
                forall|j: int| 0 <= j < id ==> self.buckets@[j] == buckets@[j],
            decreases self.buckets.len() - id,
        {
            if !(self.buckets[id] == buckets[id]) {
                return false;
            }
            id = id + 1;
        }
        true
    }

    /// Whether two `TtlBuckets` hold the same bucket records and the same
    /// last-expiration time.
    pub fn equivalent_ttlbuckets(&self, t: &TtlBuckets) -> (r: bool)
        ensures
            r == (self.buckets@ =~= t.buckets@ && self.last_expired == t.last_expired),
    {
        self.equivalent_buckets(&t.buckets) && self.last_expired == t.last_expired
    }
}

/// Byte length of one encoded `TtlBucket` record.
pub const TTL_BUCKET_BYTES: usize = 20;
/// Byte length of the full persisted image: `last_expired` plus 1024 records.
pub const TTL_BUCKETS_IMAGE_BYTES: usize = 20484;

/// The 4-byte little-endian encoding of `x`.
pub open spec fn spec_le32(x: u32) -> Seq<u8> {
    seq![
        (x as int % 256) as u8,
        ((x as int / 256) % 256) as u8,
        ((x as int / 65536) % 256) as u8,
        ((x as int / 16777216) % 256) as u8,
    ]
}

/// The value of the 4 little-endian bytes of `b` starting at `off`.
pub open spec fn spec_read_le32(b: Seq<u8>, off: int) -> int {
    b[off] + 256 * b[off + 1] + 65536 * b[off + 2] + 16777216 * b[off + 3]
}

/// Reading back the 4-byte little-endian encoding yields the value.
pub proof fn lemma_le32_roundtrip(x: u32)
    ensures
        spec_read_le32(spec_le32(x), 0) == x,
{
    assert(x % 256 + 256 * ((x / 256) % 256) + 65536 * ((x / 65536) % 256) + 16777216 * ((x
        / 16777216) % 256) == x) by (bit_vector);
}

/// The 20-byte encoding of one bucket record: five little-endian fields.
pub open spec fn spec_encode_bucket(b: TtlBucket) -> Seq<u8> {
    spec_le32(b.ttl) + spec_le32(b.first_seg) + spec_le32(b.last_seg) + spec_le32(b.n_segments)
        + spec_le32(b.n_items)
}

/// The concatenated encodings of a sequence of bucket records.
pub open spec fn spec_encode_buckets(s: Seq<TtlBucket>) -> Seq<u8>
    decreases s.len(),
{
    if s.len() == 0 {
        Seq::empty()
    } else {
        spec_encode_buckets(s.drop_last()) + spec_encode_bucket(s.last())
    }
}

/// The full persisted image: `last_expired` followed by the bucket records.
pub open spec fn spec_encode(tb: TtlBuckets) -> Seq<u8> {
    spec_le32(tb.last_expired) + spec_encode_buckets(tb.buckets@)
}

/// The bucket record read from the 20 bytes of `b` starting at `off`.
pub open spec fn spec_decode_bucket(b: Seq<u8>, off: int) -> TtlBucket {
    TtlBucket {
        ttl: spec_read_le32(b, off) as u32,
        first_seg: spec_read_le32(b, off + 4) as u32,
        last_seg: spec_read_le32(b, off + 8) as u32,
        n_segments: spec_read_le32(b, off + 12) as u32,
        n_items: spec_read_le32(b, off + 16) as u32,
    }
}

/// The bucket records and `last_expired` read from a persisted image, or
/// `None` when the image does not have the exact expected length.
pub open spec fn spec_decode(b: Seq<u8>) -> Option<(Seq<TtlBucket>, u32)> {
    if b.len() != TTL_BUCKETS_IMAGE_BYTES {
        None
    } else {
        Some(
            (
                Seq::new(1024, |i: int| spec_decode_bucket(b, 4 + 20 * i)),
                spec_read_le32(b, 0) as u32,
            ),
        )
    }
}

proof fn lemma_encode_buckets_len(s: Seq<TtlBucket>)
    ensures
        spec_encode_buckets(s).len() == 20 * s.len(),
    decreases s.len(),
{
    if s.len() > 0 {
        lemma_encode_buckets_len(s.drop_last());
    }
}

proof fn lemma_encode_buckets_index(s: Seq<TtlBucket>, i: int, k: int)
    requires
        0 <= i < s.len(),
        0 <= k < 20,
    ensures
        spec_encode_buckets(s)[20 * i + k] == spec_encode_bucket(s[i])[k],
    decreases s.len(),
{
    lemma_encode_buckets_len(s);
    lemma_encode_buckets_len(s.drop_last());
    if i == s.len() - 1 {
        assert(s.last() == s[i]);
    } else {
        lemma_encode_buckets_index(s.drop_last(), i, k);
        assert(s.drop_last()[i] == s[i]);
    }
}

proof fn lemma_read_le32_at(b: Seq<u8>, off: int, x: u32)
    requires
        0 <= off,
        off + 4 <= b.len(),
        forall|k: int| 0 <= k < 4 ==> b[off + k] == #[trigger] spec_le32(x)[k],
    ensures
        spec_read_le32(b, off) == x,
{
    lemma_le32_roundtrip(x);
    assert(b[off] == spec_le32(x)[0]);
    assert(b[off + 1] == spec_le32(x)[1]);
    assert(b[off + 2] == spec_le32(x)[2]);
    assert(b[off + 3] == spec_le32(x)[3]);
}

proof fn lemma_decode_bucket_at(e: Seq<u8>, off: int, bk: TtlBucket)
    requires
        0 <= off,
        off + 20 <= e.len(),
        forall|k: int| 0 <= k < 20 ==> e[off + k] == #[trigger] spec_encode_bucket(bk)[k],
    ensures
        spec_decode_bucket(e, off) == bk,
{
    assert forall|k: int| 0 <= k < 4 implies e[off + k] == #[trigger] spec_le32(bk.ttl)[k] by {
        assert(e[off + k] == spec_encode_bucket(bk)[k]);
    }
    lemma_read_le32_at(e, off, bk.ttl);
    assert forall|k: int| 0 <= k < 4 implies e[off + 4 + k] == #[trigger] spec_le32(
        bk.first_seg,
    )[k] by {
        assert(e[off + (4 + k)] == spec_encode_bucket(bk)[4 + k]);
    }
    lemma_read_le32_at(e, off + 4, bk.first_seg);
    assert forall|k: int| 0 <= k < 4 implies e[off + 8 + k] == #[trigger] spec_le32(
        bk.last_seg,
    )[k] by {
        assert(e[off + (8 + k)] == spec_encode_bucket(bk)[8 + k]);
    }
    lemma_read_le32_at(e, off + 8, bk.last_seg);
    assert forall|k: int| 0 <= k < 4 implies e[off + 12 + k] == #[trigger] spec_le32(
        bk.n_segments,
    )[k] by {
        assert(e[off + (12 + k)] == spec_encode_bucket(bk)[12 + k]);
    }
    lemma_read_le32_at(e, off + 12, bk.n_segments);
    assert forall|k: int| 0 <= k < 4 implies e[off + 16 + k] == #[trigger] spec_le32(
        bk.n_items,
    )[k] by {
        assert(e[off + (16 + k)] == spec_encode_bucket(bk)[16 + k]);
    }
    lemma_read_le32_at(e, off + 16, bk.n_items);
}

/// Persistence is round-trip exact: decoding the encoded image of any
/// well-formed `TtlBuckets` yields exactly its bucket records and its
/// `last_expired` time.
pub proof fn lemma_ttl_buckets_roundtrip(tb: TtlBuckets)
    requires
        tb.wf(),
    ensures
        spec_decode(spec_encode(tb)) == Some((tb.buckets@, tb.last_expired)),
{
    let e = spec_encode(tb);
    lemma_encode_buckets_len(tb.buckets@);
    assert(e.len() == TTL_BUCKETS_IMAGE_BYTES);
    lemma_le32_roundtrip(tb.last_expired);
    assert(spec_read_le32(e, 0) == tb.last_expired) by {
        lemma_read_le32_at(e, 0, tb.last_expired);
    }
    let dec = Seq::new(1024, |i: int| spec_decode_bucket(e, 4 + 20 * i));
    assert forall|i: int| 0 <= i < 1024 implies dec[i] == tb.buckets@[i] by {
        let bk = tb.buckets@[i];
        let off = 4 + 20 * i;
        assert forall|k: int| 0 <= k < 20 implies e[off + k] == #[trigger] spec_encode_bucket(
            bk,
        )[k] by {
            lemma_encode_buckets_index(tb.buckets@, i, k);
            assert(spec_encode_buckets(tb.buckets@)[20 * i + k] == spec_encode_bucket(bk)[k]);
        }
        lemma_decode_bucket_at(e, off, bk);
    }
    assert(dec =~= tb.buckets@);
}

/// Append the 4-byte little-endian encoding of `x` to `out`.
fn push_le32(out: &mut Vec<u8>, x: u32)
    ensures
        final(out)@ == old(out)@ + spec_le32(x),
{
    out.push((x % 256) as u8);
    out.push(((x / 256) % 256) as u8);
    out.push(((x / 65536) % 256) as u8);
    out.push(((x / 16777216) % 256) as u8);
    assert(out@ =~= old(out)@ + spec_le32(x));
}

/// Read the 4 little-endian bytes of `b` starting at `off` as a `u32`.
fn read_le32(b: &[u8], off: usize) -> (x: u32)
    requires
        off + 4 <= b@.len(),
    ensures
        x == spec_read_le32(b@, off as int),
{
    (b[off] as u32) + 256 * (b[off + 1] as u32) + 65536 * (b[off + 2] as u32) + 16777216 * (b[off
        + 3] as u32)
}

impl TtlBuckets {
    /// The packed little-endian persisted image of the bucket heads:
    /// `last_expired` followed by the 1024 bucket records.
    pub fn to_bytes(&self) -> (r: Vec<u8>)
        requires
            self.wf(),
        ensures
            r@ == spec_encode(*self),
            r@.len() == TTL_BUCKETS_IMAGE_BYTES,
    {
        let mut out: Vec<u8> = Vec::new();
        push_le32(&mut out, self.last_expired);
        let mut i: usize = 0;
        while i < self.buckets.len()
            invariant
                self.wf(),
                i <= 1024,
                out@ == spec_le32(self.last_expired) + spec_encode_buckets(self.buckets@.take(
                    i as int,
                )),
            decreases 1024 - i,
        {
            let b = self.buckets[i];
            push_le32(&mut out, b.ttl);
            push_le32(&mut out, b.first_seg);
            push_le32(&mut out, b.last_seg);
            push_le32(&mut out, b.n_segments);
            push_le32(&mut out, b.n_items);
            proof {
                let t = self.buckets@.take(i + 1);
                assert(t.drop_last() =~= self.buckets@.take(i as int));
                assert(t.last() == self.buckets@[i as int]);
                assert(out@ =~= spec_le32(self.last_expired) + spec_encode_buckets(t));
            }
            i = i + 1;
        }
        proof {
            assert(self.buckets@.take(1024) =~= self.buckets@);
            lemma_encode_buckets_len(self.buckets@);
        }
        out
    }

    /// Restore bucket heads from a persisted image. Succeeds exactly when the
    /// image has the expected length; any mismatch refuses to restore.
    pub fn from_bytes(b: &[u8]) -> (r: Option<TtlBuckets>)
        ensures
            match r {
                Some(tb) => {
                    &&& spec_decode(b@) matches Some(d) && tb.buckets@ == d.0 && tb.last_expired
                        == d.1
                    &&& tb.wf()
                    &&& tb.buckets_copied_back
                },
                None => spec_decode(b@) is None,
            },
    {
        if b.len() != TTL_BUCKETS_IMAGE_BYTES {
            return None;
        }
        let last_expired = read_le32(b, 0);
        let mut buckets: Vec<TtlBucket> = Vec::new();
        let mut i: usize = 0;
        while i < MAX_N_TTL_BUCKET
            invariant
                i <= 1024,
                b@.len() == TTL_BUCKETS_IMAGE_BYTES,
                buckets.len() == i,
                forall|j: int| 0 <= j < i ==> #[trigger] buckets@[j] == spec_decode_bucket(
                    b@,
                    4 + 20 * j,
                ),
            decreases 1024 - i,
        {
            let off = 4 + 20 * i;
            let bucket = TtlBucket {
                ttl: read_le32(b, off),
                first_seg: read_le32(b, off + 4),
                last_seg: read_le32(b, off + 8),
                n_segments: read_le32(b, off + 12),
                n_items: read_le32(b, off + 16),
            };
            buckets.push(bucket);
            i = i + 1;
        }
        proof {
            let d = spec_decode(b@).unwrap();
            assert(buckets@ =~= d.0);
        }
        Some(TtlBuckets { buckets, last_expired, buckets_copied_back: true })
    }
}

impl Default for TtlBuckets {
    /// Same as `TtlBuckets::new`.
    fn default() -> (r: Self)
        ensures
            r.wf(),
            r.last_expired == 0,
            !r.buckets_copied_back,
    {
        Self::new()
    }
}

} // verus!
