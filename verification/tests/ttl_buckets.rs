use segcache::ttl::{TtlBucket, TtlBuckets, NONE_SEG};

#[test]
fn bucket_index_covers_the_four_ranges() {
    let tb = TtlBuckets::new();
    // 0 and out-of-range TTLs map to the last bucket
    assert_eq!(tb.get_bucket_index(0), 1023);
    assert_eq!(tb.get_bucket_index(4294967295), 1023);
    // 1-2048s: 8s wide
    assert_eq!(tb.get_bucket_index(1), 0);
    assert_eq!(tb.get_bucket_index(7), 0);
    assert_eq!(tb.get_bucket_index(8), 1);
    assert_eq!(tb.get_bucket_index(2047), 255);
    // 2048-32768s: 128s wide, offset 256
    assert_eq!(tb.get_bucket_index(2048), 272);
    assert_eq!(tb.get_bucket_index(32767), 511);
    // 32768-524288s: 2048s wide, offset 512
    assert_eq!(tb.get_bucket_index(32768), 528);
    assert_eq!(tb.get_bucket_index(524287), 767);
    // 524288-8388608s: 32768s wide, offset 768
    assert_eq!(tb.get_bucket_index(524288), 784);
    assert_eq!(tb.get_bucket_index(8388607), 1023);
}

#[test]
fn new_buckets_cover_increasing_ttls() {
    let tb = TtlBuckets::new();
    assert_eq!(tb.buckets.len(), 1024);
    assert_eq!(tb.buckets[0].ttl, 1);
    assert_eq!(tb.buckets[1].ttl, 9);
    assert_eq!(tb.buckets[255].ttl, 255 * 8 + 1);
    assert_eq!(tb.buckets[256].ttl, 1);
    assert_eq!(tb.buckets[511].ttl, 255 * 128 + 1);
    assert_eq!(tb.buckets[1023].ttl, 255 * 32768 + 1);
    for b in tb.buckets.iter() {
        assert_eq!(b.first_seg, NONE_SEG);
        assert_eq!(b.last_seg, NONE_SEG);
        assert_eq!(b.n_segments, 0);
        assert_eq!(b.n_items, 0);
    }
}

#[test]
fn persistence_round_trip_is_byte_exact() {
    let mut tb = TtlBuckets::new();
    tb.last_expired = 12345;
    tb.buckets[3] = TtlBucket {
        ttl: 25,
        first_seg: 7,
        last_seg: 9,
        n_segments: 2,
        n_items: 40,
    };
    let image = tb.to_bytes();
    assert_eq!(image.len(), 20484);
    let restored = TtlBuckets::from_bytes(image.as_slice()).expect("image should restore");
    assert!(restored.buckets_copied_back);
    assert!(tb.equivalent_ttlbuckets(&restored));
    assert!(tb.equivalent_buckets(&restored.buckets));
    assert_eq!(restored.last_expired, 12345);
    assert_eq!(restored.buckets[3].first_seg, 7);
}

#[test]
fn short_or_long_images_refuse_to_restore() {
    let tb = TtlBuckets::new();
    let mut image = tb.to_bytes();
    image.pop();
    assert!(TtlBuckets::from_bytes(image.as_slice()).is_none());
    let mut image = tb.to_bytes();
    image.push(0);
    assert!(TtlBuckets::from_bytes(image.as_slice()).is_none());
    assert!(TtlBuckets::from_bytes(&[]).is_none());
}

#[test]
fn equivalence_notices_differences() {
    let tb = TtlBuckets::new();
    let mut other = TtlBuckets::new();
    assert!(tb.equivalent_ttlbuckets(&other));
    other.buckets[5].n_items = 1;
    assert!(!tb.equivalent_buckets(&other.buckets));
    let mut other = TtlBuckets::new();
    other.last_expired = 1;
    assert!(tb.equivalent_buckets(&other.buckets));
    assert!(!tb.equivalent_ttlbuckets(&other));
}
