use nucleo::boxcar::{Location, BUCKETS, MAX_ENTRIES};

#[test]
fn location() {
    assert_eq!(Location::bucket_len(0), 32);
    for i in 0..32 {
        let loc = Location::of(i);
        assert_eq!(loc.bucket_len, 32);
        assert_eq!(loc.bucket, 0);
        assert_eq!(loc.entry, i);
    }

    assert_eq!(Location::bucket_len(1), 64);
    for i in 33..96 {
        let loc = Location::of(i);
        assert_eq!(loc.bucket_len, 64);
        assert_eq!(loc.bucket, 1);
        assert_eq!(loc.entry, i - 32);
    }

    assert_eq!(Location::bucket_len(2), 128);
    for i in 96..224 {
        let loc = Location::of(i);
        assert_eq!(loc.bucket_len, 128);
        assert_eq!(loc.bucket, 2);
        assert_eq!(loc.entry, i - 96);
    }

    let max = Location::of(MAX_ENTRIES);
    assert_eq!(max.bucket, BUCKETS - 1);
    assert_eq!(max.bucket_len, 1 << 31);
    assert_eq!(max.entry, (1 << 31) - 1);
}
