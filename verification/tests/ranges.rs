use s3s_fs::System;
use s3s_fs::range::{parse_range, RangeReq};

fn bv(s: &str) -> Vec<u8> {
    s.as_bytes().to_vec()
}

#[test]
fn parse_range_forms() {
    assert_eq!(parse_range(&bv("bytes=0-0")), Some(RangeReq::FromTo(0, 0)));
    assert_eq!(parse_range(&bv("bytes=3-17")), Some(RangeReq::FromTo(3, 17)));
    assert_eq!(parse_range(&bv("bytes=5-")), Some(RangeReq::From(5)));
    assert_eq!(parse_range(&bv("bytes=-3")), Some(RangeReq::Suffix(3)));
}

#[test]
fn parse_range_malformed() {
    assert_eq!(parse_range(&bv("")), None);
    assert_eq!(parse_range(&bv("bytes=")), None);
    assert_eq!(parse_range(&bv("bytes=-")), None);
    assert_eq!(parse_range(&bv("bytes=a-b")), None);
    assert_eq!(parse_range(&bv("bytes=1-2-3")), None);
    assert_eq!(parse_range(&bv("bites=0-1")), None);
    assert_eq!(parse_range(&bv("0-1")), None);
    assert_eq!(parse_range(&bv("bytes=99999999999999999999-")), None);
}

#[test]
fn range_reads() {
    let mut sys = System::new();
    sys.create_bucket(&bv("bkt")).unwrap();
    sys.put_object(&bv("bkt"), &bv("k"), bv("hello world"), Vec::new(), None)
        .unwrap();
    let r = parse_range(&bv("bytes=0-4")).unwrap();
    let out = sys.get_object(&bv("bkt"), &bv("k"), Some(&r)).unwrap();
    assert_eq!(out.body, bv("hello"));
    assert_eq!(out.status, 206);
    let r = parse_range(&bv("bytes=6-")).unwrap();
    let out = sys.get_object(&bv("bkt"), &bv("k"), Some(&r)).unwrap();
    assert_eq!(out.body, bv("world"));
    let r = parse_range(&bv("bytes=-5")).unwrap();
    let out = sys.get_object(&bv("bkt"), &bv("k"), Some(&r)).unwrap();
    assert_eq!(out.body, bv("world"));
    // a suffix longer than the body selects the whole body
    let r = parse_range(&bv("bytes=-100")).unwrap();
    let out = sys.get_object(&bv("bkt"), &bv("k"), Some(&r)).unwrap();
    assert_eq!(out.body, bv("hello world"));
    // an end past the body is clamped
    let r = parse_range(&bv("bytes=6-100")).unwrap();
    let out = sys.get_object(&bv("bkt"), &bv("k"), Some(&r)).unwrap();
    assert_eq!(out.body, bv("world"));
}
