use s3s_fs::System;
use s3s_fs::S3ErrorCode;
use md5::Digest;

fn bv(s: &str) -> Vec<u8> {
    s.as_bytes().to_vec()
}

#[test]
fn s1_put_get_round_trip() {
    let mut sys = System::new();
    sys.create_bucket(&bv("bkt")).unwrap();
    let etag = sys
        .put_object(&bv("bkt"), &bv("hello.txt"), bv("world"), Vec::new(), None)
        .unwrap();
    assert_eq!(etag, bv("7d793037a0760186574b0282f2f435e7"));
    let out = sys.get_object(&bv("bkt"), &bv("hello.txt"), None).unwrap();
    assert_eq!(out.body, bv("world"));
    assert_eq!(out.etag, etag);
    assert_eq!(out.status, 200);
}

#[test]
fn s2_overwrite_changes_etag_and_body() {
    let mut sys = System::new();
    sys.create_bucket(&bv("bkt")).unwrap();
    let big = vec![b'x'; 5 * 1024 * 1024];
    let e1 = sys
        .put_object(&bv("bkt"), &bv("a"), big, Vec::new(), None)
        .unwrap();
    let e2 = sys
        .put_object(&bv("bkt"), &bv("a"), bv("abc"), Vec::new(), None)
        .unwrap();
    assert_ne!(e1, e2);
    let out = sys.get_object(&bv("bkt"), &bv("a"), None).unwrap();
    assert_eq!(out.body, bv("abc"));
    assert_eq!(out.body.len(), 3);
}

#[test]
fn s3_multipart_upload() {
    let mut sys = System::new();
    sys.create_bucket(&bv("bkt")).unwrap();
    let uid = sys.create_multipart_upload(&bv("bkt"), &bv("big")).unwrap();
    let p1 = vec![b'A'; 5 * 1024 * 1024];
    let p2 = vec![b'B'; 1];
    let e1 = sys
        .upload_part(&bv("bkt"), &uid, 1, p1.clone())
        .unwrap();
    let e2 = sys
        .upload_part(&bv("bkt"), &uid, 2, p2.clone())
        .unwrap();
    let parts = vec![(1u32, e1), (2u32, e2)];
    let ce = sys
        .complete_multipart_upload(&bv("bkt"), &bv("big"), &uid, &parts)
        .unwrap();
    // the composite ETag is hex(md5(md5(p1) || md5(p2))) followed by -2
    let d1 = md5::Md5::digest(&p1);
    let d2 = md5::Md5::digest(&p2);
    let mut cat = Vec::new();
    cat.extend_from_slice(&d1);
    cat.extend_from_slice(&d2);
    let dc = md5::Md5::digest(&cat);
    let mut expected = String::new();
    for b in dc.iter() {
        expected.push_str(&format!("{:02x}", b));
    }
    expected.push_str("-2");
    assert_eq!(ce, expected.into_bytes());
    let h = sys.head_object(&bv("bkt"), &bv("big")).unwrap();
    assert_eq!(h.size, 5 * 1024 * 1024 + 1);
    let out = sys.get_object(&bv("bkt"), &bv("big"), None).unwrap();
    assert_eq!(out.body.len(), 5 * 1024 * 1024 + 1);
    assert_eq!(out.body[0], b'A');
    assert_eq!(out.body[5 * 1024 * 1024], b'B');
}

#[test]
fn s4_range_requests() {
    let mut sys = System::new();
    sys.create_bucket(&bv("bkt")).unwrap();
    sys.put_object(&bv("bkt"), &bv("k"), bv("v"), Vec::new(), None)
        .unwrap();
    let r1 = s3s_fs::range::parse_range(&bv("bytes=0-0")).unwrap();
    let out = sys.get_object(&bv("bkt"), &bv("k"), Some(&r1)).unwrap();
    assert_eq!(out.status, 206);
    assert_eq!(out.body, bv("v"));
    let r2 = s3s_fs::range::parse_range(&bv("bytes=5-")).unwrap();
    let err = sys.get_object(&bv("bkt"), &bv("k"), Some(&r2)).unwrap_err();
    assert_eq!(err, S3ErrorCode::InvalidRange);
    assert_eq!(err.http_status(), 416);
}

#[test]
fn s5_listing_prefix_and_delimiter() {
    let mut sys = System::new();
    sys.create_bucket(&bv("bkt")).unwrap();
    for k in ["a/1", "a/2", "b/1"] {
        sys.put_object(&bv("bkt"), &bv(k), bv("x"), Vec::new(), None)
            .unwrap();
    }
    let out = sys
        .list_objects_v2(&bv("bkt"), &bv("a/"), None, None, 1000)
        .unwrap();
    assert_eq!(out.keys, vec![bv("a/1"), bv("a/2")]);
    assert!(out.common_prefixes.is_empty());
    assert!(!out.is_truncated);
    let out2 = sys
        .list_objects_v2(&bv("bkt"), &bv(""), Some(b'/'), None, 1000)
        .unwrap();
    assert!(out2.keys.is_empty());
    assert_eq!(out2.common_prefixes, vec![bv("a/"), bv("b/")]);
}

#[test]
fn s6_delete_bucket_protection() {
    let mut sys = System::new();
    sys.create_bucket(&bv("bkt")).unwrap();
    sys.put_object(&bv("bkt"), &bv("k"), bv("v"), Vec::new(), None)
        .unwrap();
    let err = sys.delete_bucket(&bv("bkt")).unwrap_err();
    assert_eq!(err, S3ErrorCode::BucketNotEmpty);
    assert_eq!(err.http_status(), 409);
    sys.delete_object(&bv("bkt"), &bv("k")).unwrap();
    sys.delete_bucket(&bv("bkt")).unwrap();
    assert!(!sys.head_bucket(&bv("bkt")));
}
