use s3s_fs::System;
use s3s_fs::S3ErrorCode;
use s3s_fs::token::{encode_token, decode_token};

fn bv(s: &str) -> Vec<u8> {
    s.as_bytes().to_vec()
}

#[test]
fn copy_object_carries_body_and_recomputes_etag() {
    let mut sys = System::new();
    sys.create_bucket(&bv("src")).unwrap();
    sys.create_bucket(&bv("dst")).unwrap();
    let e1 = sys
        .put_object(&bv("src"), &bv("k"), bv("payload"), Vec::new(), None)
        .unwrap();
    let e2 = sys
        .copy_object(&bv("src"), &bv("k"), &bv("dst"), &bv("k2"))
        .unwrap();
    assert_eq!(e1, e2);
    let out = sys.get_object(&bv("dst"), &bv("k2"), None).unwrap();
    assert_eq!(out.body, bv("payload"));
    assert_eq!(
        sys.copy_object(&bv("src"), &bv("missing"), &bv("dst"), &bv("k3"))
            .unwrap_err(),
        S3ErrorCode::NoSuchKey
    );
    assert_eq!(
        sys.copy_object(&bv("nope"), &bv("k"), &bv("dst"), &bv("k3"))
            .unwrap_err(),
        S3ErrorCode::NoSuchBucket
    );
}

#[test]
fn tagging_round_trip() {
    let mut sys = System::new();
    sys.create_bucket(&bv("bkt")).unwrap();
    sys.put_object(&bv("bkt"), &bv("k"), bv("v"), Vec::new(), None)
        .unwrap();
    assert!(sys.get_object_tagging(&bv("bkt"), &bv("k")).unwrap().is_empty());
    let tags = vec![(bv("env"), bv("test")), (bv("team"), bv("storage"))];
    sys.put_object_tagging(&bv("bkt"), &bv("k"), tags.clone()).unwrap();
    assert_eq!(sys.get_object_tagging(&bv("bkt"), &bv("k")).unwrap(), tags);
    sys.delete_object_tagging(&bv("bkt"), &bv("k")).unwrap();
    assert!(sys.get_object_tagging(&bv("bkt"), &bv("k")).unwrap().is_empty());
    assert_eq!(
        sys.put_object_tagging(&bv("bkt"), &bv("missing"), Vec::new())
            .unwrap_err(),
        S3ErrorCode::NoSuchKey
    );
}

#[test]
fn acl_round_trip() {
    let mut sys = System::new();
    sys.create_bucket(&bv("bkt")).unwrap();
    sys.put_object(&bv("bkt"), &bv("k"), bv("v"), Vec::new(), None)
        .unwrap();
    assert!(sys.get_object_acl(&bv("bkt"), &bv("k")).unwrap().is_empty());
    sys.put_object_acl(&bv("bkt"), &bv("k"), bv("public-read")).unwrap();
    assert_eq!(
        sys.get_object_acl(&bv("bkt"), &bv("k")).unwrap(),
        bv("public-read")
    );
}

#[test]
fn token_round_trips() {
    for key in ["", "a", "ab", "abc", "abcd", "a/b/c.txt", "\u{00e9}tag"] {
        let k = bv(key);
        let t = encode_token(&k);
        assert_eq!(decode_token(&t), Some(k));
    }
    let t = encode_token(&bv("hello"));
    assert_eq!(t, bv("aGVsbG8="));
}

#[test]
fn token_rejects_malformed() {
    assert_eq!(decode_token(&bv("abc")), None);
    assert_eq!(decode_token(&bv("ab=c")), None);
    assert_eq!(decode_token(&bv("a*cd")), None);
    // non-canonical padding bits are refused
    assert_eq!(decode_token(&bv("aGVsbG9=")), None);
}

#[test]
fn metadata_survives_storage() {
    let mut sys = System::new();
    sys.create_bucket(&bv("bkt")).unwrap();
    let meta = vec![(bv("x-amz-meta-owner"), bv("alice")), (bv("content-type"), bv("text/plain"))];
    sys.put_object(&bv("bkt"), &bv("k"), bv("v"), meta.clone(), None)
        .unwrap();
    let copied = sys
        .copy_object(&bv("bkt"), &bv("k"), &bv("bkt"), &bv("k2"))
        .unwrap();
    assert!(!copied.is_empty());
    let out = sys.get_object(&bv("bkt"), &bv("k2"), None).unwrap();
    assert_eq!(out.body, bv("v"));
}
