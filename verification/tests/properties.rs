use s3s_fs::System;
use s3s_fs::S3ErrorCode;
use md5::Digest;

fn bv(s: &str) -> Vec<u8> {
    s.as_bytes().to_vec()
}

fn hex(bytes: &[u8]) -> String {
    let mut s = String::new();
    for b in bytes {
        s.push_str(&format!("{:02x}", b));
    }
    s
}

#[test]
fn round_trip_several_bodies() {
    let mut sys = System::new();
    sys.create_bucket(&bv("bkt")).unwrap();
    let bodies: Vec<Vec<u8>> = vec![
        Vec::new(),
        bv("a"),
        bv("some longer body with bytes"),
        vec![0u8, 255u8, 1u8, 128u8],
    ];
    for (i, body) in bodies.iter().enumerate() {
        let key = bv(&format!("key-{}", i));
        let etag = sys
            .put_object(&bv("bkt"), &key, body.clone(), Vec::new(), None)
            .unwrap();
        assert_eq!(etag, hex(&md5::Md5::digest(body)).into_bytes());
        let out = sys.get_object(&bv("bkt"), &key, None).unwrap();
        assert_eq!(&out.body, body);
        assert_eq!(out.etag, etag);
    }
}

#[test]
fn multipart_equivalence_with_single_put() {
    let mut sys = System::new();
    sys.create_bucket(&bv("bkt")).unwrap();
    let p1 = vec![b'q'; 5 * 1024 * 1024];
    let p2 = bv("tail-bytes");
    let mut whole = p1.clone();
    whole.extend_from_slice(&p2);
    sys.put_object(&bv("bkt"), &bv("single"), whole.clone(), Vec::new(), None)
        .unwrap();
    let uid = sys.create_multipart_upload(&bv("bkt"), &bv("multi")).unwrap();
    let e1 = sys.upload_part(&bv("bkt"), &uid, 1, p1).unwrap();
    let e2 = sys.upload_part(&bv("bkt"), &uid, 2, p2).unwrap();
    let ce = sys
        .complete_multipart_upload(&bv("bkt"), &bv("multi"), &uid, &vec![(1, e1), (2, e2)])
        .unwrap();
    assert!(ce.ends_with(b"-2"));
    let a = sys.get_object(&bv("bkt"), &bv("single"), None).unwrap();
    let b = sys.get_object(&bv("bkt"), &bv("multi"), None).unwrap();
    assert_eq!(a.body, b.body);
}

#[test]
fn listing_totality_with_continuation() {
    let mut sys = System::new();
    sys.create_bucket(&bv("bkt")).unwrap();
    let mut keys = vec![
        bv("delta"), bv("alpha"), bv("echo"), bv("bravo"), bv("charlie"),
    ];
    for k in &keys {
        sys.put_object(&bv("bkt"), k, bv("x"), Vec::new(), None).unwrap();
    }
    keys.sort();
    let mut seen: Vec<Vec<u8>> = Vec::new();
    let mut after: Option<Vec<u8>> = None;
    loop {
        let out = sys
            .list_objects_v2(&bv("bkt"), &bv(""), None, after.as_ref(), 2)
            .unwrap();
        seen.extend(out.keys.iter().cloned());
        if !out.is_truncated {
            assert!(out.next_after.is_none());
            break;
        }
        after = out.next_after;
        assert!(after.is_some());
    }
    assert_eq!(seen, keys);
}

#[test]
fn delimiter_shape() {
    let mut sys = System::new();
    sys.create_bucket(&bv("bkt")).unwrap();
    for k in ["p/x/1", "p/x/2", "p/y", "p/z/9", "q"] {
        sys.put_object(&bv("bkt"), &bv(k), bv("x"), Vec::new(), None).unwrap();
    }
    let prefix = bv("p/");
    let out = sys
        .list_objects_v2(&bv("bkt"), &prefix, Some(b'/'), None, 1000)
        .unwrap();
    // returned keys: start with the prefix, no delimiter after it
    assert_eq!(out.keys, vec![bv("p/y")]);
    for k in &out.keys {
        assert!(k.starts_with(&prefix[..]));
        assert!(!k[prefix.len()..].contains(&b'/'));
    }
    // common prefixes: start with the prefix, end with the delimiter
    assert_eq!(out.common_prefixes, vec![bv("p/x/"), bv("p/z/")]);
    for cp in &out.common_prefixes {
        assert!(cp.starts_with(&prefix[..]));
        assert_eq!(*cp.last().unwrap(), b'/');
    }
}

#[test]
fn bucket_not_empty_protection_with_upload() {
    let mut sys = System::new();
    sys.create_bucket(&bv("bkt")).unwrap();
    let _uid = sys.create_multipart_upload(&bv("bkt"), &bv("k")).unwrap();
    let err = sys.delete_bucket(&bv("bkt")).unwrap_err();
    assert_eq!(err, S3ErrorCode::BucketNotEmpty);
}

#[test]
fn abort_completeness() {
    let mut sys = System::new();
    sys.create_bucket(&bv("bkt")).unwrap();
    let uid = sys.create_multipart_upload(&bv("bkt"), &bv("k")).unwrap();
    sys.upload_part(&bv("bkt"), &uid, 1, bv("data")).unwrap();
    sys.abort_multipart_upload(&bv("bkt"), &uid).unwrap();
    let err = sys.list_parts(&bv("bkt"), &uid).unwrap_err();
    assert_eq!(err, S3ErrorCode::NoSuchUpload);
    // aborting again still succeeds
    sys.abort_multipart_upload(&bv("bkt"), &uid).unwrap();
    // and the bucket can now be deleted
    sys.delete_bucket(&bv("bkt")).unwrap();
}

#[test]
fn overwrite_last_writer_wins() {
    let mut sys = System::new();
    sys.create_bucket(&bv("bkt")).unwrap();
    let e1 = sys
        .put_object(&bv("bkt"), &bv("k"), bv("first"), Vec::new(), None)
        .unwrap();
    let e2 = sys
        .put_object(&bv("bkt"), &bv("k"), bv("second"), Vec::new(), None)
        .unwrap();
    let out = sys.get_object(&bv("bkt"), &bv("k"), None).unwrap();
    assert_eq!(out.body, bv("second"));
    assert_eq!(out.etag, e2);
    assert_ne!(out.etag, e1);
}
