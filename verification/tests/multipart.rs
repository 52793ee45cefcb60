use s3s_fs::System;
use s3s_fs::S3ErrorCode;
use s3s_fs::paths::{bucket_dir, object_blob_path, object_meta_path, upload_dir, part_path};

fn bv(s: &str) -> Vec<u8> {
    s.as_bytes().to_vec()
}

fn five_mib(b: u8) -> Vec<u8> {
    vec![b; 5 * 1024 * 1024]
}

#[test]
fn complete_validations() {
    let mut sys = System::new();
    sys.create_bucket(&bv("bkt")).unwrap();
    let uid = sys.create_multipart_upload(&bv("bkt"), &bv("k")).unwrap();
    let e1 = sys.upload_part(&bv("bkt"), &uid, 1, five_mib(b'a')).unwrap();
    let e2 = sys.upload_part(&bv("bkt"), &uid, 2, bv("end")).unwrap();
    // empty part list
    assert_eq!(
        sys.complete_multipart_upload(&bv("bkt"), &bv("k"), &uid, &Vec::new())
            .unwrap_err(),
        S3ErrorCode::InvalidPart
    );
    // wrong order
    assert_eq!(
        sys.complete_multipart_upload(
            &bv("bkt"),
            &bv("k"),
            &uid,
            &vec![(2, e2.clone()), (1, e1.clone())]
        )
        .unwrap_err(),
        S3ErrorCode::InvalidPartOrder
    );
    // unknown part number
    assert_eq!(
        sys.complete_multipart_upload(&bv("bkt"), &bv("k"), &uid, &vec![(3, e1.clone())])
            .unwrap_err(),
        S3ErrorCode::InvalidPart
    );
    // mismatched etag
    assert_eq!(
        sys.complete_multipart_upload(
            &bv("bkt"),
            &bv("k"),
            &uid,
            &vec![(1, bv("wrong")), (2, e2.clone())]
        )
        .unwrap_err(),
        S3ErrorCode::InvalidPart
    );
    // a non-final part below 5 MiB
    let e2small = sys.upload_part(&bv("bkt"), &uid, 3, bv("also-small")).unwrap();
    assert_eq!(
        sys.complete_multipart_upload(
            &bv("bkt"),
            &bv("k"),
            &uid,
            &vec![(2, e2.clone()), (3, e2small.clone())]
        )
        .unwrap_err(),
        S3ErrorCode::EntityTooSmall
    );
    // a valid completion
    let ce = sys
        .complete_multipart_upload(&bv("bkt"), &bv("k"), &uid, &vec![(1, e1), (2, e2)])
        .unwrap();
    assert!(ce.ends_with(b"-2"));
    // the upload is gone afterwards
    assert_eq!(
        sys.list_parts(&bv("bkt"), &uid).unwrap_err(),
        S3ErrorCode::NoSuchUpload
    );
}

#[test]
fn upload_part_replaces_and_validates() {
    let mut sys = System::new();
    sys.create_bucket(&bv("bkt")).unwrap();
    let uid = sys.create_multipart_upload(&bv("bkt"), &bv("k")).unwrap();
    assert_eq!(
        sys.upload_part(&bv("bkt"), &uid, 0, bv("x")).unwrap_err(),
        S3ErrorCode::InvalidArgument
    );
    assert_eq!(
        sys.upload_part(&bv("bkt"), &uid, 10001, bv("x")).unwrap_err(),
        S3ErrorCode::InvalidArgument
    );
    assert_eq!(
        sys.upload_part(&bv("bkt"), &bv("no-such-id"), 1, bv("x"))
            .unwrap_err(),
        S3ErrorCode::NoSuchUpload
    );
    let ea = sys.upload_part(&bv("bkt"), &uid, 1, bv("first")).unwrap();
    let eb = sys.upload_part(&bv("bkt"), &uid, 1, bv("second")).unwrap();
    assert_ne!(ea, eb);
    let parts = sys.list_parts(&bv("bkt"), &uid).unwrap();
    assert_eq!(parts.len(), 1);
    assert_eq!(parts[0].0, 1);
    assert_eq!(parts[0].1, "second".len());
    assert_eq!(parts[0].2, eb);
}

#[test]
fn upload_ids_are_distinct() {
    let mut sys = System::new();
    sys.create_bucket(&bv("bkt")).unwrap();
    let u1 = sys.create_multipart_upload(&bv("bkt"), &bv("k")).unwrap();
    let u2 = sys.create_multipart_upload(&bv("bkt"), &bv("k")).unwrap();
    assert_ne!(u1, u2);
    let ups = sys.list_multipart_uploads(&bv("bkt")).unwrap();
    assert_eq!(ups.len(), 2);
    assert_eq!(ups[0].0, bv("k"));
    assert_eq!(ups[0].1, u1);
    assert_eq!(ups[1].1, u2);
}

#[test]
fn paths_layout() {
    let root = bv("/data");
    assert_eq!(bucket_dir(&root, &bv("bkt")), bv("/data/bkt"));
    assert_eq!(
        object_blob_path(&root, &bv("bkt"), &bv("a/b.txt")),
        bv("/data/bkt/a/b.txt")
    );
    assert_eq!(
        object_meta_path(&root, &bv("bkt"), &bv("a/b.txt")),
        bv("/data/bkt/a/b.txt.s3s-meta")
    );
    assert_eq!(
        upload_dir(&root, &bv("bkt"), &bv("17")),
        bv("/data/bkt/.s3s/uploads/17")
    );
    assert_eq!(
        part_path(&root, &bv("bkt"), &bv("17"), 40),
        bv("/data/bkt/.s3s/uploads/17/40")
    );
}
