use s3s_fs::System;
use s3s_fs::S3ErrorCode;
use s3s_fs::names::{check_bucket_name, check_key};
use md5::Digest;

fn bv(s: &str) -> Vec<u8> {
    s.as_bytes().to_vec()
}

#[test]
fn bucket_name_rules() {
    assert!(check_bucket_name(&bv("abc")));
    assert!(check_bucket_name(&bv("my-bucket-01")));
    assert!(check_bucket_name(&bv("my.bucket")));
    assert!(!check_bucket_name(&bv("ab")));
    assert!(!check_bucket_name(&bv("Abc")));
    assert!(!check_bucket_name(&bv("a_b")));
    assert!(!check_bucket_name(&bv("a..b")));
    assert!(!check_bucket_name(&bv("a--b")));
    assert!(!check_bucket_name(&bv("a.-b")));
    assert!(!check_bucket_name(&bv("-abc")));
    assert!(!check_bucket_name(&bv("abc-")));
    assert!(!check_bucket_name(&bv("192.168.0.1")));
    assert!(check_bucket_name(&bv("192.168.0.1x")));
    let long = "a".repeat(64);
    assert!(!check_bucket_name(&long.into_bytes()));
}

#[test]
fn key_rules() {
    assert!(check_key(&bv("a")));
    assert!(check_key(&bv("a/b/c.txt")));
    assert!(check_key(&bv("dots..inside")));
    assert!(!check_key(&bv("")));
    assert!(!check_key(&bv("/absolute")));
    assert!(!check_key(&bv("a/../b")));
    assert!(!check_key(&bv("..")));
    assert!(!check_key(&bv("../x")));
    assert!(!check_key(&bv("a/..")));
    assert!(!check_key(&bv(".s3s")));
    assert!(!check_key(&bv(".s3s/x")));
    assert!(check_key(&bv(".s3sx")));
    assert!(!check_key(&vec![b'a', 0u8, b'b']));
    let long = vec![b'k'; 1025];
    assert!(!check_key(&long));
    let max = vec![b'k'; 1024];
    assert!(check_key(&max));
}

#[test]
fn error_codes_surface_as_statuses() {
    assert_eq!(S3ErrorCode::InvalidBucketName.http_status(), 400);
    assert_eq!(S3ErrorCode::InvalidArgument.http_status(), 400);
    assert_eq!(S3ErrorCode::InvalidPart.http_status(), 400);
    assert_eq!(S3ErrorCode::InvalidPartOrder.http_status(), 400);
    assert_eq!(S3ErrorCode::EntityTooSmall.http_status(), 400);
    assert_eq!(S3ErrorCode::BadDigest.http_status(), 400);
    assert_eq!(S3ErrorCode::InvalidRange.http_status(), 416);
    assert_eq!(S3ErrorCode::NoSuchBucket.http_status(), 404);
    assert_eq!(S3ErrorCode::NoSuchKey.http_status(), 404);
    assert_eq!(S3ErrorCode::NoSuchUpload.http_status(), 404);
    assert_eq!(S3ErrorCode::BucketAlreadyExists.http_status(), 409);
    assert_eq!(S3ErrorCode::BucketAlreadyOwnedByYou.http_status(), 409);
    assert_eq!(S3ErrorCode::BucketNotEmpty.http_status(), 409);
    assert_eq!(S3ErrorCode::AccessDenied.http_status(), 403);
    assert_eq!(S3ErrorCode::SignatureDoesNotMatch.http_status(), 403);
    assert_eq!(S3ErrorCode::InternalError.http_status(), 500);
}

#[test]
fn engine_rejects_bad_names() {
    let mut sys = System::new();
    assert_eq!(
        sys.create_bucket(&bv("x")).unwrap_err(),
        S3ErrorCode::InvalidBucketName
    );
    sys.create_bucket(&bv("bkt")).unwrap();
    assert_eq!(
        sys.create_bucket(&bv("bkt")).unwrap_err(),
        S3ErrorCode::BucketAlreadyExists
    );
    assert_eq!(
        sys.put_object(&bv("nope"), &bv("k"), bv("v"), Vec::new(), None)
            .unwrap_err(),
        S3ErrorCode::NoSuchBucket
    );
    assert_eq!(
        sys.put_object(&bv("bkt"), &bv("a/../b"), bv("v"), Vec::new(), None)
            .unwrap_err(),
        S3ErrorCode::InvalidArgument
    );
    assert_eq!(
        sys.get_object(&bv("bkt"), &bv("missing"), None).unwrap_err(),
        S3ErrorCode::NoSuchKey
    );
    assert_eq!(
        sys.delete_bucket(&bv("nope")).unwrap_err(),
        S3ErrorCode::NoSuchBucket
    );
}

#[test]
fn content_md5_checked() {
    let mut sys = System::new();
    sys.create_bucket(&bv("bkt")).unwrap();
    let good: Vec<u8> = md5::Md5::digest(b"payload").to_vec();
    sys.put_object(&bv("bkt"), &bv("k"), bv("payload"), Vec::new(), Some(&good))
        .unwrap();
    let bad = vec![0u8; 16];
    assert_eq!(
        sys.put_object(&bv("bkt"), &bv("k"), bv("payload"), Vec::new(), Some(&bad))
            .unwrap_err(),
        S3ErrorCode::BadDigest
    );
}
