//! S3 error codes surfaced by the engine, with their HTTP statuses.

use vstd::prelude::*;

verus! {

/// The S3 error codes the engine can return.
#[derive(PartialEq, Eq, Structural, Clone, Copy, Debug)]
pub enum S3ErrorCode {
    InvalidBucketName,
    InvalidArgument,
    InvalidPart,
    InvalidPartOrder,
    EntityTooSmall,
    InvalidRange,
    BadDigest,
    NoSuchBucket,
    NoSuchKey,
    NoSuchUpload,
    BucketAlreadyOwnedByYou,
    BucketAlreadyExists,
    BucketNotEmpty,
    SignatureDoesNotMatch,
    AccessDenied,
    InternalError,
}

impl S3ErrorCode {
    /// The HTTP status this error code is surfaced with.
    pub fn http_status(&self) -> (r: u16)
        ensures
            r == self.http_status_spec(),
    {
        match self {
            S3ErrorCode::InvalidBucketName => 400,
            S3ErrorCode::InvalidArgument => 400,
            S3ErrorCode::InvalidPart => 400,
            S3ErrorCode::InvalidPartOrder => 400,
            S3ErrorCode::EntityTooSmall => 400,
            S3ErrorCode::InvalidRange => 416,
            S3ErrorCode::BadDigest => 400,
            S3ErrorCode::NoSuchBucket => 404,
            S3ErrorCode::NoSuchKey => 404,
            S3ErrorCode::NoSuchUpload => 404,
            S3ErrorCode::BucketAlreadyOwnedByYou => 409,
            S3ErrorCode::BucketAlreadyExists => 409,
            S3ErrorCode::BucketNotEmpty => 409,
            S3ErrorCode::SignatureDoesNotMatch => 403,
            S3ErrorCode::AccessDenied => 403,
            S3ErrorCode::InternalError => 500,
        }
    }

    pub open spec fn http_status_spec(self) -> u16 {
        match self {
            S3ErrorCode::InvalidBucketName => 400,
            S3ErrorCode::InvalidArgument => 400,
            S3ErrorCode::InvalidPart => 400,
            S3ErrorCode::InvalidPartOrder => 400,
            S3ErrorCode::EntityTooSmall => 400,
            S3ErrorCode::InvalidRange => 416,
            S3ErrorCode::BadDigest => 400,
            S3ErrorCode::NoSuchBucket => 404,
            S3ErrorCode::NoSuchKey => 404,
            S3ErrorCode::NoSuchUpload => 404,
            S3ErrorCode::BucketAlreadyOwnedByYou => 409,
            S3ErrorCode::BucketAlreadyExists => 409,
            S3ErrorCode::BucketNotEmpty => 409,
            S3ErrorCode::SignatureDoesNotMatch => 403,
            S3ErrorCode::AccessDenied => 403,
            S3ErrorCode::InternalError => 500,
        }
    }
}

} // verus!
