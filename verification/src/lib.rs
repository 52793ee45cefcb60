//! An S3-compatible object-storage engine.
//!
//! The engine keeps the full S3 data model — buckets, objects, multipart
//! uploads, ETags, listings — and every operation carries a contract that
//! pins its result down. Transport, authentication and persistence live
//! outside the library.

pub mod bytes;
pub mod digest;
pub mod engine;
pub mod errors;
pub mod listing;
pub mod names;
pub mod paths;
pub mod range;
pub mod token;

pub use engine::Bucket;
pub use engine::GetOutput;
pub use engine::HeadOutput;
pub use engine::ObjectRecord;
pub use engine::Part;
pub use engine::System;
pub use engine::Upload;
pub use listing::ListResult;
pub use errors::S3ErrorCode;
