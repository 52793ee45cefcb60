//! The on-disk layout: where a bucket, an object blob, its sidecar, an
//! upload directory and a part file live under the root.
//!
//! Callers pass validated names only, so no path can escape the root or
//! collide with the reserved `.s3s` namespace.

use vstd::prelude::*;
use crate::bytes::{clone_bytes, append_bytes, u64_to_dec, dec_of};
use crate::names::{valid_bucket_name, valid_key};

verus! {

/// The reserved directory name `.s3s`.
pub open spec fn s3s_seg() -> Seq<u8> {
    seq![46u8, 115u8, 51u8, 115u8]
}

/// The sidecar suffix `.s3s-meta`.
pub open spec fn meta_suffix() -> Seq<u8> {
    seq![46u8, 115u8, 51u8, 115u8, 45u8, 109u8, 101u8, 116u8, 97u8]
}

/// The segment `uploads`.
pub open spec fn uploads_seg() -> Seq<u8> {
    seq![117u8, 112u8, 108u8, 111u8, 97u8, 100u8, 115u8]
}

/// `<root>/<bucket>`: the bucket's directory.
pub fn bucket_dir(root: &Vec<u8>, bucket: &Vec<u8>) -> (r: Vec<u8>)
    requires
        valid_bucket_name(bucket@),
    ensures
        r@ == root@ + seq![47u8] + bucket@,
{
    let mut r = clone_bytes(root);
    r.push(47);
    append_bytes(&mut r, bucket);
    proof {
        assert(r@ =~= root@ + seq![47u8] + bucket@);
    }
    r
}

/// `<root>/<bucket>/<key>`: the object's blob.
pub fn object_blob_path(root: &Vec<u8>, bucket: &Vec<u8>, key: &Vec<u8>) -> (r: Vec<u8>)
    requires
        valid_bucket_name(bucket@),
        valid_key(key@),
    ensures
        r@ == root@ + seq![47u8] + bucket@ + seq![47u8] + key@,
{
    let mut r = bucket_dir(root, bucket);
    r.push(47);
    append_bytes(&mut r, key);
    proof {
        assert(r@ =~= root@ + seq![47u8] + bucket@ + seq![47u8] + key@);
    }
    r
}

/// `<root>/<bucket>/<key>.s3s-meta`: the object's sidecar.
pub fn object_meta_path(root: &Vec<u8>, bucket: &Vec<u8>, key: &Vec<u8>) -> (r: Vec<u8>)
    requires
        valid_bucket_name(bucket@),
        valid_key(key@),
    ensures
        r@ == root@ + seq![47u8] + bucket@ + seq![47u8] + key@ + meta_suffix(),
{
    let mut r = object_blob_path(root, bucket, key);
    let mut suffix: Vec<u8> = Vec::new();
    suffix.push(46);
    suffix.push(115);
    suffix.push(51);
    suffix.push(115);
    suffix.push(45);
    suffix.push(109);
    suffix.push(101);
    suffix.push(116);
    suffix.push(97);
    proof {
        assert(suffix@ =~= meta_suffix());
    }
    append_bytes(&mut r, &suffix);
    r
}

/// `<root>/<bucket>/.s3s/uploads/<upload-id>`: an upload's directory.
pub fn upload_dir(root: &Vec<u8>, bucket: &Vec<u8>, upload_id: &Vec<u8>) -> (r: Vec<u8>)
    requires
        valid_bucket_name(bucket@),
    ensures
        r@ == root@ + seq![47u8] + bucket@ + seq![47u8] + s3s_seg() + seq![47u8] + uploads_seg()
            + seq![47u8] + upload_id@,
{
    let mut r = bucket_dir(root, bucket);
    r.push(47);
    r.push(46);
    r.push(115);
    r.push(51);
    r.push(115);
    r.push(47);
    r.push(117);
    r.push(112);
    r.push(108);
    r.push(111);
    r.push(97);
    r.push(100);
    r.push(115);
    r.push(47);
    append_bytes(&mut r, upload_id);
    proof {
        assert(r@ =~= root@ + seq![47u8] + bucket@ + seq![47u8] + s3s_seg() + seq![47u8]
            + uploads_seg() + seq![47u8] + upload_id@);
    }
    r
}

/// `<upload dir>/<part-number>`: one part's file.
pub fn part_path(root: &Vec<u8>, bucket: &Vec<u8>, upload_id: &Vec<u8>, part_number: u32) -> (r:
    Vec<u8>)
    requires
        valid_bucket_name(bucket@),
    ensures
        r@ == root@ + seq![47u8] + bucket@ + seq![47u8] + s3s_seg() + seq![47u8] + uploads_seg()
            + seq![47u8] + upload_id@ + seq![47u8] + dec_of(part_number as nat),
{
    let mut r = upload_dir(root, bucket, upload_id);
    r.push(47);
    let digits = u64_to_dec(part_number as u64);
    append_bytes(&mut r, &digits);
    proof {
        assert(r@ =~= root@ + seq![47u8] + bucket@ + seq![47u8] + s3s_seg() + seq![47u8]
            + uploads_seg() + seq![47u8] + upload_id@ + seq![47u8] + dec_of(part_number as nat));
    }
    r
}

} // verus!
