//! Content hashing and ETag formation.
//!
//! An object written in one piece gets the hex MD5 of its body as its ETag;
//! an object assembled from parts gets the hex MD5 of the concatenation of
//! the parts' raw MD5 digests, followed by `-N` where `N` is the part count.

use vstd::prelude::*;
use crate::bytes::dec_of;

verus! {

/// The MD5 digest of a byte sequence. The digest is computed by an outside
/// crate; the engine only ever names it.
pub uninterp spec fn md5_of(data: Seq<u8>) -> Seq<u8>;

/// Relies on `md5::Md5` of the md-5 crate: the digest depends on the input
/// bytes alone and is always 16 bytes long.
#[verifier::external_body]
pub(crate) fn md5_digest(data: &Vec<u8>) -> (r: Vec<u8>)
    ensures
        r@ == md5_of(data@),
        r@.len() == 16,
{
    let mut h = <md5::Md5 as md5::Digest>::new();
    md5::Digest::update(&mut h, data.as_slice());
    md5::Digest::finalize(h).to_vec()
}

/// The ASCII code of the lowercase hex digit for `n`.
pub open spec fn hex_digit(n: u8) -> u8 {
    if n < 10 {
        (48 + n) as u8
    } else {
        (87 + n) as u8
    }
}

/// Lowercase hex encoding: two digits for each byte, in order.
pub open spec fn hex_of(b: Seq<u8>) -> Seq<u8>
    decreases b.len(),
{
    if b.len() == 0 {
        Seq::<u8>::empty()
    } else {
        hex_of(b.drop_last()) + seq![
            hex_digit(b.last() / 16),
            hex_digit(b.last() % 16),
        ]
    }
}

/// Encodes bytes as a lowercase hex string.
pub fn to_hex(b: &Vec<u8>) -> (r: Vec<u8>)
    ensures
        r@ == hex_of(b@),
{
    let mut r: Vec<u8> = Vec::new();
    let mut i: usize = 0;
    while i < b.len()
        invariant
            i <= b@.len(),
            r@ == hex_of(b@.take(i as int)),
        decreases b@.len() - i,
    {
        let x = b[i];
        let hi = x / 16;
        let lo = x % 16;
        r.push(if hi < 10 { 48 + hi } else { 87 + hi });
        r.push(if lo < 10 { 48 + lo } else { 87 + lo });
        i += 1;
        proof {
            assert(b@.take(i as int).drop_last() =~= b@.take(i - 1));
            assert(b@.take(i as int).last() == b@[i - 1]);
            assert(r@ =~= hex_of(b@.take(i as int)));
        }
    }
    proof {
        assert(b@.take(b@.len() as int) =~= b@);
    }
    r
}

/// The ETag of an object written in one piece: hex MD5 of the body.
pub open spec fn etag_of_body(b: Seq<u8>) -> Seq<u8> {
    hex_of(md5_of(b))
}

/// Computes the single-piece ETag of a body.
pub fn body_etag(body: &Vec<u8>) -> (r: Vec<u8>)
    ensures
        r@ == etag_of_body(body@),
{
    let d = md5_digest(body);
    to_hex(&d)
}

/// The concatenation of the raw MD5 digests of each part body, in order.
pub open spec fn concat_md5s(bodies: Seq<Seq<u8>>) -> Seq<u8>
    decreases bodies.len(),
{
    if bodies.len() == 0 {
        Seq::<u8>::empty()
    } else {
        concat_md5s(bodies.drop_last()) + md5_of(bodies.last())
    }
}

/// The composite ETag of a multipart object:
/// `hex(md5(concat(md5(part_i)))) + "-" + N`.
pub open spec fn composite_etag(bodies: Seq<Seq<u8>>) -> Seq<u8> {
    hex_of(md5_of(concat_md5s(bodies))) + seq![45u8] + dec_of(bodies.len())
}

} // verus!
