//! The storage engine: buckets, objects and multipart uploads, with the
//! S3 operations over them.
//!
//! The engine is the reference model of the store. Objects of a bucket are
//! kept strictly sorted by byte-lexicographic key order, so listings come
//! out ordered by construction; multipart uploads keep their parts strictly
//! sorted by part number.

use vstd::prelude::*;
use crate::bytes::{
    lex_lt, lemma_lex_irrefl, lemma_lex_trans, lex_cmp, bytes_eq, clone_bytes, ByteOrd, dec_of,
    u64_to_dec, digits_val, all_digits, lemma_dec_of_value, append_bytes,
};
use crate::digest::{md5_of, md5_digest, etag_of_body, body_etag, to_hex, concat_md5s, composite_etag, hex_of};
use crate::errors::S3ErrorCode;
use crate::names::{valid_bucket_name, valid_key, check_bucket_name, check_key};
use crate::range::{RangeReq, range_satisfiable, range_start, range_end, range_bounds};

verus! {

/// What a successful read returns: the selected bytes, the object's ETag,
/// and the HTTP status (200 for a whole object, 206 for a range).
#[derive(Debug)]
pub struct GetOutput {
    pub body: Vec<u8>,
    pub etag: Vec<u8>,
    pub status: u16,
}

/// What a successful head returns: the object's size and ETag.
#[derive(Debug)]
pub struct HeadOutput {
    pub size: usize,
    pub etag: Vec<u8>,
}

/// One stored object: its key, its body, its ETag, its user metadata,
/// its tagging set and its canned-ACL summary.
pub struct ObjectRecord {
    pub key: Vec<u8>,
    pub body: Vec<u8>,
    pub etag: Vec<u8>,
    pub meta: Vec<(Vec<u8>, Vec<u8>)>,
    pub tags: Vec<(Vec<u8>, Vec<u8>)>,
    pub acl: Vec<u8>,
}

/// One uploaded part of a multipart upload.
pub struct Part {
    pub part_number: u32,
    pub body: Vec<u8>,
    pub etag: Vec<u8>,
}

/// One in-progress multipart upload.
pub struct Upload {
    pub upload_id: Vec<u8>,
    pub key: Vec<u8>,
    pub parts: Vec<Part>,
}

/// One bucket: its name, its objects sorted by key, and its in-progress
/// uploads.
pub struct Bucket {
    pub name: Vec<u8>,
    pub objects: Vec<ObjectRecord>,
    pub uploads: Vec<Upload>,
}

/// The whole store.
pub struct System {
    pub buckets: Vec<Bucket>,
    pub upload_counter: u64,
}

impl Upload {
    pub open spec fn wf(self) -> bool {
        &&& valid_key(self.key@)
        &&& forall|i: int, j: int|
            0 <= i < j < self.parts@.len()
                ==> #[trigger] self.parts@[i].part_number < #[trigger] self.parts@[j].part_number
        &&& forall|i: int| 0 <= i < self.parts@.len()
            ==> 1 <= (#[trigger] self.parts@[i]).part_number <= 10000
        &&& forall|i: int| 0 <= i < self.parts@.len()
            ==> (#[trigger] self.parts@[i]).etag@ == etag_of_body(self.parts@[i].body@)
    }

    /// A part of this number has been uploaded.
    pub open spec fn has_part(self, n: u32) -> bool {
        exists|i: int| 0 <= i < self.parts@.len() && (#[trigger] self.parts@[i]).part_number == n
    }

    /// The index of the part with this number.
    pub open spec fn part_idx(self, n: u32) -> int {
        choose|i: int| 0 <= i < self.parts@.len() && (#[trigger] self.parts@[i]).part_number == n
    }

    /// The part stored under this number.
    pub open spec fn part(self, n: u32) -> Part {
        self.parts@[self.part_idx(n)]
    }

    /// In a sorted upload an index holding a given part number is unique.
    pub proof fn lemma_part_idx_unique(self, i: int, j: int)
        requires
            self.wf(),
            0 <= i < self.parts@.len(),
            0 <= j < self.parts@.len(),
            self.parts@[i].part_number == self.parts@[j].part_number,
        ensures
            i == j,
    {
    }

    /// Finds where a part number stands, or would stand, in the sorted
    /// parts.
    fn find_part_pos(&self, n: u32) -> (r: (usize, bool))
        requires
            self.wf(),
        ensures
            r.0 <= self.parts@.len(),
            forall|j: int| 0 <= j < r.0 ==> (#[trigger] self.parts@[j]).part_number < n,
            r.1 ==> r.0 < self.parts@.len() && self.parts@[r.0 as int].part_number == n,
            !r.1 ==> (r.0 == self.parts@.len() || self.parts@[r.0 as int].part_number > n),
    {
        let mut pos: usize = 0;
        while pos < self.parts.len()
            invariant
                self.wf(),
                pos <= self.parts@.len(),
                forall|j: int| 0 <= j < pos ==> (#[trigger] self.parts@[j]).part_number < n,
            decreases self.parts@.len() - pos,
        {
            let pn = self.parts[pos].part_number;
            if pn < n {
                pos += 1;
            } else if pn == n {
                return (pos, true);
            } else {
                return (pos, false);
            }
        }
        (pos, false)
    }

    /// Stores a part under its number, replacing any part already there
    /// and keeping the parts sorted. Nothing else in the upload changes.
    fn put_part(&mut self, p: Part)
        requires
            old(self).wf(),
            1 <= p.part_number <= 10000,
            p.etag@ == etag_of_body(p.body@),
        ensures
            final(self).wf(),
            final(self).upload_id@ == old(self).upload_id@,
            final(self).key@ == old(self).key@,
            final(self).has_part(p.part_number),
            final(self).part(p.part_number) == p,
            forall|n: u32| n != p.part_number
                ==> final(self).has_part(n) == old(self).has_part(n),
            forall|n: u32| n != p.part_number && old(self).has_part(n)
                ==> final(self).part(n) == old(self).part(n),
    {
        let ghost pre = *old(self);
        let pf = self.find_part_pos(p.part_number);
        let pos = pf.0;
        let ghost n = p.part_number;
        if pf.1 {
            self.parts.remove(pos);
            self.parts.insert(pos, p);
            proof {
                assert(self.parts@ =~= pre.parts@.update(pos as int, p));
                assert(self.wf());
                assert(self.parts@[pos as int] == p);
                assert(self.has_part(n));
                self.lemma_part_idx_unique(self.part_idx(n), pos as int);
                assert forall|m: u32| m != n implies self.has_part(m) == pre.has_part(m) by {
                    if pre.has_part(m) {
                        let i = pre.part_idx(m);
                        assert(self.parts@[i].part_number == m);
                    }
                    if self.has_part(m) {
                        let i = self.part_idx(m);
                        assert(pre.parts@[i].part_number == m);
                    }
                }
                assert forall|m: u32| m != n && pre.has_part(m) implies self.part(m) == pre.part(
                    m,
                ) by {
                    let i = pre.part_idx(m);
                    assert(self.parts@[i].part_number == m);
                    self.lemma_part_idx_unique(self.part_idx(m), i);
                }
            }
            return ;
        }
        self.parts.insert(pos, p);
        proof {
            let post = self.parts@;
            assert(forall|j: int| 0 <= j < pos ==> post[j] == pre.parts@[j]);
            assert(post[pos as int] == p);
            assert(forall|j: int| pos < j < post.len() ==> post[j] == pre.parts@[j - 1]);
            assert(self.wf());
            assert(self.has_part(n));
            self.lemma_part_idx_unique(self.part_idx(n), pos as int);
            assert forall|m: u32| m != n implies self.has_part(m) == pre.has_part(m) by {
                if pre.has_part(m) {
                    let i = pre.part_idx(m);
                    if i < pos {
                        assert(post[i].part_number == m);
                    } else {
                        assert(post[i + 1].part_number == m);
                    }
                }
                if self.has_part(m) {
                    let i = self.part_idx(m);
                    if i < pos {
                        assert(pre.parts@[i].part_number == m);
                    } else {
                        assert(pre.parts@[i - 1].part_number == m);
                    }
                }
            }
            assert forall|m: u32| m != n && pre.has_part(m) implies self.part(m) == pre.part(
                m,
            ) by {
                let i = pre.part_idx(m);
                if i < pos {
                    assert(post[i].part_number == m);
                    self.lemma_part_idx_unique(self.part_idx(m), i);
                } else {
                    assert(post[i + 1].part_number == m);
                    self.lemma_part_idx_unique(self.part_idx(m), i + 1);
                }
            }
        }
    }

    /// Finds the index of the part with this number.
    fn find_part(&self, n: u32) -> (r: Option<usize>)
        requires
            self.wf(),
        ensures
            match r {
                Some(i) => i < self.parts@.len() && self.parts@[i as int].part_number == n
                    && self.has_part(n) && self.part_idx(n) == i as int,
                None => !self.has_part(n),
            },
    {
        let pf = self.find_part_pos(n);
        if pf.1 {
            proof {
                assert(self.has_part(n));
                self.lemma_part_idx_unique(self.part_idx(n), pf.0 as int);
            }
            Some(pf.0)
        } else {
            proof {
                if self.has_part(n) {
                    let i = self.part_idx(n);
                    assert(self.parts@[i].part_number == n);
                }
            }
            None
        }
    }
}

impl Bucket {
    pub open spec fn wf(self) -> bool {
        &&& valid_bucket_name(self.name@)
        &&& forall|i: int, j: int|
            0 <= i < j < self.objects@.len()
                ==> lex_lt((#[trigger] self.objects@[i]).key@, (#[trigger] self.objects@[j]).key@)
        &&& forall|i: int| 0 <= i < self.objects@.len()
            ==> valid_key((#[trigger] self.objects@[i]).key@)
        &&& forall|i: int, j: int|
            0 <= i < j < self.uploads@.len()
                ==> (#[trigger] self.uploads@[i]).upload_id@ != (#[trigger] self.uploads@[j]).upload_id@
        &&& forall|i: int| 0 <= i < self.uploads@.len() ==> (#[trigger] self.uploads@[i]).wf()
    }

    /// A key is present in the bucket.
    pub open spec fn has_key(self, key: Seq<u8>) -> bool {
        exists|i: int| 0 <= i < self.objects@.len() && (#[trigger] self.objects@[i]).key@ == key
    }

    /// The index of the object with this key.
    pub open spec fn key_idx(self, key: Seq<u8>) -> int {
        choose|i: int| 0 <= i < self.objects@.len() && (#[trigger] self.objects@[i]).key@ == key
    }

    /// The record stored under this key.
    pub open spec fn obj(self, key: Seq<u8>) -> ObjectRecord {
        self.objects@[self.key_idx(key)]
    }

    /// An upload id is present in the bucket.
    pub open spec fn has_upload(self, id: Seq<u8>) -> bool {
        exists|i: int| 0 <= i < self.uploads@.len() && (#[trigger] self.uploads@[i]).upload_id@ == id
    }

    /// The index of the upload with this id.
    pub open spec fn upload_idx(self, id: Seq<u8>) -> int {
        choose|i: int| 0 <= i < self.uploads@.len() && (#[trigger] self.uploads@[i]).upload_id@ == id
    }

    /// The upload stored under this id.
    pub open spec fn upload(self, id: Seq<u8>) -> Upload {
        self.uploads@[self.upload_idx(id)]
    }

    /// Finds the index of the object stored under this key.
    fn find_key(&self, key: &Vec<u8>) -> (r: Option<usize>)
        requires
            self.wf(),
        ensures
            match r {
                Some(i) => i < self.objects@.len() && self.objects@[i as int].key@ == key@
                    && self.has_key(key@) && self.key_idx(key@) == i as int,
                None => !self.has_key(key@),
            },
    {
        let mut i: usize = 0;
        while i < self.objects.len()
            invariant
                self.wf(),
                i <= self.objects@.len(),
                forall|j: int| 0 <= j < i ==> (#[trigger] self.objects@[j]).key@ != key@,
            decreases self.objects@.len() - i,
        {
            if bytes_eq(&self.objects[i].key, key) {
                proof {
                    assert(self.has_key(key@));
                    let k = self.key_idx(key@);
                    assert(self.objects@[k].key@ == key@);
                    self.lemma_key_idx_unique(k, i as int);
                }
                return Some(i);
            }
            i += 1;
        }
        None
    }

    /// Finds the index of the upload stored under this id.
    fn find_upload(&self, id: &Vec<u8>) -> (r: Option<usize>)
        requires
            self.wf(),
        ensures
            match r {
                Some(i) => i < self.uploads@.len() && self.uploads@[i as int].upload_id@ == id@
                    && self.has_upload(id@) && self.upload_idx(id@) == i as int,
                None => !self.has_upload(id@),
            },
    {
        let mut i: usize = 0;
        while i < self.uploads.len()
            invariant
                self.wf(),
                i <= self.uploads@.len(),
                forall|j: int| 0 <= j < i ==> (#[trigger] self.uploads@[j]).upload_id@ != id@,
            decreases self.uploads@.len() - i,
        {
            if bytes_eq(&self.uploads[i].upload_id, id) {
                proof {
                    assert(self.has_upload(id@));
                    let k = self.upload_idx(id@);
                    assert(self.uploads@[k].upload_id@ == id@);
                    if k != i as int {
                        assert(self.uploads@[k].upload_id@ != self.uploads@[i as int].upload_id@);
                    }
                }
                return Some(i);
            }
            i += 1;
        }
        None
    }

    /// Finds where a key stands, or would stand, in the sorted objects:
    /// the index of the first object not below the key, and whether the
    /// object there holds exactly this key.
    fn find_pos(&self, key: &Vec<u8>) -> (r: (usize, bool))
        requires
            self.wf(),
        ensures
            r.0 <= self.objects@.len(),
            forall|j: int| 0 <= j < r.0 ==> lex_lt((#[trigger] self.objects@[j]).key@, key@),
            r.1 ==> r.0 < self.objects@.len() && self.objects@[r.0 as int].key@ == key@,
            !r.1 ==> (r.0 == self.objects@.len() || lex_lt(key@, self.objects@[r.0 as int].key@)),
    {
        let mut pos: usize = 0;
        while pos < self.objects.len()
            invariant
                self.wf(),
                pos <= self.objects@.len(),
                forall|j: int| 0 <= j < pos ==> lex_lt((#[trigger] self.objects@[j]).key@, key@),
            decreases self.objects@.len() - pos,
        {
            let c = lex_cmp(&self.objects[pos].key, key);
            match c {
                ByteOrd::Lt => {
                    pos += 1;
                },
                ByteOrd::Eq => {
                    return (pos, true);
                },
                ByteOrd::Gt => {
                    return (pos, false);
                },
            }
        }
        (pos, false)
    }

    /// Stores a record under its key, replacing any record already there
    /// and keeping the objects sorted. Nothing else in the bucket changes.
    fn put_rec(&mut self, rec: ObjectRecord)
        requires
            old(self).wf(),
            valid_key(rec.key@),
        ensures
            final(self).wf(),
            final(self).name@ == old(self).name@,
            final(self).uploads@ == old(self).uploads@,
            final(self).has_key(rec.key@),
            final(self).obj(rec.key@) == rec,
            forall|k: Seq<u8>| k != rec.key@ ==> final(self).has_key(k) == old(self).has_key(k),
            forall|k: Seq<u8>| k != rec.key@ && old(self).has_key(k)
                ==> final(self).obj(k) == old(self).obj(k),
            old(self).has_key(rec.key@) ==> final(self).objects@ == old(self).objects@.update(
                old(self).key_idx(rec.key@),
                rec,
            ),
            !old(self).has_key(rec.key@) ==> final(self).objects@.len() == old(
                self,
            ).objects@.len() + 1,
    {
        let ghost pre = *old(self);
        let pf = self.find_pos(&rec.key);
        let pos = pf.0;
        if pf.1 {
            // replace in place
            proof {
                let ghost w: int = pos as int;
                assert(0 <= w < self.objects@.len() && self.objects@[w].key@ == rec.key@);
                assert(self.has_key(rec.key@));
                self.lemma_key_idx_unique(self.key_idx(rec.key@), pos as int);
            }
            self.objects.remove(pos);
            self.objects.insert(pos, rec);
            proof {
                assert(self.objects@ =~= pre.objects@.update(pos as int, rec));
                assert(self.wf());
                assert(self.objects@[pos as int] == rec);
                assert(self.objects@[pos as int].key@ == rec.key@);
                assert(self.has_key(rec.key@));
                self.lemma_key_idx_unique(self.key_idx(rec.key@), pos as int);
                assert forall|k: Seq<u8>| k != rec.key@ implies self.has_key(k) == pre.has_key(
                    k,
                ) by {
                    if pre.has_key(k) {
                        let i = pre.key_idx(k);
                        assert(self.objects@[i].key@ == k);
                    }
                    if self.has_key(k) {
                        let i = self.key_idx(k);
                        assert(pre.objects@[i].key@ == k);
                    }
                }
                assert forall|k: Seq<u8>| k != rec.key@ && pre.has_key(k) implies self.obj(k)
                    == pre.obj(k) by {
                    let i = pre.key_idx(k);
                    assert(self.objects@[i].key@ == k);
                    self.lemma_key_idx_unique(self.key_idx(k), i);
                }
            }
            return ;
        }
        // insert at pos: everything before is below the key, everything at
        // or after is above it
        proof {
            assert forall|j: int| pos <= j < self.objects@.len() implies lex_lt(
                rec.key@,
                (#[trigger] self.objects@[j]).key@,
            ) by {
                if j > pos {
                    lemma_lex_trans(
                        rec.key@,
                        self.objects@[pos as int].key@,
                        self.objects@[j].key@,
                    );
                }
            }
        }
        self.objects.insert(pos, rec);
        proof {
            let post = self.objects@;
            assert(post.len() == pre.objects@.len() + 1);
            assert(forall|j: int| 0 <= j < pos ==> post[j] == pre.objects@[j]);
            assert(post[pos as int] == rec);
            assert(forall|j: int| pos < j < post.len() ==> post[j] == pre.objects@[j - 1]);
            assert forall|i: int, j: int| 0 <= i < j < post.len() implies lex_lt(
                (#[trigger] post[i]).key@,
                (#[trigger] post[j]).key@,
            ) by {
            }
            assert(self.wf());
            assert(self.has_key(rec.key@));
            self.lemma_key_idx_unique(self.key_idx(rec.key@), pos as int);
            if pre.has_key(rec.key@) {
                let i = pre.key_idx(rec.key@);
                if i < pos {
                    lemma_lex_irrefl(rec.key@);
                } else {
                    assert(lex_lt(rec.key@, pre.objects@[i].key@));
                    lemma_lex_irrefl(rec.key@);
                }
            }
            assert forall|k: Seq<u8>| k != rec.key@ implies self.has_key(k) == pre.has_key(k) by {
                if pre.has_key(k) {
                    let i = pre.key_idx(k);
                    if i < pos {
                        assert(post[i].key@ == k);
                    } else {
                        assert(post[i + 1].key@ == k);
                    }
                }
                if self.has_key(k) {
                    let i = self.key_idx(k);
                    if i < pos {
                        assert(pre.objects@[i].key@ == k);
                    } else {
                        assert(pre.objects@[i - 1].key@ == k);
                    }
                }
            }
            assert forall|k: Seq<u8>| k != rec.key@ && pre.has_key(k) implies self.obj(k)
                == pre.obj(k) by {
                let i = pre.key_idx(k);
                if i < pos {
                    assert(post[i].key@ == k);
                    self.lemma_key_idx_unique(self.key_idx(k), i);
                } else {
                    assert(post[i + 1].key@ == k);
                    self.lemma_key_idx_unique(self.key_idx(k), i + 1);
                }
            }
        }
    }

    /// Removes the record stored under a key, if any. Nothing else in the
    /// bucket changes.
    fn delete_rec(&mut self, key: &Vec<u8>)
        requires
            old(self).wf(),
        ensures
            final(self).wf(),
            final(self).name@ == old(self).name@,
            final(self).uploads@ == old(self).uploads@,
            !final(self).has_key(key@),
            forall|k: Seq<u8>| k != key@ ==> final(self).has_key(k) == old(self).has_key(k),
            forall|k: Seq<u8>| k != key@ && old(self).has_key(k)
                ==> final(self).obj(k) == old(self).obj(k),
            old(self).has_key(key@) ==> final(self).objects@ == old(self).objects@.remove(
                old(self).key_idx(key@),
            ),
            !old(self).has_key(key@) ==> final(self).objects@ == old(self).objects@,
    {
        let ghost pre = *old(self);
        let idx = match self.find_key(key) {
            None => {
                return ;
            },
            Some(i) => i,
        };
        self.objects.remove(idx);
        proof {
            let post = self.objects@;
            assert(forall|j: int| 0 <= j < idx ==> post[j] == pre.objects@[j]);
            assert(forall|j: int| idx <= j < post.len() ==> post[j] == pre.objects@[j + 1]);
            assert(self.wf());
            if self.has_key(key@) {
                let i = self.key_idx(key@);
                assert(post[i].key@ == key@);
                if i < idx as int {
                    pre.lemma_key_idx_unique(i, idx as int);
                } else {
                    pre.lemma_key_idx_unique(i + 1, idx as int);
                }
            }
            assert forall|k: Seq<u8>| k != key@ implies self.has_key(k) == pre.has_key(k) by {
                if pre.has_key(k) {
                    let i = pre.key_idx(k);
                    if i < idx as int {
                        assert(post[i].key@ == k);
                    } else {
                        assert(i != idx as int);
                        assert(post[i - 1].key@ == k);
                    }
                }
                if self.has_key(k) {
                    let i = self.key_idx(k);
                    if i < idx as int {
                        assert(pre.objects@[i].key@ == k);
                    } else {
                        assert(pre.objects@[i + 1].key@ == k);
                    }
                }
            }
            assert forall|k: Seq<u8>| k != key@ && pre.has_key(k) implies self.obj(k) == pre.obj(
                k,
            ) by {
                let i = pre.key_idx(k);
                if i < idx as int {
                    assert(post[i].key@ == k);
                    self.lemma_key_idx_unique(self.key_idx(k), i);
                } else {
                    assert(i != idx as int);
                    assert(post[i - 1].key@ == k);
                    self.lemma_key_idx_unique(self.key_idx(k), i - 1);
                }
            }
        }
    }

    /// Replaces the tagging set, or the ACL, of the record stored under a
    /// key; everything else about the record and the bucket stays as it
    /// was. Returns whether the key was present.
    fn set_tags_acl(
        &mut self,
        key: &Vec<u8>,
        tags: Option<Vec<(Vec<u8>, Vec<u8>)>>,
        acl: Option<Vec<u8>>,
    ) -> (r: bool)
        requires
            old(self).wf(),
        ensures
            final(self).wf(),
            r == old(self).has_key(key@),
            final(self).name@ == old(self).name@,
            final(self).uploads@ == old(self).uploads@,
            !r ==> *final(self) == *old(self),
            r ==> {
                let pre = old(self).obj(key@);
                let post = final(self).obj(key@);
                &&& final(self).has_key(key@)
                &&& post.key == pre.key
                &&& post.body == pre.body
                &&& post.etag == pre.etag
                &&& post.meta == pre.meta
                &&& post.tags == match tags {
                    Some(t) => t,
                    None => pre.tags,
                }
                &&& post.acl == match acl {
                    Some(a2) => a2,
                    None => pre.acl,
                }
                &&& forall|k: Seq<u8>| k != key@ ==> final(self).has_key(k) == old(self).has_key(k)
                &&& forall|k: Seq<u8>| k != key@ && old(self).has_key(k)
                    ==> final(self).obj(k) == old(self).obj(k)
            },
    {
        let ghost pre = *old(self);
        let oi = match self.find_key(key) {
            None => {
                return false;
            },
            Some(i) => i,
        };
        let old_rec = self.objects.remove(oi);
        let new_tags = match tags {
            Some(t) => t,
            None => old_rec.tags,
        };
        let new_acl = match acl {
            Some(a2) => a2,
            None => old_rec.acl,
        };
        let rec = ObjectRecord {
            key: old_rec.key,
            body: old_rec.body,
            etag: old_rec.etag,
            meta: old_rec.meta,
            tags: new_tags,
            acl: new_acl,
        };
        self.objects.insert(oi, rec);
        proof {
            assert(self.objects@ =~= pre.objects@.update(oi as int, rec));
            assert(rec.key@ == key@);
            assert(self.wf());
            assert(self.objects@[oi as int] == rec);
            assert(self.has_key(key@));
            self.lemma_key_idx_unique(self.key_idx(key@), oi as int);
            assert forall|k: Seq<u8>| k != key@ implies self.has_key(k) == pre.has_key(k) by {
                if pre.has_key(k) {
                    let i = pre.key_idx(k);
                    assert(self.objects@[i].key@ == k);
                }
                if self.has_key(k) {
                    let i = self.key_idx(k);
                    assert(pre.objects@[i].key@ == k);
                }
            }
            assert forall|k: Seq<u8>| k != key@ && pre.has_key(k) implies self.obj(k) == pre.obj(
                k,
            ) by {
                let i = pre.key_idx(k);
                assert(self.objects@[i].key@ == k);
                self.lemma_key_idx_unique(self.key_idx(k), i);
            }
        }
        true
    }

    /// In a sorted bucket an index holding a given key is unique.
    pub proof fn lemma_key_idx_unique(self, i: int, j: int)
        requires
            self.wf(),
            0 <= i < self.objects@.len(),
            0 <= j < self.objects@.len(),
            self.objects@[i].key@ == self.objects@[j].key@,
        ensures
            i == j,
    {
        if i < j {
            lemma_lex_irrefl(self.objects@[i].key@);
        }
        if j < i {
            lemma_lex_irrefl(self.objects@[i].key@);
        }
    }
}

impl System {
    /// Every upload id in the bucket is a decimal numeral below the
    /// store's counter, so a numeral of the counter itself is fresh.
    pub open spec fn uploads_fresh(b: Bucket, c: u64) -> bool {
        forall|j: int|
            0 <= j < b.uploads@.len() ==> all_digits(
                (#[trigger] b.uploads@[j]).upload_id@,
            ) && digits_val(b.uploads@[j].upload_id@) < c
    }

    pub open spec fn wf(self) -> bool {
        &&& forall|i: int, j: int|
            0 <= i < j < self.buckets@.len()
                ==> (#[trigger] self.buckets@[i]).name@ != (#[trigger] self.buckets@[j]).name@
        &&& forall|i: int| 0 <= i < self.buckets@.len() ==> (#[trigger] self.buckets@[i]).wf()
        &&& forall|i: int| 0 <= i < self.buckets@.len() ==> System::uploads_fresh(
            #[trigger] self.buckets@[i],
            self.upload_counter,
        )
    }

    /// A bucket of this name exists.
    pub open spec fn has_bucket(self, name: Seq<u8>) -> bool {
        exists|i: int| 0 <= i < self.buckets@.len() && (#[trigger] self.buckets@[i]).name@ == name
    }

    /// The index of the bucket of this name.
    pub open spec fn bucket_idx(self, name: Seq<u8>) -> int {
        choose|i: int| 0 <= i < self.buckets@.len() && (#[trigger] self.buckets@[i]).name@ == name
    }

    /// The bucket of this name.
    pub open spec fn bucket(self, name: Seq<u8>) -> Bucket {
        self.buckets@[self.bucket_idx(name)]
    }

    /// A fresh store: no buckets.
    pub fn new() -> (r: System)
        ensures
            r.wf(),
            r.buckets@.len() == 0,
    {
        System { buckets: Vec::new(), upload_counter: 0 }
    }

    /// Releases the store. The in-memory engine has nothing to flush, so
    /// this always succeeds.
    pub fn shutdown(&self) -> (r: Result<(), S3ErrorCode>)
        ensures
            r is Ok,
    {
        Ok(())
    }

    /// Finds the index of the bucket of this name.
    pub(crate) fn find_bucket(&self, name: &Vec<u8>) -> (r: Option<usize>)
        requires
            self.wf(),
        ensures
            match r {
                Some(i) => i < self.buckets@.len() && self.buckets@[i as int].name@ == name@
                    && self.has_bucket(name@) && self.bucket_idx(name@) == i as int,
                None => !self.has_bucket(name@),
            },
    {
        let mut i: usize = 0;
        while i < self.buckets.len()
            invariant
                self.wf(),
                i <= self.buckets@.len(),
                forall|j: int| 0 <= j < i ==> (#[trigger] self.buckets@[j]).name@ != name@,
            decreases self.buckets@.len() - i,
        {
            if bytes_eq(&self.buckets[i].name, name) {
                proof {
                    assert(self.has_bucket(name@));
                    let k = self.bucket_idx(name@);
                    assert(self.buckets@[k].name@ == name@);
                }
                return Some(i);
            }
            i += 1;
        }
        None
    }

    /// Creates a bucket.
    ///
    /// The name must satisfy the S3 bucket-naming rules and must not be
    /// taken; the new bucket starts empty. Nothing else changes.
    pub fn create_bucket(&mut self, name: &Vec<u8>) -> (r: Result<(), S3ErrorCode>)
        requires
            old(self).wf(),
        ensures
            final(self).wf(),
            r is Ok <==> (valid_bucket_name(name@) && !old(self).has_bucket(name@)),
            r == Err::<(), S3ErrorCode>(S3ErrorCode::InvalidBucketName) <==> !valid_bucket_name(
                name@,
            ),
            r == Err::<(), S3ErrorCode>(S3ErrorCode::BucketAlreadyExists) <==> (valid_bucket_name(
                name@,
            ) && old(self).has_bucket(name@)),
            r is Err ==> *final(self) == *old(self),
            r is Ok ==> {
                &&& final(self).buckets@.len() == old(self).buckets@.len() + 1
                &&& final(self).buckets@.drop_last() == old(self).buckets@
                &&& final(self).buckets@.last().name@ == name@
                &&& final(self).buckets@.last().objects@.len() == 0
                &&& final(self).buckets@.last().uploads@.len() == 0
            },
            final(self).upload_counter == old(self).upload_counter,
    {
        if !check_bucket_name(name) {
            return Err(S3ErrorCode::InvalidBucketName);
        }
        if self.find_bucket(name).is_some() {
            return Err(S3ErrorCode::BucketAlreadyExists);
        }
        let b = Bucket { name: clone_bytes(name), objects: Vec::new(), uploads: Vec::new() };
        self.buckets.push(b);
        proof {
            assert(self.buckets@.drop_last() =~= old(self).buckets@);
            assert(forall|i: int| 0 <= i < old(self).buckets@.len()
                ==> self.buckets@[i] == old(self).buckets@[i]);
        }
        Ok(())
    }

    /// Reports whether a bucket of this name exists.
    pub fn head_bucket(&self, name: &Vec<u8>) -> (r: bool)
        requires
            self.wf(),
        ensures
            r == self.has_bucket(name@),
    {
        self.find_bucket(name).is_some()
    }

    /// Lists the names of all buckets, in creation order.
    pub fn list_buckets(&self) -> (r: Vec<Vec<u8>>)
        requires
            self.wf(),
        ensures
            r@.len() == self.buckets@.len(),
            forall|i: int| 0 <= i < r@.len() ==> (#[trigger] r@[i])@ == self.buckets@[i].name@,
    {
        let mut r: Vec<Vec<u8>> = Vec::new();
        let mut i: usize = 0;
        while i < self.buckets.len()
            invariant
                self.wf(),
                i <= self.buckets@.len(),
                r@.len() == i,
                forall|j: int| 0 <= j < i ==> (#[trigger] r@[j])@ == self.buckets@[j].name@,
            decreases self.buckets@.len() - i,
        {
            r.push(clone_bytes(&self.buckets[i].name));
            i += 1;
        }
        r
    }

    /// Deletes a bucket.
    ///
    /// Deletion is refused while the bucket still holds any object or any
    /// in-progress multipart upload.
    pub fn delete_bucket(&mut self, name: &Vec<u8>) -> (r: Result<(), S3ErrorCode>)
        requires
            old(self).wf(),
        ensures
            final(self).wf(),
            r == Err::<(), S3ErrorCode>(S3ErrorCode::NoSuchBucket) <==> !old(self).has_bucket(
                name@,
            ),
            r == Err::<(), S3ErrorCode>(S3ErrorCode::BucketNotEmpty) <==> (old(self).has_bucket(
                name@,
            ) && (old(self).bucket(name@).objects@.len() > 0 || old(self).bucket(
                name@,
            ).uploads@.len() > 0)),
            r is Ok <==> (old(self).has_bucket(name@) && old(self).bucket(name@).objects@.len()
                == 0 && old(self).bucket(name@).uploads@.len() == 0),
            r is Err ==> *final(self) == *old(self),
            r is Ok ==> {
                &&& !final(self).has_bucket(name@)
                &&& final(self).buckets@ == old(self).buckets@.remove(old(self).bucket_idx(name@))
            },
            final(self).upload_counter == old(self).upload_counter,
    {
        let idx = match self.find_bucket(name) {
            None => return Err(S3ErrorCode::NoSuchBucket),
            Some(i) => i,
        };
        if self.buckets[idx].objects.len() > 0 || self.buckets[idx].uploads.len() > 0 {
            return Err(S3ErrorCode::BucketNotEmpty);
        }
        self.buckets.remove(idx);
        proof {
            assert(forall|i: int| 0 <= i < self.buckets@.len()
                ==> self.buckets@[i] == if i < idx as int {
                    old(self).buckets@[i]
                } else {
                    old(self).buckets@[i + 1]
                });
            if self.has_bucket(name@) {
                let k = self.bucket_idx(name@);
                assert(self.buckets@[k].name@ == name@);
            }
        }
        Ok(())
    }

    /// The store after replacing the bucket at `i`, everything else as it
    /// was.
    pub open spec fn bucket_updated(pre: System, post: System, i: int) -> bool {
        &&& post.buckets@ == pre.buckets@.update(i, post.buckets@[i])
        &&& post.buckets@[i].name@ == pre.buckets@[i].name@
    }

    /// Replacing one bucket by a well-formed bucket of the same name keeps
    /// the store well-formed.
    proof fn lemma_update_wf(pre: System, post: System, i: int)
        requires
            pre.wf(),
            0 <= i < pre.buckets@.len(),
            System::bucket_updated(pre, post, i),
            post.buckets@[i].wf(),
            pre.upload_counter <= post.upload_counter,
            System::uploads_fresh(post.buckets@[i], post.upload_counter),
        ensures
            post.wf(),
            post.has_bucket(pre.buckets@[i].name@),
            post.bucket_idx(pre.buckets@[i].name@) == i,
            forall|n: Seq<u8>| post.has_bucket(n) == pre.has_bucket(n),
            forall|n: Seq<u8>| pre.has_bucket(n) && pre.bucket_idx(n) != i
                ==> post.bucket_idx(n) == pre.bucket_idx(n) && post.bucket(n) == pre.bucket(n),
    {
        assert(post.buckets@.len() == pre.buckets@.len());
        assert(forall|j: int| 0 <= j < post.buckets@.len()
            ==> (#[trigger] post.buckets@[j]).name@ == pre.buckets@[j].name@);
        assert(post.wf());
        let nm = pre.buckets@[i].name@;
        assert(post.buckets@[i].name@ == nm);
        assert(post.has_bucket(nm));
        let k = post.bucket_idx(nm);
        assert(post.buckets@[k].name@ == nm);
        if k != i {
            assert(pre.buckets@[k].name@ == pre.buckets@[i].name@);
        }
        assert forall|n: Seq<u8>| post.has_bucket(n) == pre.has_bucket(n) by {
            if pre.has_bucket(n) {
                let j = pre.bucket_idx(n);
                assert(post.buckets@[j].name@ == n);
            }
            if post.has_bucket(n) {
                let j = post.bucket_idx(n);
                assert(pre.buckets@[j].name@ == n);
            }
        }
        assert forall|n: Seq<u8>| pre.has_bucket(n) && pre.bucket_idx(n) != i implies
            post.bucket_idx(n) == pre.bucket_idx(n) && post.bucket(n) == pre.bucket(n) by {
            let j = pre.bucket_idx(n);
            assert(post.buckets@[j].name@ == n);
            let k2 = post.bucket_idx(n);
            assert(post.buckets@[k2].name@ == n);
            if k2 != j {
                assert(pre.buckets@[k2].name@ == pre.buckets@[j].name@);
            }
        }
    }

    /// Freshness of upload ids depends only on the uploads themselves.
    proof fn lemma_fresh_same_uploads(b1: Bucket, b2: Bucket, c: u64)
        requires
            System::uploads_fresh(b1, c),
            b2.uploads@ == b1.uploads@,
        ensures
            System::uploads_fresh(b2, c),
    {
        assert forall|j: int| 0 <= j < b2.uploads@.len() implies all_digits(
            (#[trigger] b2.uploads@[j]).upload_id@,
        ) && digits_val(b2.uploads@[j].upload_id@) < c by {
            assert(b2.uploads@[j] == b1.uploads@[j]);
        }
    }

    /// Stores an object.
    ///
    /// The bucket must exist and the key must be acceptable; when a
    /// `Content-MD5` digest comes with the request it must match the body.
    /// On success the key holds exactly this body and metadata, the ETag is
    /// the hex MD5 of the body, and nothing else in the store changes.
    pub fn put_object(
        &mut self,
        bucket: &Vec<u8>,
        key: &Vec<u8>,
        body: Vec<u8>,
        meta: Vec<(Vec<u8>, Vec<u8>)>,
        content_md5: Option<&Vec<u8>>,
    ) -> (r: Result<Vec<u8>, S3ErrorCode>)
        requires
            old(self).wf(),
        ensures
            final(self).wf(),
            r == Err::<Vec<u8>, S3ErrorCode>(S3ErrorCode::NoSuchBucket) <==> !old(self).has_bucket(
                bucket@,
            ),
            r == Err::<Vec<u8>, S3ErrorCode>(S3ErrorCode::InvalidArgument) <==> (old(
                self,
            ).has_bucket(bucket@) && !valid_key(key@)),
            r == Err::<Vec<u8>, S3ErrorCode>(S3ErrorCode::BadDigest) <==> (old(self).has_bucket(
                bucket@,
            ) && valid_key(key@) && match content_md5 {
                Some(m) => m@ != md5_of(body@),
                None => false,
            }),
            r is Ok <==> (old(self).has_bucket(bucket@) && valid_key(key@) && match content_md5 {
                Some(m) => m@ == md5_of(body@),
                None => true,
            }),
            r matches Ok(e) ==> e@ == etag_of_body(body@),
            r is Err ==> *final(self) == *old(self),
            r is Ok ==> System::bucket_updated(*old(self), *final(self), old(self).bucket_idx(bucket@)),
            r is Ok ==> {
                let b = old(self).bucket(bucket@);
                let nb = final(self).buckets@[old(self).bucket_idx(bucket@)];
                &&& nb.uploads@ == b.uploads@
                &&& nb.has_key(key@)
                &&& nb.obj(key@).key@ == key@
                &&& nb.obj(key@).body@ == body@
                &&& nb.obj(key@).etag@ == etag_of_body(body@)
                &&& nb.obj(key@).meta == meta
                &&& forall|k: Seq<u8>| k != key@ ==> nb.has_key(k) == b.has_key(k)
                &&& forall|k: Seq<u8>| k != key@ && b.has_key(k) ==> nb.obj(k) == b.obj(k)
            },
            final(self).upload_counter == old(self).upload_counter,
    {
        let idx = match self.find_bucket(bucket) {
            None => return Err(S3ErrorCode::NoSuchBucket),
            Some(i) => i,
        };
        if !check_key(key) {
            return Err(S3ErrorCode::InvalidArgument);
        }
        let digest = md5_digest(&body);
        match content_md5 {
            Some(m) => {
                if !bytes_eq(m, &digest) {
                    return Err(S3ErrorCode::BadDigest);
                }
            },
            None => {},
        }
        let etag = to_hex(&digest);
        let etag_ret = clone_bytes(&etag);
        let rec = ObjectRecord {
            key: clone_bytes(key),
            body,
            etag,
            meta,
            tags: Vec::new(),
            acl: Vec::new(),
        };
        let mut b = self.buckets.remove(idx);
        b.put_rec(rec);
        self.buckets.insert(idx, b);
        proof {
            assert(self.buckets@ =~= old(self).buckets@.update(
                idx as int,
                self.buckets@[idx as int],
            ));
            System::lemma_fresh_same_uploads(
                old(self).buckets@[idx as int],
                self.buckets@[idx as int],
                self.upload_counter,
            );
            System::lemma_update_wf(*old(self), *self, idx as int);
        }
        Ok(etag_ret)
    }

    /// Reads an object, whole or by byte range.
    ///
    /// A whole read returns the stored body with status 200; a range read
    /// returns exactly the selected window with status 206, and an
    /// unsatisfiable range is refused.
    pub fn get_object(&self, bucket: &Vec<u8>, key: &Vec<u8>, range: Option<&RangeReq>) -> (r:
        Result<GetOutput, S3ErrorCode>)
        requires
            self.wf(),
        ensures
            r == Err::<GetOutput, S3ErrorCode>(S3ErrorCode::NoSuchBucket) <==> !self.has_bucket(
                bucket@,
            ),
            r == Err::<GetOutput, S3ErrorCode>(S3ErrorCode::NoSuchKey) <==> (self.has_bucket(
                bucket@,
            ) && !self.bucket(bucket@).has_key(key@)),
            r == Err::<GetOutput, S3ErrorCode>(S3ErrorCode::InvalidRange) <==> (self.has_bucket(
                bucket@,
            ) && self.bucket(bucket@).has_key(key@) && match range {
                Some(rr) => !range_satisfiable(*rr, self.bucket(bucket@).obj(key@).body@.len()),
                None => false,
            }),
            r is Ok <==> (self.has_bucket(bucket@) && self.bucket(bucket@).has_key(key@)
                && match range {
                Some(rr) => range_satisfiable(*rr, self.bucket(bucket@).obj(key@).body@.len()),
                None => true,
            }),
            r matches Ok(o) ==> {
                let obj = self.bucket(bucket@).obj(key@);
                let len = obj.body@.len();
                &&& o.etag@ == obj.etag@
                &&& match range {
                    None => o.body@ == obj.body@ && o.status == 200,
                    Some(rr) => o.body@ == obj.body@.subrange(
                        range_start(*rr, len),
                        range_end(*rr, len),
                    ) && o.status == 206,
                }
            },
    {
        let idx = match self.find_bucket(bucket) {
            None => return Err(S3ErrorCode::NoSuchBucket),
            Some(i) => i,
        };
        let oi = match self.buckets[idx].find_key(key) {
            None => return Err(S3ErrorCode::NoSuchKey),
            Some(i) => i,
        };
        let obj = &self.buckets[idx].objects[oi];
        match range {
            None => {
                proof {
                    assert(obj.body@.subrange(0, obj.body@.len() as int) =~= obj.body@);
                }
                Ok(GetOutput {
                    body: clone_bytes(&obj.body),
                    etag: clone_bytes(&obj.etag),
                    status: 200,
                })
            },
            Some(rr) => {
                match range_bounds(rr, obj.body.len()) {
                    None => Err(S3ErrorCode::InvalidRange),
                    Some(se) => {
                        Ok(GetOutput {
                            body: crate::bytes::copy_range(&obj.body, se.0, se.1),
                            etag: clone_bytes(&obj.etag),
                            status: 206,
                        })
                    },
                }
            },
        }
    }

    /// Copies an object to another key, possibly across buckets.
    ///
    /// The copy carries the source body and user metadata; its ETag is
    /// recomputed from the body, as a single-piece write would produce.
    pub fn copy_object(
        &mut self,
        src_bucket: &Vec<u8>,
        src_key: &Vec<u8>,
        dst_bucket: &Vec<u8>,
        dst_key: &Vec<u8>,
    ) -> (r: Result<Vec<u8>, S3ErrorCode>)
        requires
            old(self).wf(),
        ensures
            final(self).wf(),
            r == Err::<Vec<u8>, S3ErrorCode>(S3ErrorCode::NoSuchBucket) <==> (!old(
                self,
            ).has_bucket(src_bucket@) || !old(self).has_bucket(dst_bucket@)),
            r == Err::<Vec<u8>, S3ErrorCode>(S3ErrorCode::NoSuchKey) <==> (old(self).has_bucket(
                src_bucket@,
            ) && old(self).has_bucket(dst_bucket@) && !old(self).bucket(src_bucket@).has_key(
                src_key@,
            )),
            r == Err::<Vec<u8>, S3ErrorCode>(S3ErrorCode::InvalidArgument) <==> (old(
                self,
            ).has_bucket(src_bucket@) && old(self).has_bucket(dst_bucket@) && old(self).bucket(
                src_bucket@,
            ).has_key(src_key@) && !valid_key(dst_key@)),
            r is Ok <==> (old(self).has_bucket(src_bucket@) && old(self).has_bucket(dst_bucket@)
                && old(self).bucket(src_bucket@).has_key(src_key@) && valid_key(dst_key@)),
            r is Err ==> *final(self) == *old(self),
            r matches Ok(e) ==> {
                let sobj = old(self).bucket(src_bucket@).obj(src_key@);
                let db = old(self).bucket(dst_bucket@);
                let nb = final(self).buckets@[old(self).bucket_idx(dst_bucket@)];
                &&& e@ == etag_of_body(sobj.body@)
                &&& System::bucket_updated(
                    *old(self),
                    *final(self),
                    old(self).bucket_idx(dst_bucket@),
                )
                &&& nb.uploads@ == db.uploads@
                &&& nb.has_key(dst_key@)
                &&& nb.obj(dst_key@).body@ == sobj.body@
                &&& nb.obj(dst_key@).etag@ == etag_of_body(sobj.body@)
                &&& nb.obj(dst_key@).meta@.len() == sobj.meta@.len()
                &&& forall|i: int|
                    0 <= i < sobj.meta@.len() ==> (#[trigger] nb.obj(dst_key@).meta@[i]).0@
                        == sobj.meta@[i].0@ && nb.obj(dst_key@).meta@[i].1@ == sobj.meta@[i].1@
                &&& forall|k: Seq<u8>| k != dst_key@ ==> nb.has_key(k) == db.has_key(k)
                &&& forall|k: Seq<u8>| k != dst_key@ && db.has_key(k) ==> nb.obj(k) == db.obj(k)
            },
            final(self).upload_counter == old(self).upload_counter,
    {
        let sidx = match self.find_bucket(src_bucket) {
            None => return Err(S3ErrorCode::NoSuchBucket),
            Some(i) => i,
        };
        let didx = match self.find_bucket(dst_bucket) {
            None => return Err(S3ErrorCode::NoSuchBucket),
            Some(i) => i,
        };
        let soi = match self.buckets[sidx].find_key(src_key) {
            None => return Err(S3ErrorCode::NoSuchKey),
            Some(i) => i,
        };
        if !check_key(dst_key) {
            return Err(S3ErrorCode::InvalidArgument);
        }
        let body = clone_bytes(&self.buckets[sidx].objects[soi].body);
        let meta = crate::bytes::clone_pairs(&self.buckets[sidx].objects[soi].meta);
        let digest = md5_digest(&body);
        let etag = to_hex(&digest);
        let etag_ret = clone_bytes(&etag);
        let tags = crate::bytes::clone_pairs(&self.buckets[sidx].objects[soi].tags);
        let rec = ObjectRecord {
            key: clone_bytes(dst_key),
            body,
            etag,
            meta,
            tags,
            acl: Vec::new(),
        };
        let mut b = self.buckets.remove(didx);
        b.put_rec(rec);
        self.buckets.insert(didx, b);
        proof {
            assert(self.buckets@ =~= old(self).buckets@.update(
                didx as int,
                self.buckets@[didx as int],
            ));
            System::lemma_fresh_same_uploads(
                old(self).buckets@[didx as int],
                self.buckets@[didx as int],
                self.upload_counter,
            );
            System::lemma_update_wf(*old(self), *self, didx as int);
        }
        Ok(etag_ret)
    }

    /// Reads an object's size and ETag.
    pub fn head_object(&self, bucket: &Vec<u8>, key: &Vec<u8>) -> (r: Result<
        HeadOutput,
        S3ErrorCode,
    >)
        requires
            self.wf(),
        ensures
            r == Err::<HeadOutput, S3ErrorCode>(S3ErrorCode::NoSuchBucket) <==> !self.has_bucket(
                bucket@,
            ),
            r == Err::<HeadOutput, S3ErrorCode>(S3ErrorCode::NoSuchKey) <==> (self.has_bucket(
                bucket@,
            ) && !self.bucket(bucket@).has_key(key@)),
            r is Ok <==> (self.has_bucket(bucket@) && self.bucket(bucket@).has_key(key@)),
            r matches Ok(h) ==> {
                let obj = self.bucket(bucket@).obj(key@);
                h.size == obj.body@.len() && h.etag@ == obj.etag@
            },
    {
        let idx = match self.find_bucket(bucket) {
            None => return Err(S3ErrorCode::NoSuchBucket),
            Some(i) => i,
        };
        let oi = match self.buckets[idx].find_key(key) {
            None => return Err(S3ErrorCode::NoSuchKey),
            Some(i) => i,
        };
        let obj = &self.buckets[idx].objects[oi];
        Ok(HeadOutput { size: obj.body.len(), etag: clone_bytes(&obj.etag) })
    }

    /// Deletes an object. Deleting an absent key succeeds and changes
    /// nothing, as S3's delete does.
    pub fn delete_object(&mut self, bucket: &Vec<u8>, key: &Vec<u8>) -> (r: Result<
        (),
        S3ErrorCode,
    >)
        requires
            old(self).wf(),
        ensures
            final(self).wf(),
            r == Err::<(), S3ErrorCode>(S3ErrorCode::NoSuchBucket) <==> !old(self).has_bucket(
                bucket@,
            ),
            r is Ok <==> old(self).has_bucket(bucket@),
            r is Err ==> *final(self) == *old(self),
            r is Ok ==> System::bucket_updated(*old(self), *final(self), old(self).bucket_idx(bucket@)),
            r is Ok ==> {
                let b = old(self).bucket(bucket@);
                let nb = final(self).buckets@[old(self).bucket_idx(bucket@)];
                &&& nb.uploads@ == b.uploads@
                &&& !nb.has_key(key@)
                &&& forall|k: Seq<u8>| k != key@ ==> nb.has_key(k) == b.has_key(k)
                &&& forall|k: Seq<u8>| k != key@ && b.has_key(k) ==> nb.obj(k) == b.obj(k)
            },
            final(self).upload_counter == old(self).upload_counter,
    {
        let idx = match self.find_bucket(bucket) {
            None => return Err(S3ErrorCode::NoSuchBucket),
            Some(i) => i,
        };
        let mut b = self.buckets.remove(idx);
        b.delete_rec(key);
        self.buckets.insert(idx, b);
        proof {
            assert(self.buckets@ =~= old(self).buckets@.update(
                idx as int,
                self.buckets@[idx as int],
            ));
            System::lemma_fresh_same_uploads(
                old(self).buckets@[idx as int],
                self.buckets@[idx as int],
                self.upload_counter,
            );
            System::lemma_update_wf(*old(self), *self, idx as int);
        }
        Ok(())
    }
}

/// The listed part numbers are strictly increasing.
pub open spec fn parts_strictly_inc(ps: Seq<(u32, Vec<u8>)>) -> bool {
    forall|i: int, j: int| 0 <= i < j < ps.len() ==> (#[trigger] ps[i]).0 < (#[trigger] ps[j]).0
}

/// Every listed part exists in the upload and its ETag matches.
pub open spec fn parts_all_match(u: Upload, ps: Seq<(u32, Vec<u8>)>) -> bool {
    forall|i: int|
        0 <= i < ps.len() ==> u.has_part((#[trigger] ps[i]).0) && u.part(ps[i].0).etag@
            == ps[i].1@
}

/// Every listed part except the last is at least 5 MiB.
pub open spec fn parts_sizes_ok(u: Upload, ps: Seq<(u32, Vec<u8>)>) -> bool {
    forall|i: int| 0 <= i < ps.len() - 1 ==> u.part((#[trigger] ps[i]).0).body@.len() >= 5242880
}

/// The bodies of the listed parts, in listed order.
pub open spec fn part_bodies(u: Upload, ps: Seq<(u32, Vec<u8>)>) -> Seq<Seq<u8>> {
    ps.map_values(|p: (u32, Vec<u8>)| u.part(p.0).body@)
}

/// Concatenation of a sequence of byte sequences.
pub open spec fn concat_all(bs: Seq<Seq<u8>>) -> Seq<u8>
    decreases bs.len(),
{
    if bs.len() == 0 {
        Seq::<u8>::empty()
    } else {
        concat_all(bs.drop_last()) + bs.last()
    }
}

/// A chain of adjacent increases gives a strict increase overall.
proof fn lemma_chain_inc(ps: Seq<(u32, Vec<u8>)>, i: int, j: int)
    requires
        forall|a: int| 0 <= a < ps.len() - 1 ==> (#[trigger] ps[a]).0 < ps[a + 1].0,
        0 <= i < j < ps.len(),
    ensures
        ps[i].0 < ps[j].0,
    decreases j - i,
{
    if j == i + 1 {
        assert(ps[i].0 < ps[i + 1].0);
    } else {
        lemma_chain_inc(ps, i, j - 1);
        assert(ps[j - 1].0 < ps[j].0);
    }
}

impl Bucket {
    /// In a bucket two indices holding the same upload id are the same.
    pub proof fn lemma_upload_idx_unique(self, i: int, j: int)
        requires
            self.wf(),
            0 <= i < self.uploads@.len(),
            0 <= j < self.uploads@.len(),
            self.uploads@[i].upload_id@ == self.uploads@[j].upload_id@,
        ensures
            i == j,
    {
        if i < j {
            assert(self.uploads@[i].upload_id@ != self.uploads@[j].upload_id@);
        }
        if j < i {
            assert(self.uploads@[j].upload_id@ != self.uploads@[i].upload_id@);
        }
    }

    /// Removes the upload stored under an id, if any. Nothing else in the
    /// bucket changes.
    fn delete_upload(&mut self, id: &Vec<u8>)
        requires
            old(self).wf(),
        ensures
            final(self).wf(),
            final(self).name@ == old(self).name@,
            final(self).objects@ == old(self).objects@,
            !final(self).has_upload(id@),
            forall|x: Seq<u8>| x != id@ ==> final(self).has_upload(x) == old(self).has_upload(x),
            forall|x: Seq<u8>| x != id@ && old(self).has_upload(x)
                ==> final(self).upload(x) == old(self).upload(x),
            !old(self).has_upload(id@) ==> final(self).uploads@ == old(self).uploads@,
            old(self).has_upload(id@) ==> final(self).uploads@ == old(self).uploads@.remove(
                old(self).upload_idx(id@),
            ),
    {
        let ghost pre = *old(self);
        let idx = match self.find_upload(id) {
            None => {
                return ;
            },
            Some(i) => i,
        };
        self.uploads.remove(idx);
        proof {
            let post = self.uploads@;
            assert(forall|j: int| 0 <= j < idx ==> post[j] == pre.uploads@[j]);
            assert(forall|j: int| idx <= j < post.len() ==> post[j] == pre.uploads@[j + 1]);
            assert(self.wf());
            if self.has_upload(id@) {
                let i = self.upload_idx(id@);
                assert(post[i].upload_id@ == id@);
                if i < idx as int {
                    pre.lemma_upload_idx_unique(i, idx as int);
                } else {
                    pre.lemma_upload_idx_unique(i + 1, idx as int);
                }
            }
            assert forall|x: Seq<u8>| x != id@ implies self.has_upload(x) == pre.has_upload(
                x,
            ) by {
                if pre.has_upload(x) {
                    let i = pre.upload_idx(x);
                    if i < idx as int {
                        assert(post[i].upload_id@ == x);
                    } else {
                        assert(i != idx as int);
                        assert(post[i - 1].upload_id@ == x);
                    }
                }
                if self.has_upload(x) {
                    let i = self.upload_idx(x);
                    if i < idx as int {
                        assert(pre.uploads@[i].upload_id@ == x);
                    } else {
                        assert(pre.uploads@[i + 1].upload_id@ == x);
                    }
                }
            }
            assert forall|x: Seq<u8>| x != id@ && pre.has_upload(x) implies self.upload(x)
                == pre.upload(x) by {
                let i = pre.upload_idx(x);
                if i < idx as int {
                    assert(post[i].upload_id@ == x);
                    self.lemma_upload_idx_unique(self.upload_idx(x), i);
                } else {
                    assert(i != idx as int);
                    assert(post[i - 1].upload_id@ == x);
                    self.lemma_upload_idx_unique(self.upload_idx(x), i - 1);
                }
            }
        }
    }
}

/// Checks a completion's part list against an upload: nonempty, strictly
/// increasing, every listed part present with the listed ETag, every part
/// but the last at least 5 MiB. Returns the error owed, or nothing.
fn check_parts(u: &Upload, parts: &Vec<(u32, Vec<u8>)>) -> (r: Option<S3ErrorCode>)
    requires
        u.wf(),
    ensures
        r is None <==> (parts@.len() > 0 && parts_strictly_inc(parts@) && parts_all_match(
            *u,
            parts@,
        ) && parts_sizes_ok(*u, parts@)),
        r == Some(S3ErrorCode::InvalidPartOrder) <==> (parts@.len() > 0 && !parts_strictly_inc(
            parts@,
        )),
        r == Some(S3ErrorCode::InvalidPart) <==> (parts@.len() == 0 || (parts_strictly_inc(parts@)
            && !parts_all_match(*u, parts@))),
        r == Some(S3ErrorCode::EntityTooSmall) <==> (parts@.len() > 0 && parts_strictly_inc(
            parts@,
        ) && parts_all_match(*u, parts@) && !parts_sizes_ok(*u, parts@)),
{
    let n = parts.len();
    if n == 0 {
        return Some(S3ErrorCode::InvalidPart);
    }
    let mut i: usize = 1;
    while i < n
        invariant
            u.wf(),
            1 <= i <= n == parts@.len(),
            forall|a: int| 0 <= a < i - 1 ==> (#[trigger] parts@[a]).0 < parts@[a + 1].0,
        decreases n - i,
    {
        if parts[i - 1].0 >= parts[i].0 {
            proof {
                if parts_strictly_inc(parts@) {
                    assert((parts@[i - 1]).0 < (parts@[i as int]).0);
                }
            }
            return Some(S3ErrorCode::InvalidPartOrder);
        }
        i += 1;
    }
    proof {
        assert forall|a: int, b2: int| 0 <= a < b2 < parts@.len() implies (#[trigger] parts@[a]).0
            < (#[trigger] parts@[b2]).0 by {
            lemma_chain_inc(parts@, a, b2);
        }
        assert(parts_strictly_inc(parts@));
    }
    let mut i: usize = 0;
    while i < n
        invariant
            u.wf(),
            i <= n == parts@.len(),
            n > 0,
            parts_strictly_inc(parts@),
            forall|a: int|
                0 <= a < i ==> u.has_part((#[trigger] parts@[a]).0) && u.part(parts@[a].0).etag@
                    == parts@[a].1@,
        decreases n - i,
    {
        let pn = parts[i].0;
        match u.find_part(pn) {
            None => {
                proof {
                    if parts_all_match(*u, parts@) {
                        assert(u.has_part((parts@[i as int]).0));
                    }
                }
                return Some(S3ErrorCode::InvalidPart);
            },
            Some(pi) => {
                if !bytes_eq(&u.parts[pi].etag, &parts[i].1) {
                    proof {
                        if parts_all_match(*u, parts@) {
                            assert(u.has_part((parts@[i as int]).0));
                        }
                    }
                    return Some(S3ErrorCode::InvalidPart);
                }
            },
        }
        i += 1;
    }
    proof {
        assert(parts_all_match(*u, parts@));
    }
    let mut i: usize = 0;
    while i < n - 1
        invariant
            u.wf(),
            i <= n == parts@.len(),
            n > 0,
            parts_strictly_inc(parts@),
            parts_all_match(*u, parts@),
            forall|a: int| 0 <= a < i ==> u.part((#[trigger] parts@[a]).0).body@.len() >= 5242880,
        decreases n - i,
    {
        let pn = parts[i].0;
        match u.find_part(pn) {
            None => {
                proof {
                    assert(u.has_part((parts@[i as int]).0));
                    assert(false);
                }
                return Some(S3ErrorCode::InvalidPart);
            },
            Some(pi) => {
                if u.parts[pi].body.len() < 5242880 {
                    proof {
                        if parts_sizes_ok(*u, parts@) {
                            assert(u.part((parts@[i as int]).0).body@.len() >= 5242880);
                        }
                    }
                    return Some(S3ErrorCode::EntityTooSmall);
                }
            },
        }
        i += 1;
    }
    proof {
        assert(parts_sizes_ok(*u, parts@));
    }
    None
}

/// Streams the listed parts in order: the assembled body, and the
/// concatenation of the parts' raw MD5 digests.
fn assemble_parts(u: &Upload, parts: &Vec<(u32, Vec<u8>)>) -> (r: (Vec<u8>, Vec<u8>))
    requires
        u.wf(),
        parts_all_match(*u, parts@),
    ensures
        r.0@ == concat_all(part_bodies(*u, parts@)),
        r.1@ == concat_md5s(part_bodies(*u, parts@)),
{
    let n = parts.len();
    let ghost bodies = part_bodies(*u, parts@);
    let mut assembled: Vec<u8> = Vec::new();
    let mut md5cat: Vec<u8> = Vec::new();
    let mut i: usize = 0;
    while i < n
        invariant
            u.wf(),
            parts_all_match(*u, parts@),
            i <= n == parts@.len(),
            bodies == part_bodies(*u, parts@),
            assembled@ == concat_all(bodies.take(i as int)),
            md5cat@ == concat_md5s(bodies.take(i as int)),
        decreases n - i,
    {
        let pn = parts[i].0;
        match u.find_part(pn) {
            None => {
                proof {
                    assert(u.has_part((parts@[i as int]).0));
                    assert(false);
                }
            },
            Some(pi) => {
                append_bytes(&mut assembled, &u.parts[pi].body);
                let d = md5_digest(&u.parts[pi].body);
                append_bytes(&mut md5cat, &d);
                i += 1;
                proof {
                    assert(bodies[i - 1] == u.part((parts@[i - 1]).0).body@);
                    assert(u.parts@[pi as int] == u.part((parts@[i - 1]).0));
                    assert(bodies.take(i as int).drop_last() =~= bodies.take(i - 1));
                    assert(bodies.take(i as int).last() == bodies[i - 1]);
                }
            },
        }
    }
    proof {
        assert(bodies.take(n as int) =~= bodies);
    }
    (assembled, md5cat)
}

impl System {
    /// Replaces an object's tagging set.
    pub fn put_object_tagging(
        &mut self,
        bucket: &Vec<u8>,
        key: &Vec<u8>,
        tags: Vec<(Vec<u8>, Vec<u8>)>,
    ) -> (r: Result<(), S3ErrorCode>)
        requires
            old(self).wf(),
        ensures
            final(self).wf(),
            r == Err::<(), S3ErrorCode>(S3ErrorCode::NoSuchBucket) <==> !old(self).has_bucket(
                bucket@,
            ),
            r == Err::<(), S3ErrorCode>(S3ErrorCode::NoSuchKey) <==> (old(self).has_bucket(bucket@)
                && !old(self).bucket(bucket@).has_key(key@)),
            r is Ok <==> (old(self).has_bucket(bucket@) && old(self).bucket(bucket@).has_key(
                key@,
            )),
            r is Err ==> *final(self) == *old(self),
            r is Ok ==> {
                let b = old(self).bucket(bucket@);
                let nb = final(self).buckets@[old(self).bucket_idx(bucket@)];
                &&& System::bucket_updated(*old(self), *final(self), old(self).bucket_idx(bucket@))
                &&& nb.uploads@ == b.uploads@
                &&& nb.has_key(key@)
                &&& nb.obj(key@).tags == tags
                &&& nb.obj(key@).body == b.obj(key@).body
                &&& nb.obj(key@).etag == b.obj(key@).etag
                &&& nb.obj(key@).meta == b.obj(key@).meta
                &&& nb.obj(key@).acl == b.obj(key@).acl
                &&& forall|k: Seq<u8>| k != key@ ==> nb.has_key(k) == b.has_key(k)
                &&& forall|k: Seq<u8>| k != key@ && b.has_key(k) ==> nb.obj(k) == b.obj(k)
            },
            final(self).upload_counter == old(self).upload_counter,
    {
        let idx = match self.find_bucket(bucket) {
            None => return Err(S3ErrorCode::NoSuchBucket),
            Some(i) => i,
        };
        if self.buckets[idx].find_key(key).is_none() {
            return Err(S3ErrorCode::NoSuchKey);
        }
        let mut b = self.buckets.remove(idx);
        let found = b.set_tags_acl(key, Some(tags), None);
        self.buckets.insert(idx, b);
        proof {
            assert(found);
            assert(self.buckets@ =~= old(self).buckets@.update(
                idx as int,
                self.buckets@[idx as int],
            ));
            System::lemma_fresh_same_uploads(
                old(self).buckets@[idx as int],
                self.buckets@[idx as int],
                self.upload_counter,
            );
            System::lemma_update_wf(*old(self), *self, idx as int);
        }
        Ok(())
    }

    /// Removes an object's tagging set.
    pub fn delete_object_tagging(&mut self, bucket: &Vec<u8>, key: &Vec<u8>) -> (r: Result<
        (),
        S3ErrorCode,
    >)
        requires
            old(self).wf(),
        ensures
            final(self).wf(),
            r == Err::<(), S3ErrorCode>(S3ErrorCode::NoSuchBucket) <==> !old(self).has_bucket(
                bucket@,
            ),
            r == Err::<(), S3ErrorCode>(S3ErrorCode::NoSuchKey) <==> (old(self).has_bucket(bucket@)
                && !old(self).bucket(bucket@).has_key(key@)),
            r is Ok <==> (old(self).has_bucket(bucket@) && old(self).bucket(bucket@).has_key(
                key@,
            )),
            r is Err ==> *final(self) == *old(self),
            r is Ok ==> {
                let b = old(self).bucket(bucket@);
                let nb = final(self).buckets@[old(self).bucket_idx(bucket@)];
                &&& System::bucket_updated(*old(self), *final(self), old(self).bucket_idx(bucket@))
                &&& nb.uploads@ == b.uploads@
                &&& nb.has_key(key@)
                &&& nb.obj(key@).tags@.len() == 0
                &&& nb.obj(key@).body == b.obj(key@).body
                &&& nb.obj(key@).etag == b.obj(key@).etag
                &&& forall|k: Seq<u8>| k != key@ ==> nb.has_key(k) == b.has_key(k)
                &&& forall|k: Seq<u8>| k != key@ && b.has_key(k) ==> nb.obj(k) == b.obj(k)
            },
            final(self).upload_counter == old(self).upload_counter,
    {
        self.put_object_tagging(bucket, key, Vec::new())
    }

    /// Reads an object's tagging set.
    pub fn get_object_tagging(&self, bucket: &Vec<u8>, key: &Vec<u8>) -> (r: Result<
        Vec<(Vec<u8>, Vec<u8>)>,
        S3ErrorCode,
    >)
        requires
            self.wf(),
        ensures
            r == Err::<Vec<(Vec<u8>, Vec<u8>)>, S3ErrorCode>(S3ErrorCode::NoSuchBucket)
                <==> !self.has_bucket(bucket@),
            r == Err::<Vec<(Vec<u8>, Vec<u8>)>, S3ErrorCode>(S3ErrorCode::NoSuchKey)
                <==> (self.has_bucket(bucket@) && !self.bucket(bucket@).has_key(key@)),
            r is Ok <==> (self.has_bucket(bucket@) && self.bucket(bucket@).has_key(key@)),
            r matches Ok(v) ==> {
                let tags = self.bucket(bucket@).obj(key@).tags;
                &&& v@.len() == tags@.len()
                &&& forall|i: int|
                    0 <= i < v@.len() ==> (#[trigger] v@[i]).0@ == tags@[i].0@ && v@[i].1@
                        == tags@[i].1@
            },
    {
        let idx = match self.find_bucket(bucket) {
            None => return Err(S3ErrorCode::NoSuchBucket),
            Some(i) => i,
        };
        let oi = match self.buckets[idx].find_key(key) {
            None => return Err(S3ErrorCode::NoSuchKey),
            Some(i) => i,
        };
        Ok(crate::bytes::clone_pairs(&self.buckets[idx].objects[oi].tags))
    }

    /// Replaces an object's canned-ACL summary.
    pub fn put_object_acl(&mut self, bucket: &Vec<u8>, key: &Vec<u8>, acl: Vec<u8>) -> (r: Result<
        (),
        S3ErrorCode,
    >)
        requires
            old(self).wf(),
        ensures
            final(self).wf(),
            r == Err::<(), S3ErrorCode>(S3ErrorCode::NoSuchBucket) <==> !old(self).has_bucket(
                bucket@,
            ),
            r == Err::<(), S3ErrorCode>(S3ErrorCode::NoSuchKey) <==> (old(self).has_bucket(bucket@)
                && !old(self).bucket(bucket@).has_key(key@)),
            r is Ok <==> (old(self).has_bucket(bucket@) && old(self).bucket(bucket@).has_key(
                key@,
            )),
            r is Err ==> *final(self) == *old(self),
            r is Ok ==> {
                let b = old(self).bucket(bucket@);
                let nb = final(self).buckets@[old(self).bucket_idx(bucket@)];
                &&& System::bucket_updated(*old(self), *final(self), old(self).bucket_idx(bucket@))
                &&& nb.uploads@ == b.uploads@
                &&& nb.has_key(key@)
                &&& nb.obj(key@).acl == acl
                &&& nb.obj(key@).body == b.obj(key@).body
                &&& nb.obj(key@).etag == b.obj(key@).etag
                &&& nb.obj(key@).meta == b.obj(key@).meta
                &&& nb.obj(key@).tags == b.obj(key@).tags
                &&& forall|k: Seq<u8>| k != key@ ==> nb.has_key(k) == b.has_key(k)
                &&& forall|k: Seq<u8>| k != key@ && b.has_key(k) ==> nb.obj(k) == b.obj(k)
            },
            final(self).upload_counter == old(self).upload_counter,
    {
        let idx = match self.find_bucket(bucket) {
            None => return Err(S3ErrorCode::NoSuchBucket),
            Some(i) => i,
        };
        if self.buckets[idx].find_key(key).is_none() {
            return Err(S3ErrorCode::NoSuchKey);
        }
        let mut b = self.buckets.remove(idx);
        let found = b.set_tags_acl(key, None, Some(acl));
        self.buckets.insert(idx, b);
        proof {
            assert(found);
            assert(self.buckets@ =~= old(self).buckets@.update(
                idx as int,
                self.buckets@[idx as int],
            ));
            System::lemma_fresh_same_uploads(
                old(self).buckets@[idx as int],
                self.buckets@[idx as int],
                self.upload_counter,
            );
            System::lemma_update_wf(*old(self), *self, idx as int);
        }
        Ok(())
    }

    /// Reads an object's canned-ACL summary.
    pub fn get_object_acl(&self, bucket: &Vec<u8>, key: &Vec<u8>) -> (r: Result<
        Vec<u8>,
        S3ErrorCode,
    >)
        requires
            self.wf(),
        ensures
            r == Err::<Vec<u8>, S3ErrorCode>(S3ErrorCode::NoSuchBucket) <==> !self.has_bucket(
                bucket@,
            ),
            r == Err::<Vec<u8>, S3ErrorCode>(S3ErrorCode::NoSuchKey) <==> (self.has_bucket(bucket@)
                && !self.bucket(bucket@).has_key(key@)),
            r is Ok <==> (self.has_bucket(bucket@) && self.bucket(bucket@).has_key(key@)),
            r matches Ok(v) ==> v@ == self.bucket(bucket@).obj(key@).acl@,
    {
        let idx = match self.find_bucket(bucket) {
            None => return Err(S3ErrorCode::NoSuchBucket),
            Some(i) => i,
        };
        let oi = match self.buckets[idx].find_key(key) {
            None => return Err(S3ErrorCode::NoSuchKey),
            Some(i) => i,
        };
        Ok(clone_bytes(&self.buckets[idx].objects[oi].acl))
    }

    /// Starts a multipart upload and hands back a fresh upload id.
    ///
    /// The id is a decimal numeral of the store's counter, so it can never
    /// collide with an id already in use.
    pub fn create_multipart_upload(&mut self, bucket: &Vec<u8>, key: &Vec<u8>) -> (r: Result<
        Vec<u8>,
        S3ErrorCode,
    >)
        requires
            old(self).wf(),
            old(self).upload_counter < u64::MAX,
        ensures
            final(self).wf(),
            r == Err::<Vec<u8>, S3ErrorCode>(S3ErrorCode::NoSuchBucket) <==> !old(self).has_bucket(
                bucket@,
            ),
            r == Err::<Vec<u8>, S3ErrorCode>(S3ErrorCode::InvalidArgument) <==> (old(
                self,
            ).has_bucket(bucket@) && !valid_key(key@)),
            r is Ok <==> (old(self).has_bucket(bucket@) && valid_key(key@)),
            r is Err ==> *final(self) == *old(self),
            r matches Ok(id) ==> {
                let b = old(self).bucket(bucket@);
                let nb = final(self).buckets@[old(self).bucket_idx(bucket@)];
                &&& System::bucket_updated(*old(self), *final(self), old(self).bucket_idx(bucket@))
                &&& nb.objects@ == b.objects@
                &&& !b.has_upload(id@)
                &&& nb.uploads@.len() == b.uploads@.len() + 1
                &&& nb.uploads@.drop_last() == b.uploads@
                &&& nb.uploads@.last().upload_id@ == id@
                &&& nb.uploads@.last().key@ == key@
                &&& nb.uploads@.last().parts@.len() == 0
                &&& nb.has_upload(id@)
            },
            r is Ok ==> final(self).upload_counter == old(self).upload_counter + 1,
    {
        let idx = match self.find_bucket(bucket) {
            None => return Err(S3ErrorCode::NoSuchBucket),
            Some(i) => i,
        };
        if !check_key(key) {
            return Err(S3ErrorCode::InvalidArgument);
        }
        let id = u64_to_dec(self.upload_counter);
        proof {
            lemma_dec_of_value(old(self).upload_counter as nat);
        }
        self.upload_counter = self.upload_counter + 1;
        let u = Upload { upload_id: clone_bytes(&id), key: clone_bytes(key), parts: Vec::new() };
        let mut b = self.buckets.remove(idx);
        proof {
            if b.has_upload(id@) {
                let j = b.upload_idx(id@);
                assert(b.uploads@[j].upload_id@ == id@);
                assert(digits_val(b.uploads@[j].upload_id@) < old(self).upload_counter);
            }
        }
        b.uploads.push(u);
        self.buckets.insert(idx, b);
        proof {
            let nb = self.buckets@[idx as int];
            assert(self.buckets@ =~= old(self).buckets@.update(idx as int, nb));
            assert(nb.uploads@.drop_last() =~= old(self).buckets@[idx as int].uploads@);
            assert(nb.uploads@.last().upload_id@ == id@);
            assert(nb.has_upload(id@));
            assert forall|i2: int, j2: int|
                0 <= i2 < j2 < nb.uploads@.len() implies (#[trigger] nb.uploads@[i2]).upload_id@
                != (#[trigger] nb.uploads@[j2]).upload_id@ by {
                let pre_b = old(self).buckets@[idx as int];
                if j2 == nb.uploads@.len() - 1 {
                    assert(nb.uploads@[i2] == pre_b.uploads@[i2]);
                    assert(digits_val(nb.uploads@[i2].upload_id@) < old(self).upload_counter);
                } else {
                    assert(nb.uploads@[i2] == pre_b.uploads@[i2]);
                    assert(nb.uploads@[j2] == pre_b.uploads@[j2]);
                }
            }
            assert(nb.wf());
            assert forall|j2: int| 0 <= j2 < nb.uploads@.len() implies all_digits(
                (#[trigger] nb.uploads@[j2]).upload_id@,
            ) && digits_val(nb.uploads@[j2].upload_id@) < self.upload_counter by {
                let pre_b = old(self).buckets@[idx as int];
                if j2 < nb.uploads@.len() - 1 {
                    assert(nb.uploads@[j2] == pre_b.uploads@[j2]);
                    assert(digits_val(nb.uploads@[j2].upload_id@) < old(self).upload_counter);
                }
            }
            assert(System::uploads_fresh(nb, self.upload_counter));
            System::lemma_update_wf(*old(self), *self, idx as int);
        }
        Ok(id)
    }

    /// Stores one part of a multipart upload, replacing any part already
    /// uploaded under the same number. Returns the part's ETag.
    pub fn upload_part(
        &mut self,
        bucket: &Vec<u8>,
        upload_id: &Vec<u8>,
        part_number: u32,
        body: Vec<u8>,
    ) -> (r: Result<Vec<u8>, S3ErrorCode>)
        requires
            old(self).wf(),
        ensures
            final(self).wf(),
            r == Err::<Vec<u8>, S3ErrorCode>(S3ErrorCode::NoSuchBucket) <==> !old(self).has_bucket(
                bucket@,
            ),
            r == Err::<Vec<u8>, S3ErrorCode>(S3ErrorCode::NoSuchUpload) <==> (old(self).has_bucket(
                bucket@,
            ) && !old(self).bucket(bucket@).has_upload(upload_id@)),
            r == Err::<Vec<u8>, S3ErrorCode>(S3ErrorCode::InvalidArgument) <==> (old(
                self,
            ).has_bucket(bucket@) && old(self).bucket(bucket@).has_upload(upload_id@) && !(1
                <= part_number <= 10000)),
            r is Ok <==> (old(self).has_bucket(bucket@) && old(self).bucket(bucket@).has_upload(
                upload_id@,
            ) && 1 <= part_number <= 10000),
            r matches Ok(e) ==> e@ == etag_of_body(body@),
            r is Err ==> *final(self) == *old(self),
            r is Ok ==> {
                let b = old(self).bucket(bucket@);
                let ui = b.upload_idx(upload_id@);
                let nb = final(self).buckets@[old(self).bucket_idx(bucket@)];
                let nu = nb.uploads@[ui];
                &&& System::bucket_updated(*old(self), *final(self), old(self).bucket_idx(bucket@))
                &&& nb.objects@ == b.objects@
                &&& nb.uploads@ == b.uploads@.update(ui, nu)
                &&& nu.upload_id@ == upload_id@
                &&& nu.key@ == b.uploads@[ui].key@
                &&& nu.has_part(part_number)
                &&& nu.part(part_number).body@ == body@
                &&& nu.part(part_number).etag@ == etag_of_body(body@)
                &&& forall|n: u32| n != part_number ==> nu.has_part(n) == b.uploads@[ui].has_part(n)
                &&& forall|n: u32| n != part_number && b.uploads@[ui].has_part(n)
                    ==> nu.part(n) == b.uploads@[ui].part(n)
            },
            final(self).upload_counter == old(self).upload_counter,
    {
        let idx = match self.find_bucket(bucket) {
            None => return Err(S3ErrorCode::NoSuchBucket),
            Some(i) => i,
        };
        let uidx = match self.buckets[idx].find_upload(upload_id) {
            None => return Err(S3ErrorCode::NoSuchUpload),
            Some(i) => i,
        };
        if part_number < 1 || part_number > 10000 {
            return Err(S3ErrorCode::InvalidArgument);
        }
        let etag = body_etag(&body);
        let etag_ret = clone_bytes(&etag);
        let p = Part { part_number, body, etag };
        let mut b = self.buckets.remove(idx);
        let mut u = b.uploads.remove(uidx);
        u.put_part(p);
        b.uploads.insert(uidx, u);
        self.buckets.insert(idx, b);
        proof {
            let pre_b = old(self).buckets@[idx as int];
            let nb = self.buckets@[idx as int];
            assert(nb.uploads@ =~= pre_b.uploads@.update(uidx as int, nb.uploads@[uidx as int]));
            assert forall|i2: int, j2: int|
                0 <= i2 < j2 < nb.uploads@.len() implies (#[trigger] nb.uploads@[i2]).upload_id@
                != (#[trigger] nb.uploads@[j2]).upload_id@ by {
                assert(nb.uploads@[i2].upload_id@ == pre_b.uploads@[i2].upload_id@);
                assert(nb.uploads@[j2].upload_id@ == pre_b.uploads@[j2].upload_id@);
            }
            assert(nb.wf());
            assert forall|j2: int| 0 <= j2 < nb.uploads@.len() implies all_digits(
                (#[trigger] nb.uploads@[j2]).upload_id@,
            ) && digits_val(nb.uploads@[j2].upload_id@) < self.upload_counter by {
                assert(nb.uploads@[j2].upload_id@ == pre_b.uploads@[j2].upload_id@);
                assert(all_digits(pre_b.uploads@[j2].upload_id@));
            }
            assert(System::uploads_fresh(nb, self.upload_counter));
            assert(self.buckets@ =~= old(self).buckets@.update(idx as int, nb));
            System::lemma_update_wf(*old(self), *self, idx as int);
        }
        Ok(etag_ret)
    }

    /// Completes a multipart upload from an ordered list of
    /// `(part number, ETag)` pairs.
    ///
    /// The list must be nonempty, strictly increasing by part number, name
    /// only uploaded parts with matching ETags, and every part except the
    /// last must be at least 5 MiB. On success the target key holds the
    /// concatenation of the listed part bodies, the object's ETag is the
    /// composite ETag, and the upload is gone.
    #[verifier::rlimit(100)]
    pub fn complete_multipart_upload(
        &mut self,
        bucket: &Vec<u8>,
        key: &Vec<u8>,
        upload_id: &Vec<u8>,
        parts: &Vec<(u32, Vec<u8>)>,
    ) -> (r: Result<Vec<u8>, S3ErrorCode>)
        requires
            old(self).wf(),
        ensures
            final(self).wf(),
            r == Err::<Vec<u8>, S3ErrorCode>(S3ErrorCode::NoSuchBucket) <==> !old(self).has_bucket(
                bucket@,
            ),
            r == Err::<Vec<u8>, S3ErrorCode>(S3ErrorCode::NoSuchUpload) <==> (old(self).has_bucket(
                bucket@,
            ) && !(old(self).bucket(bucket@).has_upload(upload_id@) && old(self).bucket(
                bucket@,
            ).upload(upload_id@).key@ == key@)),
            ({
                let found = old(self).has_bucket(bucket@) && old(self).bucket(bucket@).has_upload(
                    upload_id@,
                ) && old(self).bucket(bucket@).upload(upload_id@).key@ == key@;
                let u = old(self).bucket(bucket@).upload(upload_id@);
                &&& (r == Err::<Vec<u8>, S3ErrorCode>(S3ErrorCode::InvalidPartOrder) <==> (found
                    && parts@.len() > 0 && !parts_strictly_inc(parts@)))
                &&& (r == Err::<Vec<u8>, S3ErrorCode>(S3ErrorCode::InvalidPart) <==> (found && (
                parts@.len() == 0 || (parts_strictly_inc(parts@) && !parts_all_match(u, parts@)))))
                &&& (r == Err::<Vec<u8>, S3ErrorCode>(S3ErrorCode::EntityTooSmall) <==> (found
                    && parts@.len() > 0 && parts_strictly_inc(parts@) && parts_all_match(u, parts@)
                    && !parts_sizes_ok(u, parts@)))
                &&& (r is Ok <==> (found && parts@.len() > 0 && parts_strictly_inc(parts@)
                    && parts_all_match(u, parts@) && parts_sizes_ok(u, parts@)))
            }),
            r is Err ==> *final(self) == *old(self),
            r matches Ok(ce) ==> {
                let u = old(self).bucket(bucket@).upload(upload_id@);
                let b = old(self).bucket(bucket@);
                let nb = final(self).buckets@[old(self).bucket_idx(bucket@)];
                &&& ce@ == composite_etag(part_bodies(u, parts@))
                &&& System::bucket_updated(*old(self), *final(self), old(self).bucket_idx(bucket@))
                &&& nb.has_key(key@)
                &&& nb.obj(key@).body@ == concat_all(part_bodies(u, parts@))
                &&& nb.obj(key@).etag@ == ce@
                &&& forall|k: Seq<u8>| k != key@ ==> nb.has_key(k) == b.has_key(k)
                &&& forall|k: Seq<u8>| k != key@ && b.has_key(k) ==> nb.obj(k) == b.obj(k)
                &&& !nb.has_upload(upload_id@)
                &&& forall|x: Seq<u8>| x != upload_id@ ==> nb.has_upload(x) == b.has_upload(x)
                &&& forall|x: Seq<u8>| x != upload_id@ && b.has_upload(x)
                    ==> nb.upload(x) == b.upload(x)
            },
            final(self).upload_counter == old(self).upload_counter,
    {
        let idx = match self.find_bucket(bucket) {
            None => return Err(S3ErrorCode::NoSuchBucket),
            Some(i) => i,
        };
        let uidx = match self.buckets[idx].find_upload(upload_id) {
            None => return Err(S3ErrorCode::NoSuchUpload),
            Some(i) => i,
        };
        if !bytes_eq(&self.buckets[idx].uploads[uidx].key, key) {
            return Err(S3ErrorCode::NoSuchUpload);
        }
        let ghost u = self.buckets@[idx as int].uploads@[uidx as int];
        proof {
            assert(u == old(self).bucket(bucket@).upload(upload_id@));
            assert(u.wf());
        }
        match check_parts(&self.buckets[idx].uploads[uidx], parts) {
            Some(e) => {
                return Err(e);
            },
            None => {},
        }
        let ab = assemble_parts(&self.buckets[idx].uploads[uidx], parts);
        let assembled = ab.0;
        let md5cat = ab.1;
        let ghost bodies = part_bodies(u, parts@);
        let n = parts.len();
        // the composite ETag
        let digest = md5_digest(&md5cat);
        let mut ce = to_hex(&digest);
        ce.push(45);
        let nd = u64_to_dec(n as u64);
        append_bytes(&mut ce, &nd);
        proof {
            assert(bodies.len() == parts@.len());
            assert(ce@ =~= hex_of(md5_of(concat_md5s(bodies))) + seq![45u8] + dec_of(
                bodies.len(),
            ));
            assert(ce@ == composite_etag(bodies));
        }
        let okey = clone_bytes(&self.buckets[idx].uploads[uidx].key);
        let etag_ret = clone_bytes(&ce);
        let rec = ObjectRecord {
            key: okey,
            body: assembled,
            etag: ce,
            meta: Vec::new(),
            tags: Vec::new(),
            acl: Vec::new(),
        };
        proof {
            assert(valid_key(rec.key@));
        }
        let mut b = self.buckets.remove(idx);
        b.delete_upload(upload_id);
        b.put_rec(rec);
        self.buckets.insert(idx, b);
        proof {
            let pre_b = old(self).buckets@[idx as int];
            let nb = self.buckets@[idx as int];
            assert forall|j2: int| 0 <= j2 < nb.uploads@.len() implies all_digits(
                (#[trigger] nb.uploads@[j2]).upload_id@,
            ) && digits_val(nb.uploads@[j2].upload_id@) < self.upload_counter by {
                let ri = pre_b.upload_idx(upload_id@);
                assert(nb.uploads@ == pre_b.uploads@.remove(ri));
                if j2 < ri {
                    assert(nb.uploads@[j2] == pre_b.uploads@[j2]);
                } else {
                    assert(nb.uploads@[j2] == pre_b.uploads@[j2 + 1]);
                }
            }
            assert(System::uploads_fresh(nb, self.upload_counter));
            assert(self.buckets@ =~= old(self).buckets@.update(idx as int, nb));
            System::lemma_update_wf(*old(self), *self, idx as int);
        }
        Ok(etag_ret)
    }

    /// Aborts a multipart upload, removing its parts and its manifest.
    /// Aborting an unknown upload succeeds and changes nothing.
    pub fn abort_multipart_upload(&mut self, bucket: &Vec<u8>, upload_id: &Vec<u8>) -> (r: Result<
        (),
        S3ErrorCode,
    >)
        requires
            old(self).wf(),
        ensures
            final(self).wf(),
            r == Err::<(), S3ErrorCode>(S3ErrorCode::NoSuchBucket) <==> !old(self).has_bucket(
                bucket@,
            ),
            r is Ok <==> old(self).has_bucket(bucket@),
            r is Err ==> *final(self) == *old(self),
            r is Ok ==> {
                let b = old(self).bucket(bucket@);
                let nb = final(self).buckets@[old(self).bucket_idx(bucket@)];
                &&& System::bucket_updated(*old(self), *final(self), old(self).bucket_idx(bucket@))
                &&& nb.objects@ == b.objects@
                &&& !nb.has_upload(upload_id@)
                &&& forall|x: Seq<u8>| x != upload_id@ ==> nb.has_upload(x) == b.has_upload(x)
                &&& forall|x: Seq<u8>| x != upload_id@ && b.has_upload(x)
                    ==> nb.upload(x) == b.upload(x)
            },
            final(self).upload_counter == old(self).upload_counter,
    {
        let idx = match self.find_bucket(bucket) {
            None => return Err(S3ErrorCode::NoSuchBucket),
            Some(i) => i,
        };
        let mut b = self.buckets.remove(idx);
        b.delete_upload(upload_id);
        self.buckets.insert(idx, b);
        proof {
            let pre_b = old(self).buckets@[idx as int];
            let nb = self.buckets@[idx as int];
            assert forall|j2: int| 0 <= j2 < nb.uploads@.len() implies all_digits(
                (#[trigger] nb.uploads@[j2]).upload_id@,
            ) && digits_val(nb.uploads@[j2].upload_id@) < self.upload_counter by {
                if pre_b.has_upload(upload_id@) {
                    let ri = pre_b.upload_idx(upload_id@);
                    assert(nb.uploads@ == pre_b.uploads@.remove(ri));
                    if j2 < ri {
                        assert(nb.uploads@[j2] == pre_b.uploads@[j2]);
                    } else {
                        assert(nb.uploads@[j2] == pre_b.uploads@[j2 + 1]);
                    }
                } else {
                    assert(nb.uploads@ == pre_b.uploads@);
                    assert(nb.uploads@[j2] == pre_b.uploads@[j2]);
                }
            }
            assert(System::uploads_fresh(nb, self.upload_counter));
            assert(self.buckets@ =~= old(self).buckets@.update(idx as int, nb));
            System::lemma_update_wf(*old(self), *self, idx as int);
        }
        Ok(())
    }

    /// Lists the parts of an upload: number, size and ETag, in part-number
    /// order.
    pub fn list_parts(&self, bucket: &Vec<u8>, upload_id: &Vec<u8>) -> (r: Result<
        Vec<(u32, usize, Vec<u8>)>,
        S3ErrorCode,
    >)
        requires
            self.wf(),
        ensures
            r == Err::<Vec<(u32, usize, Vec<u8>)>, S3ErrorCode>(S3ErrorCode::NoSuchBucket)
                <==> !self.has_bucket(bucket@),
            r == Err::<Vec<(u32, usize, Vec<u8>)>, S3ErrorCode>(S3ErrorCode::NoSuchUpload)
                <==> (self.has_bucket(bucket@) && !self.bucket(bucket@).has_upload(upload_id@)),
            r is Ok <==> (self.has_bucket(bucket@) && self.bucket(bucket@).has_upload(upload_id@)),
            r matches Ok(v) ==> {
                let u = self.bucket(bucket@).upload(upload_id@);
                &&& v@.len() == u.parts@.len()
                &&& forall|i: int|
                    0 <= i < v@.len() ==> (#[trigger] v@[i]).0 == u.parts@[i].part_number
                        && v@[i].1 == u.parts@[i].body@.len() && v@[i].2@ == u.parts@[i].etag@
            },
    {
        let idx = match self.find_bucket(bucket) {
            None => return Err(S3ErrorCode::NoSuchBucket),
            Some(i) => i,
        };
        let uidx = match self.buckets[idx].find_upload(upload_id) {
            None => return Err(S3ErrorCode::NoSuchUpload),
            Some(i) => i,
        };
        let u = &self.buckets[idx].uploads[uidx];
        let mut v: Vec<(u32, usize, Vec<u8>)> = Vec::new();
        let mut i: usize = 0;
        while i < u.parts.len()
            invariant
                i <= u.parts@.len(),
                v@.len() == i,
                forall|j: int|
                    0 <= j < i ==> (#[trigger] v@[j]).0 == u.parts@[j].part_number && v@[j].1
                        == u.parts@[j].body@.len() && v@[j].2@ == u.parts@[j].etag@,
            decreases u.parts@.len() - i,
        {
            v.push((u.parts[i].part_number, u.parts[i].body.len(), clone_bytes(&u.parts[i].etag)));
            i += 1;
        }
        Ok(v)
    }

    /// Lists the in-progress multipart uploads of a bucket: key and upload
    /// id of each.
    pub fn list_multipart_uploads(&self, bucket: &Vec<u8>) -> (r: Result<
        Vec<(Vec<u8>, Vec<u8>)>,
        S3ErrorCode,
    >)
        requires
            self.wf(),
        ensures
            r == Err::<Vec<(Vec<u8>, Vec<u8>)>, S3ErrorCode>(S3ErrorCode::NoSuchBucket)
                <==> !self.has_bucket(bucket@),
            r is Ok <==> self.has_bucket(bucket@),
            r matches Ok(v) ==> {
                let b = self.bucket(bucket@);
                &&& v@.len() == b.uploads@.len()
                &&& forall|i: int|
                    0 <= i < v@.len() ==> (#[trigger] v@[i]).0@ == b.uploads@[i].key@ && v@[i].1@
                        == b.uploads@[i].upload_id@
            },
    {
        let idx = match self.find_bucket(bucket) {
            None => return Err(S3ErrorCode::NoSuchBucket),
            Some(i) => i,
        };
        let b = &self.buckets[idx];
        let mut v: Vec<(Vec<u8>, Vec<u8>)> = Vec::new();
        let mut i: usize = 0;
        while i < b.uploads.len()
            invariant
                i <= b.uploads@.len(),
                v@.len() == i,
                forall|j: int|
                    0 <= j < i ==> (#[trigger] v@[j]).0@ == b.uploads@[j].key@ && v@[j].1@
                        == b.uploads@[j].upload_id@,
            decreases b.uploads@.len() - i,
        {
            v.push((clone_bytes(&b.uploads[i].key), clone_bytes(&b.uploads[i].upload_id)));
            i += 1;
        }
        Ok(v)
    }
}

} // verus!
