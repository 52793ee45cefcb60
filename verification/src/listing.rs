//! Bucket listings: prefix and delimiter filtering, byte-lexicographic
//! order, capped page size, and resumption strictly after a given key.

use vstd::prelude::*;
use crate::bytes::{
    lex_lt, lex_le, is_prefix, starts_with, lex_cmp, bytes_eq, clone_bytes, copy_range,
    find_byte_from, ByteOrd, lemma_lex_trans, lemma_lex_total, lemma_lex_asym,
};
use crate::engine::{System, Bucket};
use crate::errors::S3ErrorCode;

verus! {

/// A key the listing considers: present in the bucket, under the prefix,
/// and strictly after the resumption key when one is given.
pub open spec fn selected(b: Bucket, prefix: Seq<u8>, after: Option<Seq<u8>>, k: Seq<u8>) -> bool {
    &&& b.has_key(k)
    &&& is_prefix(prefix, k)
    &&& match after {
        Some(a) => lex_lt(a, k),
        None => true,
    }
}

/// The delimiter occurs in the key somewhere after the prefix, so the key
/// collapses into a common prefix.
pub open spec fn key_collapses(prefix: Seq<u8>, delim: Option<u8>, k: Seq<u8>) -> bool {
    match delim {
        Some(d) => exists|i: int| prefix.len() <= i < k.len() && #[trigger] k[i] == d,
        None => false,
    }
}

/// `i` is the first occurrence of the delimiter after the prefix.
pub open spec fn collapse_at(prefix: Seq<u8>, d: u8, k: Seq<u8>, i: int) -> bool {
    &&& prefix.len() <= i < k.len()
    &&& k[i] == d
    &&& forall|j: int| prefix.len() <= j < i ==> k[j] != d
}

/// The common prefix a collapsing key belongs to: the key up to and
/// including the first delimiter after the prefix.
pub open spec fn cp_of(prefix: Seq<u8>, d: u8, k: Seq<u8>) -> Seq<u8> {
    k.take((choose|i: int| collapse_at(prefix, d, k, i)) + 1)
}

/// The first delimiter position is unique.
pub proof fn lemma_collapse_at_unique(prefix: Seq<u8>, d: u8, k: Seq<u8>, i: int, j: int)
    requires
        collapse_at(prefix, d, k, i),
        collapse_at(prefix, d, k, j),
    ensures
        i == j,
{
    if i < j {
        assert(k[i] != d);
    }
    if j < i {
        assert(k[j] != d);
    }
}

/// The listed key, or its common prefix, stands in the result.
pub open spec fn accounted(
    prefix: Seq<u8>,
    delim: Option<u8>,
    keys: Seq<Vec<u8>>,
    cps: Seq<Vec<u8>>,
    k: Seq<u8>,
) -> bool {
    if key_collapses(prefix, delim, k) {
        exists|i: int|
            0 <= i < cps.len() && (#[trigger] cps[i])@ == cp_of(prefix, delim->Some_0, k)
    } else {
        exists|i: int| 0 <= i < keys.len() && (#[trigger] keys[i])@ == k
    }
}

/// Growing the result by new entries keeps every account.
proof fn lemma_accounted_grow(
    prefix: Seq<u8>,
    delim: Option<u8>,
    keys1: Seq<Vec<u8>>,
    keys2: Seq<Vec<u8>>,
    cps1: Seq<Vec<u8>>,
    cps2: Seq<Vec<u8>>,
    k: Seq<u8>,
)
    requires
        accounted(prefix, delim, keys1, cps1, k),
        keys1.len() <= keys2.len(),
        forall|t: int| 0 <= t < keys1.len() ==> #[trigger] keys2[t] == keys1[t],
        cps1.len() <= cps2.len(),
        forall|t: int| 0 <= t < cps1.len() ==> #[trigger] cps2[t] == cps1[t],
    ensures
        accounted(prefix, delim, keys2, cps2, k),
{
    if key_collapses(prefix, delim, k) {
        let t = choose|t: int|
            0 <= t < cps1.len() && (#[trigger] cps1[t])@ == cp_of(prefix, delim->Some_0, k);
        assert(cps2[t]@ == cp_of(prefix, delim->Some_0, k));
    } else {
        let t = choose|t: int| 0 <= t < keys1.len() && (#[trigger] keys1[t])@ == k;
        assert(keys2[t]@ == k);
    }
}

/// One page of a listing.
#[derive(Debug)]
pub struct ListResult {
    pub keys: Vec<Vec<u8>>,
    pub common_prefixes: Vec<Vec<u8>>,
    pub is_truncated: bool,
    pub next_after: Option<Vec<u8>>,
}

/// Every selected key splits on a resumption bound one way or the other:
/// at or before the bound — so the page that ended at the bound accounts
/// for it — or strictly after it, where the follow-up call starting after
/// the bound selects it. The two sides never overlap, so chained pages
/// enumerate every selected key exactly once.
pub proof fn lemma_continuation_partition(
    b: Bucket,
    prefix: Seq<u8>,
    nk: Seq<u8>,
    k: Seq<u8>,
)
    requires
        selected(b, prefix, None, k),
    ensures
        lex_le(k, nk) <==> !selected(b, prefix, Some(nk), k),
        lex_le(k, nk) || selected(b, prefix, Some(nk), k),
{
    lemma_lex_total(k, nk);
    if lex_lt(nk, k) {
        lemma_lex_asym(nk, k);
    }
    if lex_lt(k, nk) {
        lemma_lex_asym(k, nk);
    }
}

impl System {
    /// Lists one page of a bucket's keys.
    ///
    /// Keys under the prefix and strictly after `after` are walked in
    /// byte-lexicographic order. A key holding the delimiter after the
    /// prefix collapses into the common prefix that ends at the first
    /// delimiter; other keys are returned themselves. Entries stop at the
    /// page cap (at most 1000); a truncated page names the last key it
    /// walked, and a following call strictly after that key goes on from
    /// there.
    #[verifier::rlimit(100)]
    pub fn list_objects_v2(
        &self,
        bucket: &Vec<u8>,
        prefix: &Vec<u8>,
        delimiter: Option<u8>,
        after: Option<&Vec<u8>>,
        max_keys: usize,
    ) -> (r: Result<ListResult, S3ErrorCode>)
        requires
            self.wf(),
        ensures
            r == Err::<ListResult, S3ErrorCode>(S3ErrorCode::NoSuchBucket) <==> !self.has_bucket(
                bucket@,
            ),
            r is Ok <==> self.has_bucket(bucket@),
            r matches Ok(out) ==> {
                let b = self.bucket(bucket@);
                let m = if max_keys > 1000 {
                    1000int
                } else {
                    max_keys as int
                };
                let aft = match after {
                    Some(a) => Some(a@),
                    None => None,
                };
                &&& out.keys@.len() + out.common_prefixes@.len() <= m
                &&& (m == 0 ==> out.keys@.len() == 0 && out.common_prefixes@.len() == 0
                    && !out.is_truncated)
                &&& forall|i: int|
                    0 <= i < out.keys@.len() ==> selected(b, prefix@, aft, (#[trigger] out.keys@[i])@)
                        && !key_collapses(prefix@, delimiter, out.keys@[i]@)
                &&& forall|i: int|
                    0 <= i < out.common_prefixes@.len() ==> exists|k: Seq<u8>|
                        selected(b, prefix@, aft, k) && key_collapses(prefix@, delimiter, k) && (
                        #[trigger] out.common_prefixes@[i])@ == cp_of(prefix@, delimiter->Some_0, k)
                &&& match delimiter {
                    Some(d) => forall|i: int|
                        0 <= i < out.common_prefixes@.len() ==> (
                        #[trigger] out.common_prefixes@[i])@.len() > prefix@.len() && is_prefix(
                            prefix@,
                            out.common_prefixes@[i]@,
                        ) && out.common_prefixes@[i]@.last() == d,
                    None => out.common_prefixes@.len() == 0,
                }
                &&& forall|i: int, j: int|
                    0 <= i < j < out.keys@.len() ==> lex_lt(
                        (#[trigger] out.keys@[i])@,
                        (#[trigger] out.keys@[j])@,
                    )
                &&& (!out.is_truncated ==> out.next_after is None)
                &&& (!out.is_truncated && m > 0 ==> forall|k: Seq<u8>|
                    selected(b, prefix@, aft, k) ==> accounted(
                        prefix@,
                        delimiter,
                        out.keys@,
                        out.common_prefixes@,
                        k,
                    ))
                &&& (out.is_truncated ==> match out.next_after {
                    Some(nk) => {
                        &&& selected(b, prefix@, aft, nk@)
                        &&& forall|k: Seq<u8>|
                            selected(b, prefix@, aft, k) && lex_le(k, nk@) ==> accounted(
                                prefix@,
                                delimiter,
                                out.keys@,
                                out.common_prefixes@,
                                k,
                            )
                        &&& forall|i: int|
                            0 <= i < out.keys@.len() ==> lex_le((#[trigger] out.keys@[i])@, nk@)
                    },
                    None => false,
                })
            },
    {
        let idx = match self.find_bucket(bucket) {
            None => return Err(S3ErrorCode::NoSuchBucket),
            Some(i) => i,
        };
        let b = &self.buckets[idx];
        let m: usize = if max_keys > 1000 {
            1000
        } else {
            max_keys
        };
        let mut keys: Vec<Vec<u8>> = Vec::new();
        let mut cps: Vec<Vec<u8>> = Vec::new();
        let mut count: usize = 0;
        let mut last: Option<Vec<u8>> = None;
        let mut truncated = false;
        let ghost aft: Option<Seq<u8>> = match after {
            Some(a) => Some(a@),
            None => None,
        };
        if m == 0 {
            return Ok(ListResult {
                keys,
                common_prefixes: cps,
                is_truncated: false,
                next_after: None,
            });
        }
        let mut i: usize = 0;
        while i < b.objects.len() && !truncated
            invariant
                self.wf(),
                idx < self.buckets@.len(),
                *b == self.buckets@[idx as int],
                b.wf(),
                aft == match after {
                    Some(a) => Some(a@),
                    None => None,
                },
                1 <= m <= 1000,
                i <= b.objects@.len(),
                count == keys@.len() + cps@.len(),
                count <= m,
                forall|t: int|
                    0 <= t < keys@.len() ==> selected(*b, prefix@, aft, (#[trigger] keys@[t])@)
                        && !key_collapses(prefix@, delimiter, keys@[t]@),
                forall|t: int|
                    0 <= t < cps@.len() ==> exists|k: Seq<u8>|
                        selected(*b, prefix@, aft, k) && key_collapses(prefix@, delimiter, k) && (
                        #[trigger] cps@[t])@ == cp_of(prefix@, delimiter->Some_0, k),
                match delimiter {
                    Some(d) => forall|t: int|
                        0 <= t < cps@.len() ==> (#[trigger] cps@[t])@.len() > prefix@.len()
                            && is_prefix(prefix@, cps@[t]@) && cps@[t]@.last() == d,
                    None => cps@.len() == 0,
                },
                forall|t1: int, t2: int|
                    0 <= t1 < t2 < keys@.len() ==> lex_lt(
                        (#[trigger] keys@[t1])@,
                        (#[trigger] keys@[t2])@,
                    ),
                forall|j: int|
                    0 <= j < i && selected(*b, prefix@, aft, (#[trigger] b.objects@[j]).key@)
                        ==> accounted(prefix@, delimiter, keys@, cps@, b.objects@[j].key@),
                match last {
                    Some(l) => {
                        &&& selected(*b, prefix@, aft, l@)
                        &&& exists|j: int| 0 <= j < i && (#[trigger] b.objects@[j]).key@ == l@
                        &&& forall|j: int|
                            0 <= j < i && selected(*b, prefix@, aft, (#[trigger] b.objects@[j]).key@)
                                ==> lex_le(b.objects@[j].key@, l@)
                        &&& forall|t: int|
                            0 <= t < keys@.len() ==> lex_le((#[trigger] keys@[t])@, l@)
                    },
                    None => keys@.len() == 0 && cps@.len() == 0 && forall|j: int|
                        0 <= j < i ==> !selected(*b, prefix@, aft, (#[trigger] b.objects@[j]).key@),
                },
                truncated ==> {
                    &&& count == m
                    &&& last is Some
                    &&& i < b.objects@.len()
                    &&& selected(*b, prefix@, aft, b.objects@[i as int].key@)
                    &&& lex_lt(last->Some_0@, b.objects@[i as int].key@)
                },
            decreases b.objects@.len() - i, (if truncated { 0int } else { 1int }),
        {
            let k = &b.objects[i].key;
            if !starts_with(k, prefix) {
                i += 1;
                continue;
            }
            match after {
                Some(a) => {
                    let c = lex_cmp(a, k);
                    if !matches!(c, ByteOrd::Lt) {
                        i += 1;
                        continue;
                    }
                },
                None => {},
            }
            // k is a selected candidate
            proof {
                assert(b.objects@[i as int].key@ == k@);
                assert(b.has_key(k@));
                assert(selected(*b, prefix@, aft, k@));
                if last is Some {
                    let l = last->Some_0;
                    let j0 = choose|j: int| 0 <= j < i && (#[trigger] b.objects@[j]).key@ == l@;
                    assert(lex_lt(b.objects@[j0].key@, b.objects@[i as int].key@));
                    assert(lex_lt(l@, k@));
                }
            }
            let mut collapsed = false;
            match delimiter {
                Some(d) => {
                    match find_byte_from(k, prefix.len(), d) {
                        Some(p) => {
                            collapsed = true;
                            proof {
                                assert(collapse_at(prefix@, d, k@, p as int));
                                assert(key_collapses(prefix@, Some(d), k@));
                                lemma_collapse_at_unique(
                                    prefix@,
                                    d,
                                    k@,
                                    p as int,
                                    choose|q: int| collapse_at(prefix@, d, k@, q),
                                );
                            }
                            let cp = copy_range(k, 0, p + 1);
                            proof {
                                assert(cp@ =~= cp_of(prefix@, d, k@));
                            }
                            let absorb = if cps.len() > 0 {
                                bytes_eq(&cps[cps.len() - 1], &cp)
                            } else {
                                false
                            };
                            if absorb {
                                proof {
                                    assert(cps@[cps@.len() - 1]@ == cp_of(prefix@, d, k@));
                                    assert(accounted(prefix@, delimiter, keys@, cps@, k@));
                                }
                            } else {
                                if count == m {
                                    truncated = true;
                                } else {
                                    let ghost pre_keys = keys@;
                                    let ghost pre_cps = cps@;
                                    proof {
                                        assert(cp@.last() == k@[p as int]);
                                        assert(cp@.len() > prefix@.len());
                                        assert(cp@.take(prefix@.len() as int) =~= k@.take(
                                            prefix@.len() as int,
                                        ));
                                        assert(is_prefix(prefix@, cp@));
                                    }
                                    cps.push(cp);
                                    count += 1;
                                    proof {
                                        assert((cps@[cps@.len() - 1])@ == cp_of(prefix@, d, k@));
                                        assert(accounted(prefix@, delimiter, keys@, cps@, k@));
                                        assert forall|j: int|
                                            0 <= j < i && selected(
                                                *b,
                                                prefix@,
                                                aft,
                                                (#[trigger] b.objects@[j]).key@,
                                            ) implies accounted(
                                            prefix@,
                                            delimiter,
                                            keys@,
                                            cps@,
                                            b.objects@[j].key@,
                                        ) by {
                                            lemma_accounted_grow(
                                                prefix@,
                                                delimiter,
                                                pre_keys,
                                                keys@,
                                                pre_cps,
                                                cps@,
                                                b.objects@[j].key@,
                                            );
                                        }
                                    }
                                }
                            }
                        },
                        None => {
                            proof {
                                if key_collapses(prefix@, Some(d), k@) {
                                    let q = choose|q: int|
                                        prefix@.len() <= q < k@.len() && #[trigger] k@[q] == d;
                                    assert(k@[q] == d);
                                }
                            }
                        },
                    }
                },
                None => {},
            }
            if !collapsed && !truncated {
                if count == m {
                    truncated = true;
                } else {
                    let ghost pre_keys = keys@;
                    let ghost pre_cps = cps@;
                    keys.push(clone_bytes(k));
                    count += 1;
                    proof {
                        assert(keys@[keys@.len() - 1]@ == k@);
                        assert(accounted(prefix@, delimiter, keys@, cps@, k@));
                        assert forall|j: int|
                            0 <= j < i && selected(
                                *b,
                                prefix@,
                                aft,
                                (#[trigger] b.objects@[j]).key@,
                            ) implies accounted(
                            prefix@,
                            delimiter,
                            keys@,
                            cps@,
                            b.objects@[j].key@,
                        ) by {
                            lemma_accounted_grow(
                                prefix@,
                                delimiter,
                                pre_keys,
                                keys@,
                                pre_cps,
                                cps@,
                                b.objects@[j].key@,
                            );
                        }
                        if last is Some {
                            let l = last->Some_0;
                            assert forall|t: int| 0 <= t < keys@.len() - 1 implies lex_lt(
                                (#[trigger] keys@[t])@,
                                k@,
                            ) by {
                                assert(lex_le(keys@[t]@, l@));
                                if keys@[t]@ != l@ {
                                    lemma_lex_trans(keys@[t]@, l@, k@);
                                }
                            }
                        }
                    }
                }
            }
            if truncated {
                proof {
                    assert(count == m);
                    if last is None {
                        assert(keys@.len() == 0 && cps@.len() == 0);
                        assert(count == 0);
                        assert(false);
                    }
                }
            } else {
                let newlast = clone_bytes(k);
                let ghost oldlast = last;
                last = Some(newlast);
                i += 1;
                proof {
                    assert(b.objects@[i - 1].key@ == k@);
                    assert forall|j: int|
                        0 <= j < i && selected(*b, prefix@, aft, (#[trigger] b.objects@[j]).key@)
                        implies lex_le(b.objects@[j].key@, k@) by {
                        if j < i - 1 && oldlast is Some {
                            let l = oldlast->Some_0;
                            assert(lex_le(b.objects@[j].key@, l@));
                            if b.objects@[j].key@ != l@ {
                                lemma_lex_trans(b.objects@[j].key@, l@, k@);
                            }
                        }
                    }
                    assert forall|t: int| 0 <= t < keys@.len() implies lex_le(
                        (#[trigger] keys@[t])@,
                        k@,
                    ) by {
                        if oldlast is Some {
                            let l = oldlast->Some_0;
                            if keys@[t]@ != k@ {
                                assert(lex_le(keys@[t]@, l@));
                                if keys@[t]@ != l@ {
                                    lemma_lex_trans(keys@[t]@, l@, k@);
                                }
                            }
                        } else {
                            assert(keys@.len() <= 1);
                        }
                    }
                }
            }
        }
        if truncated {
            let nk = match last {
                Some(l) => l,
                None => {
                    proof {
                        assert(false);
                    }
                    Vec::new()
                },
            };
            proof {
                let b2 = self.buckets@[idx as int];
                let j_stop = i as int;
                assert(lex_lt(nk@, b2.objects@[j_stop].key@));
                assert forall|k2: Seq<u8>|
                    selected(b2, prefix@, aft, k2) && lex_le(k2, nk@)
                    implies accounted(prefix@, delimiter, keys@, cps@, k2) by {
                    let j = b2.key_idx(k2);
                    assert(b2.objects@[j].key@ == k2);
                    if j >= j_stop {
                        if j > j_stop {
                            assert(lex_lt(b2.objects@[j_stop].key@, b2.objects@[j].key@));
                            lemma_lex_trans(nk@, b2.objects@[j_stop].key@, k2);
                        }
                        assert(lex_lt(nk@, k2));
                        if k2 == nk@ {
                            crate::bytes::lemma_lex_irrefl(nk@);
                        } else {
                            lemma_lex_asym(nk@, k2);
                        }
                    }
                }
            }
            Ok(ListResult {
                keys,
                common_prefixes: cps,
                is_truncated: true,
                next_after: Some(nk),
            })
        } else {
            proof {
                assert forall|k2: Seq<u8>| selected(self.buckets@[idx as int], prefix@, aft, k2)
                    implies accounted(prefix@, delimiter, keys@, cps@, k2) by {
                    let b2 = self.buckets@[idx as int];
                    let j = b2.key_idx(k2);
                    assert(b2.objects@[j].key@ == k2);
                }
            }
            Ok(ListResult { keys, common_prefixes: cps, is_truncated: false, next_after: None })
        }
    }
}

} // verus!
