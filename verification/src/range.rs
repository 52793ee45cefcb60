//! HTTP byte ranges: the `bytes=a-b`, `bytes=a-` and `bytes=-n` forms,
//! their satisfiability against a body length, and the window of bytes
//! each selects.

use vstd::prelude::*;
use crate::names::is_digit;
use crate::bytes::{digits_val, all_digits};

verus! {

/// A parsed byte-range request.
#[derive(PartialEq, Eq, Structural, Clone, Copy, Debug)]
pub enum RangeReq {
    /// `bytes=a-b`: bytes `a` through `b`, both inclusive.
    FromTo(u64, u64),
    /// `bytes=a-`: bytes from `a` to the end.
    From(u64),
    /// `bytes=-n`: the final `n` bytes.
    Suffix(u64),
}

/// Whether the range selects at least one byte of a body of length `len`.
pub open spec fn range_satisfiable(r: RangeReq, len: nat) -> bool {
    match r {
        RangeReq::FromTo(a, b) => a <= b && a < len,
        RangeReq::From(a) => a < len,
        RangeReq::Suffix(n) => n > 0 && len > 0,
    }
}

/// The first byte selected from a body of length `len`.
pub open spec fn range_start(r: RangeReq, len: nat) -> int {
    match r {
        RangeReq::FromTo(a, b) => a as int,
        RangeReq::From(a) => a as int,
        RangeReq::Suffix(n) => if n >= len {
            0
        } else {
            len - n
        },
    }
}

/// One past the last byte selected from a body of length `len`.
pub open spec fn range_end(r: RangeReq, len: nat) -> int {
    match r {
        RangeReq::FromTo(a, b) => if b + 1 <= len {
            b + 1
        } else {
            len as int
        },
        RangeReq::From(a) => len as int,
        RangeReq::Suffix(n) => len as int,
    }
}

/// The position of the first occurrence of `b` in `s`.
pub open spec fn first_at(s: Seq<u8>, b: u8, i: int) -> bool {
    0 <= i < s.len() && s[i] == b && forall|j: int| 0 <= j < i ==> s[j] != b
}

/// The header prefix `bytes=`.
pub open spec fn bytes_eq_prefix() -> Seq<u8> {
    seq![98u8, 121u8, 116u8, 101u8, 115u8, 61u8]
}

/// What a well-formed `Range` header denotes. `None` when the header is
/// malformed or a bound does not fit in 64 bits.
pub open spec fn range_parse_spec(s: Seq<u8>) -> Option<RangeReq> {
    if s.len() < 7 || s.take(6) != bytes_eq_prefix() {
        None
    } else {
        let rest = s.skip(6);
        if !(exists|i: int| first_at(rest, 45, i)) {
            None
        } else {
            let d = choose|i: int| first_at(rest, 45, i);
            let left = rest.take(d);
            let right = rest.skip(d + 1);
            if left.len() == 0 {
                if all_digits(right) && digits_val(right) <= u64::MAX {
                    Some(RangeReq::Suffix(digits_val(right) as u64))
                } else {
                    None
                }
            } else if all_digits(left) && digits_val(left) <= u64::MAX {
                if right.len() == 0 {
                    Some(RangeReq::From(digits_val(left) as u64))
                } else if all_digits(right) && digits_val(right) <= u64::MAX {
                    Some(RangeReq::FromTo(digits_val(left) as u64, digits_val(right) as u64))
                } else {
                    None
                }
            } else {
                None
            }
        }
    }
}

/// Resolves a range against a body length: the selected window, or
/// `None` when the range is unsatisfiable.
pub fn range_bounds(r: &RangeReq, len: usize) -> (out: Option<(usize, usize)>)
    ensures
        match out {
            Some(se) => range_satisfiable(*r, len as nat) && se.0 == range_start(*r, len as nat)
                && se.1 == range_end(*r, len as nat) && se.0 <= se.1 <= len,
            None => !range_satisfiable(*r, len as nat),
        },
{
    match r {
        RangeReq::FromTo(a, b) => {
            if *a <= *b && *a < len as u64 {
                let start = *a as usize;
                let end = if *b >= (len as u64) - 1 {
                    len
                } else {
                    (*b + 1) as usize
                };
                Some((start, end))
            } else {
                None
            }
        },
        RangeReq::From(a) => {
            if *a < len as u64 {
                Some((*a as usize, len))
            } else {
                None
            }
        },
        RangeReq::Suffix(n) => {
            if *n > 0 && len > 0 {
                let start = if *n >= len as u64 {
                    0
                } else {
                    len - *n as usize
                };
                Some((start, len))
            } else {
                None
            }
        },
    }
}

/// Parses the digit run `s[from..to]`; `None` when it is empty, holds a
/// non-digit, or exceeds 64 bits.
fn parse_digits(s: &Vec<u8>, from: usize, to: usize) -> (r: Option<u64>)
    requires
        from <= to <= s@.len(),
    ensures
        match r {
            Some(v) => all_digits(s@.subrange(from as int, to as int)) && digits_val(
                s@.subrange(from as int, to as int),
            ) == v,
            None => !(all_digits(s@.subrange(from as int, to as int)) && digits_val(
                s@.subrange(from as int, to as int),
            ) <= u64::MAX),
        },
{
    if from == to {
        proof {
            assert(s@.subrange(from as int, to as int).len() == 0);
        }
        return None;
    }
    let mut i: usize = from;
    let mut v: u64 = 0;
    let mut over: bool = false;
    while i < to
        invariant
            from <= i <= to <= s@.len(),
            forall|j: int| from <= j < i ==> is_digit(#[trigger] s@[j]),
            !over ==> v == digits_val(s@.subrange(from as int, i as int)),
            over ==> digits_val(s@.subrange(from as int, i as int)) > u64::MAX,
        decreases to - i,
    {
        let c = s[i];
        if !(48 <= c && c <= 57) {
            proof {
                assert(s@.subrange(from as int, to as int)[i - from] == s@[i as int]);
            }
            return None;
        }
        let d = (c - 48) as u64;
        proof {
            assert(s@.subrange(from as int, i + 1).drop_last() =~= s@.subrange(
                from as int,
                i as int,
            ));
            assert(s@.subrange(from as int, i + 1).last() == s@[i as int]);
        }
        let ghost prev: nat = digits_val(s@.subrange(from as int, i as int));
        if over {
            proof {
                assert(prev * 10 + (d as nat) > u64::MAX) by (nonlinear_arith)
                    requires prev > u64::MAX, d >= 0;
            }
        } else if v > (u64::MAX - d) / 10 {
            over = true;
            proof {
                assert(prev * 10 + (d as nat) > u64::MAX) by (nonlinear_arith)
                    requires prev == v, v > (u64::MAX - d) / 10, d <= 9, d >= 0;
            }
        } else {
            proof {
                assert(v * 10 + d <= u64::MAX) by (nonlinear_arith)
                    requires v <= (u64::MAX - d) / 10, d <= 9, d >= 0;
            }
            v = v * 10 + d;
        }
        i += 1;
    }
    proof {
        assert(s@.subrange(from as int, to as int) =~= s@.subrange(from as int, i as int));
    }
    if over {
        None
    } else {
        Some(v)
    }
}

/// Parses a `Range` header. Returns exactly what the grammar denotes:
/// `None` for anything malformed.
pub fn parse_range(s: &Vec<u8>) -> (r: Option<RangeReq>)
    ensures
        r == range_parse_spec(s@),
{
    if s.len() < 7 {
        return None;
    }
    if !(s[0] == 98 && s[1] == 121 && s[2] == 116 && s[3] == 101 && s[4] == 115 && s[5] == 61) {
        proof {
            assert(s@.take(6)[0] == s@[0]);
            assert(s@.take(6)[1] == s@[1]);
            assert(s@.take(6)[2] == s@[2]);
            assert(s@.take(6)[3] == s@[3]);
            assert(s@.take(6)[4] == s@[4]);
            assert(s@.take(6)[5] == s@[5]);
        }
        return None;
    }
    proof {
        assert(s@.take(6) =~= bytes_eq_prefix());
    }
    let n = s.len();
    let dash = crate::bytes::find_byte_from(s, 6, 45);
    let ghost rest = s@.skip(6);
    let d: usize = match dash {
        None => {
            proof {
                assert(forall|i: int| 0 <= i < rest.len() ==> rest[i] == s@[i + 6]);
            }
            return None;
        },
        Some(d) => d,
    };
    proof {
        assert(forall|i: int| 0 <= i < rest.len() ==> rest[i] == s@[i + 6]);
        assert(first_at(rest, 45, d - 6));
        let dd = choose|i: int| first_at(rest, 45, i);
        if dd != d - 6 {
            if dd < d - 6 {
                assert(rest[dd] == 45);
            } else {
                assert(rest[d - 6] == 45);
            }
        }
        assert(rest.take(d - 6) =~= s@.subrange(6, d as int));
        assert(rest.skip(d - 6 + 1) =~= s@.subrange(d + 1, n as int));
    }
    if d == 6 {
        // suffix form: bytes=-n
        match parse_digits(s, 7, n) {
            Some(v) => Some(RangeReq::Suffix(v)),
            None => None,
        }
    } else {
        let left = parse_digits(s, 6, d);
        match left {
            None => None,
            Some(a) => {
                if d + 1 == n {
                    Some(RangeReq::From(a))
                } else {
                    match parse_digits(s, d + 1, n) {
                        Some(b) => Some(RangeReq::FromTo(a, b)),
                        None => None,
                    }
                }
            },
        }
    }
}

} // verus!
