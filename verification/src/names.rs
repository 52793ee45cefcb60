//! Validation of bucket names and object keys.
//!
//! Bucket names follow the S3 naming rules: 3 to 63 bytes, lowercase
//! alphanumerics, hyphens and dots, starting and ending with an
//! alphanumeric, no two punctuation bytes in a row, and not shaped like an
//! IPv4 address. Object keys are 1 to 1024 bytes of UTF-8 with no NUL,
//! are not absolute, contain no `..` path component, and stay out of the
//! reserved `.s3s` namespace.

use vstd::prelude::*;

verus! {

pub open spec fn is_digit(c: u8) -> bool {
    48 <= c <= 57
}

pub open spec fn is_lower_alnum(c: u8) -> bool {
    (97 <= c <= 122) || is_digit(c)
}

/// Hyphen or dot: the punctuation S3 allows inside a bucket name.
pub open spec fn is_bucket_punct(c: u8) -> bool {
    c == 45 || c == 46
}

pub open spec fn is_bucket_char(c: u8) -> bool {
    is_lower_alnum(c) || is_bucket_punct(c)
}

/// The name has the shape of an IPv4 address: four dot-separated,
/// nonempty, all-digit groups.
pub open spec fn ip_like(s: Seq<u8>) -> bool {
    &&& s.len() > 0
    &&& forall|i: int| 0 <= i < s.len() ==> (is_digit(#[trigger] s[i]) || s[i] == 46)
    &&& count_byte(s, 46) == 3
    &&& s[0] != 46
    &&& s[s.len() - 1] != 46
    &&& forall|i: int| 0 <= i < s.len() - 1 ==> !(#[trigger] s[i] == 46 && s[i + 1] == 46)
}

/// How many times `b` occurs in `s`.
pub open spec fn count_byte(s: Seq<u8>, b: u8) -> nat
    decreases s.len(),
{
    if s.len() == 0 {
        0
    } else {
        count_byte(s.drop_last(), b) + if s.last() == b { 1nat } else { 0nat }
    }
}

/// A name satisfying the S3 bucket-naming rules.
pub open spec fn valid_bucket_name(s: Seq<u8>) -> bool {
    &&& 3 <= s.len() <= 63
    &&& forall|i: int| 0 <= i < s.len() ==> is_bucket_char(#[trigger] s[i])
    &&& is_lower_alnum(s[0])
    &&& is_lower_alnum(s[s.len() - 1])
    &&& forall|i: int| 0 <= i < s.len() - 1
        ==> !(is_bucket_punct(#[trigger] s[i]) && is_bucket_punct(s[i + 1]))
    &&& !ip_like(s)
}

/// A `..` path component stands at position `i` of `k`.
pub open spec fn dotdot_at(k: Seq<u8>, i: int) -> bool {
    &&& 0 <= i
    &&& i + 2 <= k.len()
    &&& k[i] == 46
    &&& k[i + 1] == 46
    &&& (i == 0 || k[i - 1] == 47)
    &&& (i + 2 == k.len() || k[i + 2] == 47)
}

pub open spec fn has_dotdot_component(k: Seq<u8>) -> bool {
    exists|i: int| dotdot_at(k, i)
}

/// The key collides with the engine's reserved `.s3s` namespace.
pub open spec fn reserved_key(k: Seq<u8>) -> bool {
    ||| k == seq![46u8, 115u8, 51u8, 115u8]
    ||| (k.len() >= 5 && k.take(5) == seq![46u8, 115u8, 51u8, 115u8, 47u8])
}

/// A key the engine accepts.
pub open spec fn valid_key(k: Seq<u8>) -> bool {
    &&& 1 <= k.len() <= 1024
    &&& forall|i: int| 0 <= i < k.len() ==> #[trigger] k[i] != 0
    &&& k[0] != 47
    &&& !has_dotdot_component(k)
    &&& !reserved_key(k)
}

/// Decides whether a name is a valid bucket name.
pub fn check_bucket_name(name: &Vec<u8>) -> (r: bool)
    ensures
        r == valid_bucket_name(name@),
{
    let n = name.len();
    if n < 3 || n > 63 {
        return false;
    }
    let mut i: usize = 0;
    let mut dots: usize = 0;
    let mut all_digit_or_dot = true;
    while i < n
        invariant
            0 < n == name@.len() <= 63,
            i <= n,
            forall|j: int| 0 <= j < i ==> is_bucket_char(#[trigger] name@[j]),
            forall|j: int| 0 <= j < i - 1
                ==> !(is_bucket_punct(#[trigger] name@[j]) && is_bucket_punct(name@[j + 1])),
            dots == count_byte(name@.take(i as int), 46),
            dots <= i,
            all_digit_or_dot == forall|j: int|
                0 <= j < i ==> (is_digit(#[trigger] name@[j]) || name@[j] == 46),
        decreases n - i,
    {
        let c = name[i];
        let ok_char = (97 <= c && c <= 122) || (48 <= c && c <= 57) || c == 45 || c == 46;
        if !ok_char {
            return false;
        }
        if i > 0 {
            let p = name[i - 1];
            if (p == 45 || p == 46) && (c == 45 || c == 46) {
                return false;
            }
        }
        if c == 46 {
            dots += 1;
        }
        if !((48 <= c && c <= 57) || c == 46) {
            all_digit_or_dot = false;
        }
        i += 1;
        proof {
            assert(name@.take(i as int).drop_last() =~= name@.take(i - 1));
        }
    }
    proof {
        assert(name@.take(n as int) =~= name@);
    }
    let first = name[0];
    let last = name[n - 1];
    if !((97 <= first && first <= 122) || (48 <= first && first <= 57)) {
        return false;
    }
    if !((97 <= last && last <= 122) || (48 <= last && last <= 57)) {
        return false;
    }
    // Adjacent dots are already excluded, so the name is IP-like exactly
    // when it is all digits and dots with three dots.
    if all_digit_or_dot && dots == 3 {
        return false;
    }
    proof {
        if ip_like(name@) {
            assert(all_digit_or_dot && dots == 3);
        }
    }
    true
}

/// Decides whether a key is one the engine accepts.
pub fn check_key(k: &Vec<u8>) -> (r: bool)
    ensures
        r == valid_key(k@),
{
    let n = k.len();
    if n < 1 || n > 1024 {
        return false;
    }
    if k[0] == 47 {
        return false;
    }
    // reserved namespace
    if n == 4 && k[0] == 46 && k[1] == 115 && k[2] == 51 && k[3] == 115 {
        proof {
            assert(k@ =~= seq![46u8, 115u8, 51u8, 115u8]);
        }
        return false;
    }
    if n >= 5 && k[0] == 46 && k[1] == 115 && k[2] == 51 && k[3] == 115 && k[4] == 47 {
        proof {
            assert(k@.take(5) =~= seq![46u8, 115u8, 51u8, 115u8, 47u8]);
        }
        return false;
    }
    proof {
        if k@ == seq![46u8, 115u8, 51u8, 115u8] {
            assert(k@.len() == 4 && k@[0] == 46 && k@[1] == 115 && k@[2] == 51 && k@[3] == 115);
        }
        if k@.len() >= 5 && k@.take(5) == seq![46u8, 115u8, 51u8, 115u8, 47u8] {
            assert(k@[0] == k@.take(5)[0]);
            assert(k@[1] == k@.take(5)[1]);
            assert(k@[2] == k@.take(5)[2]);
            assert(k@[3] == k@.take(5)[3]);
            assert(k@[4] == k@.take(5)[4]);
        }
    }
    let mut i: usize = 0;
    while i < n
        invariant
            0 < n == k@.len(),
            i <= n,
            forall|j: int| 0 <= j < i ==> #[trigger] k@[j] != 0,
            forall|j: int| 0 <= j < i ==> !dotdot_at(k@, j),
        decreases n - i,
    {
        if k[i] == 0 {
            return false;
        }
        if k[i] == 46 && i + 1 < n && k[i + 1] == 46 {
            let before_ok = i == 0 || k[i - 1] == 47;
            let after_ok = i + 2 == n || k[i + 2] == 47;
            if before_ok && after_ok {
                proof {
                    assert(dotdot_at(k@, i as int));
                }
                return false;
            }
        }
        proof {
            assert(!dotdot_at(k@, i as int));
        }
        i += 1;
    }
    proof {
        assert(forall|j: int| !(0 <= j < k@.len()) ==> !dotdot_at(k@, j));
        assert(forall|j: int| 0 <= j < k@.len() ==> !dotdot_at(k@, j));
        assert(!has_dotdot_component(k@));
    }
    true
}

} // verus!
