//! Continuation tokens: base64 over the last emitted key, and the proof
//! that decoding gives the key back.

use vstd::prelude::*;

verus! {

/// The base64 alphabet character for a 6-bit value.
pub open spec fn b64_char(v: u8) -> u8 {
    if v < 26 {
        (65 + v) as u8
    } else if v < 52 {
        (97 + v - 26) as u8
    } else if v < 62 {
        (48 + v - 52) as u8
    } else if v == 62 {
        43
    } else {
        47
    }
}

/// The 6-bit value of an alphabet character, or -1.
pub open spec fn b64_val(c: u8) -> int {
    if 65 <= c <= 90 {
        c - 65
    } else if 97 <= c <= 122 {
        c - 97 + 26
    } else if 48 <= c <= 57 {
        c - 48 + 52
    } else if c == 43 {
        62
    } else if c == 47 {
        63
    } else {
        -1
    }
}

/// The character of a value decodes back to it, and is never the padding
/// character.
pub proof fn lemma_b64_char_val(v: u8)
    requires
        v < 64,
    ensures
        b64_val(b64_char(v)) == v,
        b64_char(v) != 61,
{
}

pub open spec fn enc_group3(a: u8, b: u8, c: u8) -> Seq<u8> {
    seq![
        b64_char(a / 4),
        b64_char(((a % 4) * 16 + b / 16) as u8),
        b64_char(((b % 16) * 4 + c / 64) as u8),
        b64_char(c % 64),
    ]
}

pub open spec fn enc_group2(a: u8, b: u8) -> Seq<u8> {
    seq![
        b64_char(a / 4),
        b64_char(((a % 4) * 16 + b / 16) as u8),
        b64_char(((b % 16) * 4) as u8),
        61u8,
    ]
}

pub open spec fn enc_group1(a: u8) -> Seq<u8> {
    seq![b64_char(a / 4), b64_char(((a % 4) * 16) as u8), 61u8, 61u8]
}

/// Base64 of a byte string, with padding.
pub open spec fn encode64(s: Seq<u8>) -> Seq<u8>
    decreases s.len(),
{
    if s.len() == 0 {
        Seq::<u8>::empty()
    } else if s.len() == 1 {
        enc_group1(s[0])
    } else if s.len() == 2 {
        enc_group2(s[0], s[1])
    } else {
        enc_group3(s[0], s[1], s[2]) + encode64(s.skip(3))
    }
}

/// What a base64 string denotes; `None` when it is not a canonical
/// encoding.
pub open spec fn decode64(t: Seq<u8>) -> Option<Seq<u8>>
    decreases t.len(),
{
    if t.len() == 0 {
        Some(Seq::<u8>::empty())
    } else if t.len() < 4 {
        None
    } else {
        let v0 = b64_val(t[0]);
        let v1 = b64_val(t[1]);
        if v0 < 0 || v1 < 0 {
            None
        } else if t.len() == 4 && t[3] == 61 {
            if t[2] == 61 {
                if v1 % 16 == 0 {
                    Some(seq![(v0 * 4 + v1 / 16) as u8])
                } else {
                    None
                }
            } else {
                let v2 = b64_val(t[2]);
                if v2 >= 0 && v2 % 4 == 0 {
                    Some(seq![(v0 * 4 + v1 / 16) as u8, ((v1 % 16) * 16 + v2 / 4) as u8])
                } else {
                    None
                }
            }
        } else {
            let v2 = b64_val(t[2]);
            let v3 = b64_val(t[3]);
            if v2 < 0 || v3 < 0 || t[3] == 61 {
                None
            } else {
                match decode64(t.skip(4)) {
                    None => None,
                    Some(rest) => Some(
                        seq![
                            (v0 * 4 + v1 / 16) as u8,
                            ((v1 % 16) * 16 + v2 / 4) as u8,
                            ((v2 % 4) * 64 + v3) as u8,
                        ] + rest,
                    ),
                }
            }
        }
    }
}

/// Decoding an encoded byte string gives the byte string back: tokens
/// resolve to exactly the key they were made from.
pub proof fn lemma_token_round_trip(s: Seq<u8>)
    ensures
        decode64(encode64(s)) == Some(s),
    decreases s.len(),
{
    if s.len() == 0 {
        assert(decode64(encode64(s)) == Some(Seq::<u8>::empty()));
        assert(s =~= Seq::<u8>::empty());
    } else if s.len() == 1 {
        let a = s[0];
        lemma_b64_char_val(a / 4);
        lemma_b64_char_val(((a % 4) * 16) as u8);
        let t = encode64(s);
        assert(t.len() == 4);
        assert(b64_val(t[0]) == a / 4);
        assert(b64_val(t[1]) == (a % 4) * 16);
        assert(((a % 4) * 16) % 16 == 0);
        assert((a / 4) * 4 + ((a % 4) * 16) / 16 == a);
        assert(decode64(t) == Some(seq![a]));
        assert(seq![a] =~= s);
    } else if s.len() == 2 {
        let a = s[0];
        let b = s[1];
        lemma_b64_char_val(a / 4);
        lemma_b64_char_val(((a % 4) * 16 + b / 16) as u8);
        lemma_b64_char_val(((b % 16) * 4) as u8);
        let t = encode64(s);
        assert(t.len() == 4);
        assert(b64_val(t[0]) == a / 4);
        assert(b64_val(t[1]) == (a % 4) * 16 + b / 16);
        assert(b64_val(t[2]) == (b % 16) * 4);
        assert(((a % 4) * 16 + b / 16) % 16 == b / 16);
        assert(((b % 16) * 4) % 4 == 0);
        assert((a / 4) * 4 + ((a % 4) * 16 + b / 16) / 16 == a);
        assert((((a % 4) * 16 + b / 16) % 16) * 16 + ((b % 16) * 4) / 4 == b);
        assert(decode64(t) == Some(seq![a, b]));
        assert(seq![a, b] =~= s);
    } else {
        let a = s[0];
        let b = s[1];
        let c = s[2];
        lemma_b64_char_val(a / 4);
        lemma_b64_char_val(((a % 4) * 16 + b / 16) as u8);
        lemma_b64_char_val(((b % 16) * 4 + c / 64) as u8);
        lemma_b64_char_val(c % 64);
        lemma_token_round_trip(s.skip(3));
        let t = encode64(s);
        assert(t.len() == 4 + encode64(s.skip(3)).len());
        assert(t[0] == b64_char(a / 4));
        assert(t[1] == b64_char(((a % 4) * 16 + b / 16) as u8));
        assert(t[2] == b64_char(((b % 16) * 4 + c / 64) as u8));
        assert(t[3] == b64_char(c % 64));
        assert(t.skip(4) =~= encode64(s.skip(3)));
        assert(b64_val(t[0]) == a / 4);
        assert(b64_val(t[1]) == (a % 4) * 16 + b / 16);
        assert(b64_val(t[2]) == (b % 16) * 4 + c / 64);
        assert(b64_val(t[3]) == c % 64);
        assert(encode64(s.skip(3)).len() % 4 == 0) by {
            lemma_encode64_len(s.skip(3));
        }
        assert(t.len() == 4 ==> s.skip(3).len() == 0);
        if t.len() == 4 {
            assert(t[3] != 61);
        }
        assert(((a % 4) * 16 + b / 16) % 16 == b / 16);
        assert(((b % 16) * 4 + c / 64) % 4 == c / 64);
        assert((a / 4) * 4 + ((a % 4) * 16 + b / 16) / 16 == a);
        assert((((a % 4) * 16 + b / 16) % 16) * 16 + ((b % 16) * 4 + c / 64) / 4 == b);
        assert((((b % 16) * 4 + c / 64) % 4) * 64 + c % 64 == c);
        assert(decode64(t) == Some(seq![a, b, c] + s.skip(3)));
        assert(seq![a, b, c] + s.skip(3) =~= s);
    }
}

/// An encoding's length is a multiple of four.
pub proof fn lemma_encode64_len(s: Seq<u8>)
    ensures
        encode64(s).len() % 4 == 0,
    decreases s.len(),
{
    if s.len() > 2 {
        lemma_encode64_len(s.skip(3));
    }
}

/// The alphabet character for a 6-bit value.
fn enc_char(v: u8) -> (r: u8)
    requires
        v < 64,
    ensures
        r == b64_char(v),
{
    if v < 26 {
        65 + v
    } else if v < 52 {
        97 + v - 26
    } else if v < 62 {
        48 + v - 52
    } else if v == 62 {
        43
    } else {
        47
    }
}

/// The 6-bit value of a character, if it is in the alphabet.
fn val_of(c: u8) -> (r: Option<u8>)
    ensures
        match r {
            Some(v) => v < 64 && b64_val(c) == v as int,
            None => b64_val(c) < 0,
        },
{
    if 65 <= c && c <= 90 {
        Some(c - 65)
    } else if 97 <= c && c <= 122 {
        Some(c - 97 + 26)
    } else if 48 <= c && c <= 57 {
        Some(c - 48 + 52)
    } else if c == 43 {
        Some(62)
    } else if c == 47 {
        Some(63)
    } else {
        None
    }
}

fn enc_from(s: &Vec<u8>, i: usize) -> (r: Vec<u8>)
    requires
        i <= s@.len(),
    ensures
        r@ == encode64(s@.skip(i as int)),
    decreases s@.len() - i,
{
    let n = s.len() - i;
    let ghost tail = s@.skip(i as int);
    proof {
        assert(tail.len() == n);
        assert(forall|j: int| 0 <= j < tail.len() ==> tail[j] == s@[i + j]);
    }
    let mut r: Vec<u8> = Vec::new();
    if n == 0 {
        proof {
            assert(tail =~= Seq::<u8>::empty());
        }
        return r;
    }
    if n == 1 {
        let a = s[i];
        r.push(enc_char(a / 4));
        r.push(enc_char((a % 4) * 16));
        r.push(61);
        r.push(61);
        proof {
            assert(r@ =~= enc_group1(a));
        }
        return r;
    }
    if n == 2 {
        let a = s[i];
        let b = s[i + 1];
        r.push(enc_char(a / 4));
        r.push(enc_char((a % 4) * 16 + b / 16));
        r.push(enc_char((b % 16) * 4));
        r.push(61);
        proof {
            assert(r@ =~= enc_group2(a, b));
        }
        return r;
    }
    let a = s[i];
    let b = s[i + 1];
    let c = s[i + 2];
    r.push(enc_char(a / 4));
    r.push(enc_char((a % 4) * 16 + b / 16));
    r.push(enc_char((b % 16) * 4 + c / 64));
    r.push(enc_char(c % 64));
    let rest = enc_from(s, i + 3);
    crate::bytes::append_bytes(&mut r, &rest);
    proof {
        assert(tail.skip(3) =~= s@.skip(i + 3));
        assert(r@ =~= enc_group3(a, b, c) + encode64(tail.skip(3)));
    }
    r
}

/// Makes the continuation token for a key: its base64 encoding.
pub fn encode_token(key: &Vec<u8>) -> (r: Vec<u8>)
    ensures
        r@ == encode64(key@),
{
    proof {
        assert(key@.skip(0) =~= key@);
    }
    enc_from(key, 0)
}

fn dec_from(t: &Vec<u8>, i: usize) -> (r: Option<Vec<u8>>)
    requires
        i <= t@.len(),
    ensures
        match r {
            Some(v) => decode64(t@.skip(i as int)) == Some(v@),
            None => decode64(t@.skip(i as int)) is None,
        },
    decreases t@.len() - i,
{
    let n = t.len() - i;
    let ghost tail = t@.skip(i as int);
    proof {
        assert(tail.len() == n);
        assert(forall|j: int| 0 <= j < tail.len() ==> tail[j] == t@[i + j]);
    }
    if n == 0 {
        proof {
            assert(tail =~= Seq::<u8>::empty());
        }
        return Some(Vec::new());
    }
    if n < 4 {
        return None;
    }
    let v0 = match val_of(t[i]) {
        None => return None,
        Some(v) => v,
    };
    let v1 = match val_of(t[i + 1]) {
        None => return None,
        Some(v) => v,
    };
    if n == 4 && t[i + 3] == 61 {
        if t[i + 2] == 61 {
            if v1 % 16 == 0 {
                let mut out: Vec<u8> = Vec::new();
                out.push(v0 * 4 + v1 / 16);
                proof {
                    assert(out@ =~= seq![(b64_val(tail[0]) * 4 + b64_val(tail[1]) / 16) as u8]);
                }
                Some(out)
            } else {
                None
            }
        } else {
            let v2 = match val_of(t[i + 2]) {
                None => return None,
                Some(v) => v,
            };
            if v2 % 4 == 0 {
                let mut out: Vec<u8> = Vec::new();
                out.push(v0 * 4 + v1 / 16);
                out.push((v1 % 16) * 16 + v2 / 4);
                proof {
                    assert(out@ =~= seq![
                        (b64_val(tail[0]) * 4 + b64_val(tail[1]) / 16) as u8,
                        ((b64_val(tail[1]) % 16) * 16 + b64_val(tail[2]) / 4) as u8,
                    ]);
                }
                Some(out)
            } else {
                None
            }
        }
    } else {
        let v2 = match val_of(t[i + 2]) {
            None => return None,
            Some(v) => v,
        };
        let v3 = match val_of(t[i + 3]) {
            None => return None,
            Some(v) => v,
        };
        if t[i + 3] == 61 {
            return None;
        }
        match dec_from(t, i + 4) {
            None => {
                proof {
                    assert(tail.skip(4) =~= t@.skip(i + 4));
                }
                None
            },
            Some(rest) => {
                let mut out: Vec<u8> = Vec::new();
                out.push(v0 * 4 + v1 / 16);
                out.push((v1 % 16) * 16 + v2 / 4);
                out.push((v2 % 4) * 64 + v3);
                crate::bytes::append_bytes(&mut out, &rest);
                proof {
                    assert(tail.skip(4) =~= t@.skip(i + 4));
                    assert(out@ =~= seq![
                        (b64_val(tail[0]) * 4 + b64_val(tail[1]) / 16) as u8,
                        ((b64_val(tail[1]) % 16) * 16 + b64_val(tail[2]) / 4) as u8,
                        ((b64_val(tail[2]) % 4) * 64 + b64_val(tail[3])) as u8,
                    ] + rest@);
                }
                Some(out)
            },
        }
    }
}

/// Reads a continuation token back into the key it encodes. A string
/// that is not a canonical encoding is refused.
pub fn decode_token(token: &Vec<u8>) -> (r: Option<Vec<u8>>)
    ensures
        match r {
            Some(v) => decode64(token@) == Some(v@),
            None => decode64(token@) is None,
        },
{
    proof {
        assert(token@.skip(0) =~= token@);
    }
    dec_from(token, 0)
}

} // verus!
