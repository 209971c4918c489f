//! Standard base64 (RFC 4648, padded) as a mathematical specification, a
//! trusted binding to the `base64` crate for the executable encoding, and a
//! proof that the encoding round-trips under standard decoding.

use vstd::prelude::*;

verus! {

/// The standard-alphabet character for a 6-bit group.
pub open spec fn b64_char(n: int) -> u8
    recommends
        0 <= n < 64,
{
    if n < 26 {
        (65 + n) as u8  // 'A'..='Z'
    } else if n < 52 {
        (97 + (n - 26)) as u8  // 'a'..='z'
    } else if n < 62 {
        (48 + (n - 52)) as u8  // '0'..='9'
    } else if n == 62 {
        43u8  // '+'
    } else {
        47u8  // '/'
    }
}

/// The 6-bit value of a standard-alphabet character, if it is one.
pub open spec fn b64_val(c: u8) -> Option<int> {
    if 65 <= c && c <= 90 {
        Some(c - 65)
    } else if 97 <= c && c <= 122 {
        Some(c - 97 + 26)
    } else if 48 <= c && c <= 57 {
        Some(c - 48 + 52)
    } else if c == 43 {
        Some(62int)
    } else if c == 47 {
        Some(63int)
    } else {
        None
    }
}

/// Standard, padded base64 encoding of a byte sequence: each group of three
/// bytes becomes four alphabet characters; a final group of one or two bytes
/// is padded with `=` (byte 61).
pub open spec fn spec_base64(s: Seq<u8>) -> Seq<u8>
    decreases s.len(),
{
    if s.len() == 0 {
        Seq::empty()
    } else if s.len() == 1 {
        let a = s[0] as int;
        seq![b64_char(a / 4), b64_char((a % 4) * 16), 61u8, 61u8]
    } else if s.len() == 2 {
        let a = s[0] as int;
        let b = s[1] as int;
        seq![b64_char(a / 4), b64_char((a % 4) * 16 + b / 16), b64_char((b % 16) * 4), 61u8]
    } else {
        let a = s[0] as int;
        let b = s[1] as int;
        let c = s[2] as int;
        seq![
            b64_char(a / 4),
            b64_char((a % 4) * 16 + b / 16),
            b64_char((b % 16) * 4 + c / 64),
            b64_char(c % 64),
        ] + spec_base64(s.skip(3))
    }
}

/// Standard base64 decoding: groups of four characters, `=` padding allowed
/// only at the end, and the unused bits of a padded group must be zero.
pub open spec fn spec_base64_decode(s: Seq<u8>) -> Option<Seq<u8>>
    decreases s.len(),
{
    if s.len() == 0 {
        Some(Seq::empty())
    } else if s.len() % 4 != 0 {
        None
    } else {
        match (b64_val(s[0]), b64_val(s[1])) {
            (Some(v0), Some(v1)) => {
                if s[2] == 61 && s[3] == 61 {
                    if s.len() == 4 && v1 % 16 == 0 {
                        Some(seq![(v0 * 4 + v1 / 16) as u8])
                    } else {
                        None
                    }
                } else if s[3] == 61 {
                    match b64_val(s[2]) {
                        Some(v2) => if s.len() == 4 && v2 % 4 == 0 {
                            Some(seq![(v0 * 4 + v1 / 16) as u8, ((v1 % 16) * 16 + v2 / 4) as u8])
                        } else {
                            None
                        },
                        None => None,
                    }
                } else {
                    match (b64_val(s[2]), b64_val(s[3])) {
                        (Some(v2), Some(v3)) => match spec_base64_decode(s.skip(4)) {
                            Some(rest) => Some(
                                seq![
                                    (v0 * 4 + v1 / 16) as u8,
                                    ((v1 % 16) * 16 + v2 / 4) as u8,
                                    ((v2 % 4) * 64 + v3) as u8,
                                ] + rest,
                            ),
                            None => None,
                        },
                        _ => None,
                    }
                }
            },
            _ => None,
        }
    }
}

/// Relies on the `base64` crate's `STANDARD` engine: standard alphabet with
/// `=` padding, exactly the encoding that `spec_base64` states.
#[verifier::external_body]
pub(crate) fn base64_standard(bytes: &[u8]) -> (r: Vec<u8>)
    ensures
        r@ == spec_base64(bytes@),
{
    base64::Engine::encode(&base64::engine::general_purpose::STANDARD, bytes).into_bytes()
}

/// Every alphabet character decodes back to its 6-bit value and is not `=`.
proof fn lemma_b64_char_val(n: int)
    requires
        0 <= n < 64,
    ensures
        b64_val(b64_char(n)) == Some(n),
        b64_char(n) != 61,
{
}

/// The base64 encoding of any byte sequence round-trips to the original
/// bytes under standard base64 decoding.
pub proof fn lemma_base64_round_trip(s: Seq<u8>)
    ensures
        spec_base64_decode(spec_base64(s)) == Some(s),
    decreases s.len(),
{
    let e = spec_base64(s);
    if s.len() == 0 {
        assert(e =~= Seq::<u8>::empty());
        assert(spec_base64_decode(e) =~= Some(s));
    } else if s.len() == 1 {
        let a = s[0] as int;
        lemma_b64_char_val(a / 4);
        lemma_b64_char_val((a % 4) * 16);
        assert(((a % 4) * 16) % 16 == 0);
        assert((a / 4) * 4 + ((a % 4) * 16) / 16 == a);
        assert(spec_base64_decode(e) matches Some(d) && d =~= s);
    } else if s.len() == 2 {
        let a = s[0] as int;
        let b = s[1] as int;
        lemma_b64_char_val(a / 4);
        lemma_b64_char_val((a % 4) * 16 + b / 16);
        lemma_b64_char_val((b % 16) * 4);
        let v1 = (a % 4) * 16 + b / 16;
        assert((a / 4) * 4 + v1 / 16 == a);
        assert((v1 % 16) * 16 + ((b % 16) * 4) / 4 == b);
        assert(spec_base64_decode(e) matches Some(d) && d =~= s);
    } else {
        let a = s[0] as int;
        let b = s[1] as int;
        let c = s[2] as int;
        lemma_b64_char_val(a / 4);
        lemma_b64_char_val((a % 4) * 16 + b / 16);
        lemma_b64_char_val((b % 16) * 4 + c / 64);
        lemma_b64_char_val(c % 64);
        lemma_base64_round_trip(s.skip(3));
        lemma_base64_len(s.skip(3));
        let v1 = (a % 4) * 16 + b / 16;
        let v2 = (b % 16) * 4 + c / 64;
        let v3 = c % 64;
        assert((a / 4) * 4 + v1 / 16 == a);
        assert((v1 % 16) * 16 + v2 / 4 == b);
        assert((v2 % 4) * 64 + v3 == c);
        assert(e.skip(4) =~= spec_base64(s.skip(3)));
        assert(e.len() % 4 == 0);
        assert(spec_base64_decode(e) matches Some(d) && d =~= s);
    }
}

/// The encoding's length is always a multiple of four.
pub proof fn lemma_base64_len(s: Seq<u8>)
    ensures
        spec_base64(s).len() % 4 == 0,
    decreases s.len(),
{
    if s.len() >= 3 {
        lemma_base64_len(s.skip(3));
    }
}

} // verus!
