//! The JSON wire format, as the client reads it: a byte-level specification
//! of the grammar, and executable parsers proved against it.
//!
//! Strings are handled as their unescaped UTF-8 bytes; values that the
//! client only passes through (the `custom_fields` payloads) are kept as the
//! raw byte span of the value.

use vstd::prelude::*;
use vstd::utf8::valid_utf8;

verus! {

/// JSON insignificant whitespace.
pub open spec fn is_ws(b: u8) -> bool {
    b == 0x20 || b == 0x09 || b == 0x0a || b == 0x0d
}

/// First index at or after `i` holding a non-whitespace byte (or the end).
pub open spec fn skip_ws(s: Seq<u8>, i: int) -> int
    decreases s.len() - i,
{
    if 0 <= i && i < s.len() && is_ws(s[i]) {
        skip_ws(s, i + 1)
    } else {
        i
    }
}

pub proof fn lemma_skip_ws(s: Seq<u8>, i: int)
    ensures
        i <= skip_ws(s, i),
        i <= s.len() ==> skip_ws(s, i) <= s.len(),
        0 <= skip_ws(s, i) < s.len() ==> !is_ws(s[skip_ws(s, i)]),
    decreases s.len() - i,
{
    if 0 <= i && i < s.len() && is_ws(s[i]) {
        lemma_skip_ws(s, i + 1);
    }
}

/// Value of an ASCII hex digit.
pub open spec fn hex_val(b: u8) -> Option<int> {
    if 48 <= b && b <= 57 {
        Some(b - 48)
    } else if 65 <= b && b <= 70 {
        Some(b - 65 + 10)
    } else if 97 <= b && b <= 102 {
        Some(b - 97 + 10)
    } else {
        None
    }
}

/// Value of the four hex digits at `i`, if present.
pub open spec fn hex4(s: Seq<u8>, i: int) -> Option<int> {
    if 0 <= i && i + 4 <= s.len() {
        match (hex_val(s[i]), hex_val(s[i + 1]), hex_val(s[i + 2]), hex_val(s[i + 3])) {
            (Some(a), Some(b), Some(c), Some(d)) => Some(a * 4096 + b * 256 + c * 16 + d),
            _ => None,
        }
    } else {
        None
    }
}

/// The byte a single-character escape stands for, if the character can
/// follow a backslash.
pub open spec fn esc_byte(b: u8) -> Option<u8> {
    if b == 0x22 {
        Some(0x22u8)  // \"
    } else if b == 0x5c {
        Some(0x5cu8)  // backslash
    } else if b == 0x2f {
        Some(0x2fu8)  // /
    } else if b == 0x62 {
        Some(0x08u8)  // \b
    } else if b == 0x66 {
        Some(0x0cu8)  // \f
    } else if b == 0x6e {
        Some(0x0au8)  // \n
    } else if b == 0x72 {
        Some(0x0du8)  // \r
    } else if b == 0x74 {
        Some(0x09u8)  // \t
    } else {
        None
    }
}

/// UTF-8 encoding of a scalar value.
pub open spec fn utf8_enc(cp: int) -> Seq<u8> {
    if cp < 0x80 {
        seq![cp as u8]
    } else if cp < 0x800 {
        seq![(0xc0 + cp / 64) as u8, (0x80 + cp % 64) as u8]
    } else if cp < 0x10000 {
        seq![(0xe0 + cp / 4096) as u8, (0x80 + (cp / 64) % 64) as u8, (0x80 + cp % 64) as u8]
    } else {
        seq![
            (0xf0 + cp / 262144) as u8,
            (0x80 + (cp / 4096) % 64) as u8,
            (0x80 + (cp / 64) % 64) as u8,
            (0x80 + cp % 64) as u8,
        ]
    }
}

/// The rest of a JSON string, starting just after the opening quote:
/// the unescaped content bytes and the index just past the closing quote.
/// Control bytes must be escaped; `\uXXXX` escapes of surrogates must come
/// as a well-ordered pair, which encodes the combined scalar.
pub open spec fn str_rest(s: Seq<u8>, i: int) -> Option<(Seq<u8>, int)>
    decreases s.len() - i,
{
    if i < 0 || i >= s.len() {
        None
    } else if s[i] == 0x22 {
        Some((Seq::empty(), i + 1))
    } else if s[i] == 0x5c {
        if i + 1 >= s.len() {
            None
        } else if s[i + 1] == 0x75 {
            match hex4(s, i + 2) {
                Some(cp) => {
                    if 0xd800 <= cp && cp < 0xdc00 {
                        if i + 8 <= s.len() && s[i + 6] == 0x5c && s[i + 7] == 0x75 {
                            match hex4(s, i + 8) {
                                Some(lo) => {
                                    if 0xdc00 <= lo && lo < 0xe000 {
                                        let c = 0x10000 + (cp - 0xd800) * 1024 + (lo - 0xdc00);
                                        match str_rest(s, i + 12) {
                                            Some(tj) => Some((utf8_enc(c) + tj.0, tj.1)),
                                            None => None,
                                        }
                                    } else {
                                        None
                                    }
                                },
                                None => None,
                            }
                        } else {
                            None
                        }
                    } else if 0xdc00 <= cp && cp < 0xe000 {
                        None
                    } else {
                        match str_rest(s, i + 6) {
                            Some(tj) => Some((utf8_enc(cp) + tj.0, tj.1)),
                            None => None,
                        }
                    }
                },
                None => None,
            }
        } else {
            match esc_byte(s[i + 1]) {
                Some(b) => match str_rest(s, i + 2) {
                    Some(tj) => Some((seq![b] + tj.0, tj.1)),
                    None => None,
                },
                None => None,
            }
        }
    } else if s[i] < 0x20 {
        None
    } else {
        match str_rest(s, i + 1) {
            Some(tj) => Some((seq![s[i]] + tj.0, tj.1)),
            None => None,
        }
    }
}

pub proof fn lemma_str_rest_bounds(s: Seq<u8>, i: int)
    ensures
        str_rest(s, i) matches Some(tj) ==> i < tj.1 && tj.1 <= s.len(),
    decreases s.len() - i,
{
    if i < 0 || i >= s.len() {
    } else if s[i] == 0x22 {
    } else if s[i] == 0x5c {
        if i + 1 < s.len() && s[i + 1] == 0x75 {
            if hex4(s, i + 2) is Some {
                lemma_str_rest_bounds(s, i + 6);
                if hex4(s, i + 8) is Some {
                    lemma_str_rest_bounds(s, i + 12);
                }
            }
        } else if i + 1 < s.len() {
            lemma_str_rest_bounds(s, i + 2);
        }
    } else {
        lemma_str_rest_bounds(s, i + 1);
    }
}

pub open spec fn is_digit(b: u8) -> bool {
    48 <= b && b <= 57
}

/// First index at or after `i` holding a non-digit byte (or the end).
pub open spec fn digits_end(s: Seq<u8>, i: int) -> int
    decreases s.len() - i,
{
    if 0 <= i && i < s.len() && is_digit(s[i]) {
        digits_end(s, i + 1)
    } else {
        i
    }
}

pub proof fn lemma_digits_end(s: Seq<u8>, i: int)
    ensures
        i <= digits_end(s, i),
        i <= s.len() ==> digits_end(s, i) <= s.len(),
        0 <= i && i < s.len() && is_digit(s[i]) ==> digits_end(s, i) > i,
    decreases s.len() - i,
{
    if 0 <= i && i < s.len() && is_digit(s[i]) {
        lemma_digits_end(s, i + 1);
    }
}

/// End of an optional fraction part starting at `k`.
pub open spec fn frac_end(s: Seq<u8>, k: int) -> Option<int> {
    if 0 <= k && k < s.len() && s[k] == 0x2e {
        if k + 1 < s.len() && is_digit(s[k + 1]) {
            Some(digits_end(s, k + 1))
        } else {
            None
        }
    } else {
        Some(k)
    }
}

/// End of an optional exponent part starting at `k`.
pub open spec fn exp_end(s: Seq<u8>, k: int) -> Option<int> {
    if 0 <= k && k < s.len() && (s[k] == 0x65 || s[k] == 0x45) {
        let k1 = if k + 1 < s.len() && (s[k + 1] == 0x2b || s[k + 1] == 0x2d) {
            k + 2
        } else {
            k + 1
        };
        if k1 < s.len() && is_digit(s[k1]) {
            Some(digits_end(s, k1))
        } else {
            None
        }
    } else {
        Some(k)
    }
}

/// End of a JSON number token starting at `i`, if one starts there.
pub open spec fn num_end(s: Seq<u8>, i: int) -> Option<int> {
    if i < 0 {
        None
    } else {
        let j = if i < s.len() && s[i] == 0x2d {
            i + 1
        } else {
            i
        };
        if j < s.len() && is_digit(s[j]) {
            let k = if s[j] == 0x30 {
                j + 1
            } else {
                digits_end(s, j)
            };
            match frac_end(s, k) {
                Some(k2) => exp_end(s, k2),
                None => None,
            }
        } else {
            None
        }
    }
}

pub proof fn lemma_num_end_bounds(s: Seq<u8>, i: int)
    requires
        0 <= i <= s.len(),
    ensures
        num_end(s, i) matches Some(e) ==> i < e && e <= s.len(),
{
    let j = if i < s.len() && s[i] == 0x2d {
        i + 1
    } else {
        i
    };
    if j < s.len() && is_digit(s[j]) {
        let k = if s[j] == 0x30 {
            j + 1
        } else {
            digits_end(s, j)
        };
        lemma_digits_end(s, j);
        assert(s[j] != 0x30 ==> digits_end(s, j) > j);
        if 0 <= k && k < s.len() && s[k] == 0x2e {
            if k + 1 < s.len() && is_digit(s[k + 1]) {
                lemma_digits_end(s, k + 1);
            }
        }
        match frac_end(s, k) {
            Some(k2) => {
                if 0 <= k2 && k2 < s.len() && (s[k2] == 0x65 || s[k2] == 0x45) {
                    let k1 = if k2 + 1 < s.len() && (s[k2 + 1] == 0x2b || s[k2 + 1] == 0x2d) {
                        k2 + 2
                    } else {
                        k2 + 1
                    };
                    if k1 < s.len() && is_digit(s[k1]) {
                        lemma_digits_end(s, k1);
                    }
                }
            },
            None => {},
        }
    }
}

/// End of the JSON value starting at `i`, if the bytes there form one.
pub open spec fn value_end(s: Seq<u8>, i: int) -> Option<int>
    decreases s.len() - i, 0int,
{
    if i < 0 || i >= s.len() {
        None
    } else if s[i] == 0x22 {
        match str_rest(s, i + 1) {
            Some(tj) => Some(tj.1),
            None => None,
        }
    } else if s[i] == 0x7b {
        let j = skip_ws(s, i + 1);
        if j < s.len() && s[j] == 0x7d {
            Some(j + 1)
        } else {
            members_end(s, i + 1)
        }
    } else if s[i] == 0x5b {
        let j = skip_ws(s, i + 1);
        if j < s.len() && s[j] == 0x5d {
            Some(j + 1)
        } else {
            elements_end(s, i + 1)
        }
    } else if s[i] == 0x74 {
        if i + 4 <= s.len() && s[i + 1] == 0x72 && s[i + 2] == 0x75 && s[i + 3] == 0x65 {
            Some(i + 4)
        } else {
            None
        }
    } else if s[i] == 0x66 {
        if i + 5 <= s.len() && s[i + 1] == 0x61 && s[i + 2] == 0x6c && s[i + 3] == 0x73 && s[i + 4]
            == 0x65 {
            Some(i + 5)
        } else {
            None
        }
    } else if s[i] == 0x6e {
        if i + 4 <= s.len() && s[i + 1] == 0x75 && s[i + 2] == 0x6c && s[i + 3] == 0x6c {
            Some(i + 4)
        } else {
            None
        }
    } else if s[i] == 0x2d || is_digit(s[i]) {
        num_end(s, i)
    } else {
        None
    }
}

/// Members of an object, entered just after `{` or a `,`: whitespace, a key
/// string, `:`, a value, then a `,` and more members, or the closing `}`.
/// Returns the index just past the `}`.
pub open spec fn members_end(s: Seq<u8>, i: int) -> Option<int>
    decreases s.len() - i, 1int,
{
    if i < 0 {
        None
    } else {
        let j = skip_ws(s, i);
        proof {
            lemma_skip_ws(s, i);
        }
        if j < s.len() && s[j] == 0x22 {
            match str_rest(s, j + 1) {
                Some(kj) => {
                    proof {
                        lemma_str_rest_bounds(s, j + 1);
                    }
                    let j3 = skip_ws(s, kj.1);
                    proof {
                        lemma_skip_ws(s, kj.1);
                    }
                    if j3 < s.len() && s[j3] == 0x3a {
                        let j4 = skip_ws(s, j3 + 1);
                        proof {
                            lemma_skip_ws(s, j3 + 1);
                        }
                        match value_end(s, j4) {
                            Some(j5) => {
                                let j5c = if j5 > j4 {
                                    j5
                                } else {
                                    j4 + 1
                                };
                                let j6 = skip_ws(s, j5c);
                                proof {
                                    lemma_skip_ws(s, j5c);
                                }
                                if j6 < s.len() && s[j6] == 0x2c {
                                    members_end(s, j6 + 1)
                                } else if j6 < s.len() && s[j6] == 0x7d {
                                    Some(j6 + 1)
                                } else {
                                    None
                                }
                            },
                            None => None,
                        }
                    } else {
                        None
                    }
                },
                None => None,
            }
        } else {
            None
        }
    }
}

/// Elements of an array, entered just after `[` or a `,`.
/// Returns the index just past the closing `]`.
pub open spec fn elements_end(s: Seq<u8>, i: int) -> Option<int>
    decreases s.len() - i, 1int,
{
    if i < 0 {
        None
    } else {
        let j = skip_ws(s, i);
        proof {
            lemma_skip_ws(s, i);
        }
        if j >= s.len() {
            None
        } else {
            match value_end(s, j) {
                Some(j5) => {
                    let j5c = if j5 > j {
                        j5
                    } else {
                        j + 1
                    };
                    let j6 = skip_ws(s, j5c);
                    proof {
                        lemma_skip_ws(s, j5c);
                    }
                    if j6 < s.len() && s[j6] == 0x2c {
                        elements_end(s, j6 + 1)
                    } else if j6 < s.len() && s[j6] == 0x5d {
                        Some(j6 + 1)
                    } else {
                        None
                    }
                },
                None => None,
            }
        }
    }
}

pub proof fn lemma_value_end_bounds(s: Seq<u8>, i: int)
    ensures
        value_end(s, i) matches Some(e) ==> i < e && e <= s.len(),
    decreases s.len() - i, 0int,
{
    if i < 0 || i >= s.len() {
    } else if s[i] == 0x22 {
        lemma_str_rest_bounds(s, i + 1);
    } else if s[i] == 0x7b {
        lemma_skip_ws(s, i + 1);
        let j = skip_ws(s, i + 1);
        if j < s.len() && s[j] == 0x7d {
        } else {
            lemma_members_end_bounds(s, i + 1);
        }
    } else if s[i] == 0x5b {
        lemma_skip_ws(s, i + 1);
        let j = skip_ws(s, i + 1);
        if j < s.len() && s[j] == 0x5d {
        } else {
            lemma_elements_end_bounds(s, i + 1);
        }
    } else if s[i] == 0x2d || is_digit(s[i]) {
        lemma_num_end_bounds(s, i);
    }
}

pub proof fn lemma_members_end_bounds(s: Seq<u8>, i: int)
    ensures
        members_end(s, i) matches Some(e) ==> i < e && e <= s.len(),
    decreases s.len() - i, 1int,
{
    if i < 0 {
    } else {
        let j = skip_ws(s, i);
        lemma_skip_ws(s, i);
        if j < s.len() && s[j] == 0x22 {
            match str_rest(s, j + 1) {
                Some(kj) => {
                    lemma_str_rest_bounds(s, j + 1);
                    let j3 = skip_ws(s, kj.1);
                    lemma_skip_ws(s, kj.1);
                    if j3 < s.len() && s[j3] == 0x3a {
                        let j4 = skip_ws(s, j3 + 1);
                        lemma_skip_ws(s, j3 + 1);
                        match value_end(s, j4) {
                            Some(j5) => {
                                lemma_value_end_bounds(s, j4);
                                let j5c = if j5 > j4 {
                                    j5
                                } else {
                                    j4 + 1
                                };
                                let j6 = skip_ws(s, j5c);
                                lemma_skip_ws(s, j5c);
                                if j6 < s.len() && s[j6] == 0x2c {
                                    lemma_members_end_bounds(s, j6 + 1);
                                }
                            },
                            None => {},
                        }
                    }
                },
                None => {},
            }
        }
    }
}

pub proof fn lemma_elements_end_bounds(s: Seq<u8>, i: int)
    ensures
        elements_end(s, i) matches Some(e) ==> i < e && e <= s.len(),
    decreases s.len() - i, 1int,
{
    if i < 0 {
    } else {
        let j = skip_ws(s, i);
        lemma_skip_ws(s, i);
        if j >= s.len() {
        } else {
            match value_end(s, j) {
                Some(j5) => {
                    lemma_value_end_bounds(s, j);
                    let j5c = if j5 > j {
                        j5
                    } else {
                        j + 1
                    };
                    let j6 = skip_ws(s, j5c);
                    lemma_skip_ws(s, j5c);
                    if j6 < s.len() && s[j6] == 0x2c {
                        lemma_elements_end_bounds(s, j6 + 1);
                    }
                },
                None => {},
            }
        }
    }
}

/// Advances past insignificant whitespace.
pub(crate) fn ws_from(s: &[u8], i: usize) -> (r: usize)
    requires
        i <= s@.len(),
    ensures
        r == skip_ws(s@, i as int),
        i <= r <= s@.len(),
{
    let mut k = i;
    while k < s.len() && (s[k] == 0x20 || s[k] == 0x09 || s[k] == 0x0a || s[k] == 0x0d)
        invariant
            i <= k <= s@.len(),
            skip_ws(s@, i as int) == skip_ws(s@, k as int),
        decreases s@.len() - k,
    {
        k = k + 1;
    }
    proof {
        lemma_skip_ws(s@, i as int);
    }
    k
}

/// Reads the four hex digits at `i`, if they are there.
fn hex4_at(s: &[u8], i: usize) -> (r: Option<u32>)
    ensures
        r matches Some(v) ==> hex4(s@, i as int) == Some(v as int),
        r is None ==> hex4(s@, i as int) is None,
{
    if s.len() >= 4 && i <= s.len() - 4 {
        let a = match hexd(s[i]) {
            Some(d) => d,
            None => {
                return None;
            },
        };
        let b = match hexd(s[i + 1]) {
            Some(d) => d,
            None => {
                return None;
            },
        };
        let c = match hexd(s[i + 2]) {
            Some(d) => d,
            None => {
                return None;
            },
        };
        let d = match hexd(s[i + 3]) {
            Some(d) => d,
            None => {
                return None;
            },
        };
        Some((a as u32) * 4096 + (b as u32) * 256 + (c as u32) * 16 + (d as u32))
    } else {
        None
    }
}

/// Value of one ASCII hex digit.
fn hexd(b: u8) -> (r: Option<u8>)
    ensures
        r matches Some(v) ==> hex_val(b) == Some(v as int),
        r is None ==> hex_val(b) is None,
{
    if 48 <= b && b <= 57 {
        Some(b - 48)
    } else if 65 <= b && b <= 70 {
        Some(b - 65 + 10)
    } else if 97 <= b && b <= 102 {
        Some(b - 97 + 10)
    } else {
        None
    }
}

/// Appends the UTF-8 encoding of a scalar value.
fn push_utf8(out: &mut Vec<u8>, cp: u32) -> (r: ())
    requires
        cp < 0x110000,
    ensures
        final(out)@ == old(out)@ + utf8_enc(cp as int),
{
    if cp < 0x80 {
        out.push(cp as u8);
    } else if cp < 0x800 {
        out.push((0xc0 + cp / 64) as u8);
        out.push((0x80 + cp % 64) as u8);
    } else if cp < 0x10000 {
        out.push((0xe0 + cp / 4096) as u8);
        out.push((0x80 + (cp / 64) % 64) as u8);
        out.push((0x80 + cp % 64) as u8);
    } else {
        out.push((0xf0 + cp / 262144) as u8);
        out.push((0x80 + (cp / 4096) % 64) as u8);
        out.push((0x80 + (cp / 64) % 64) as u8);
        out.push((0x80 + cp % 64) as u8);
    }
    proof {
        assert(out@ =~= old(out)@ + utf8_enc(cp as int));
    }
}

/// Parses the rest of a string, entered just after the opening quote:
/// returns the unescaped content and the index just past the closing quote.
pub(crate) fn parse_string(s: &[u8], i: usize) -> (r: Option<(Vec<u8>, usize)>)
    requires
        i <= s@.len(),
    ensures
        r matches Some(tj) ==> str_rest(s@, i as int) == Some((tj.0@, tj.1 as int)),
        r is None ==> str_rest(s@, i as int) is None,
    decreases s@.len() - i,
{
    if i >= s.len() {
        return None;
    }
    let b = s[i];
    if b == 0x22 {
        Some((Vec::new(), i + 1))
    } else if b == 0x5c {
        if i + 1 >= s.len() {
            return None;
        }
        let e = s[i + 1];
        if e == 0x75 {
            match hex4_at(s, i + 2) {
                Some(cp) => {
                    proof {
                        assert(hex4(s@, i + 2) is Some);
                        assert(i + 6 <= s@.len());
                    }
                    if 0xd800 <= cp && cp < 0xdc00 {
                        if s.len() >= 8 && i <= s.len() - 8 && s[i + 6] == 0x5c && s[i + 7]
                            == 0x75 {
                            match hex4_at(s, i + 8) {
                                Some(lo) => {
                                    if 0xdc00 <= lo && lo < 0xe000 {
                                        proof {
                                            assert(hex4(s@, i + 8) is Some);
                                            assert(i + 12 <= s@.len());
                                        }
                                        let c: u32 = 0x10000 + (cp - 0xd800) * 1024 + (lo
                                            - 0xdc00);
                                        match parse_string(s, i + 12) {
                                            Some(tj) => {
                                                let (t, j) = tj;
                                                let mut head: Vec<u8> = Vec::new();
                                                push_utf8(&mut head, c);
                                                let mut tail = t;
                                                head.append(&mut tail);
                                                Some((head, j))
                                            },
                                            None => None,
                                        }
                                    } else {
                                        None
                                    }
                                },
                                None => None,
                            }
                        } else {
                            None
                        }
                    } else if 0xdc00 <= cp && cp < 0xe000 {
                        None
                    } else {
                        match parse_string(s, i + 6) {
                            Some(tj) => {
                                let (t, j) = tj;
                                let mut head: Vec<u8> = Vec::new();
                                push_utf8(&mut head, cp);
                                let mut tail = t;
                                head.append(&mut tail);
                                Some((head, j))
                            },
                            None => None,
                        }
                    }
                },
                None => None,
            }
        } else {
            let ub: u8 = if e == 0x22 {
                0x22
            } else if e == 0x5c {
                0x5c
            } else if e == 0x2f {
                0x2f
            } else if e == 0x62 {
                0x08
            } else if e == 0x66 {
                0x0c
            } else if e == 0x6e {
                0x0a
            } else if e == 0x72 {
                0x0d
            } else if e == 0x74 {
                0x09
            } else {
                return None;
            };
            match parse_string(s, i + 2) {
                Some(tj) => {
                    let (t, j) = tj;
                    let mut head: Vec<u8> = Vec::new();
                    head.push(ub);
                    let mut tail = t;
                    head.append(&mut tail);
                    proof {
                        assert(head@ =~= seq![ub] + t@);
                    }
                    Some((head, j))
                },
                None => None,
            }
        }
    } else if b < 0x20 {
        None
    } else {
        match parse_string(s, i + 1) {
            Some(tj) => {
                let (t, j) = tj;
                let mut head: Vec<u8> = Vec::new();
                head.push(b);
                let mut tail = t;
                head.append(&mut tail);
                proof {
                    assert(head@ =~= seq![b] + t@);
                }
                Some((head, j))
            },
            None => None,
        }
    }
}

/// Advances past consecutive ASCII digits.
fn digits_from(s: &[u8], i: usize) -> (r: usize)
    requires
        i <= s@.len(),
    ensures
        r == digits_end(s@, i as int),
        i <= r <= s@.len(),
{
    let mut k = i;
    while k < s.len() && 48 <= s[k] && s[k] <= 57
        invariant
            i <= k <= s@.len(),
            digits_end(s@, i as int) == digits_end(s@, k as int),
        decreases s@.len() - k,
    {
        k = k + 1;
    }
    proof {
        lemma_digits_end(s@, i as int);
    }
    k
}

/// Skips the number token starting at `i`, if one starts there.
pub(crate) fn skip_number(s: &[u8], i: usize) -> (r: Option<usize>)
    requires
        i <= s@.len(),
    ensures
        r matches Some(e) ==> num_end(s@, i as int) == Some(e as int) && i < e && e <= s@.len(),
        r is None ==> num_end(s@, i as int) is None,
{
    proof {
        lemma_num_end_bounds(s@, i as int);
    }
    let j = if i < s.len() && s[i] == 0x2d {
        i + 1
    } else {
        i
    };
    if j < s.len() && 48 <= s[j] && s[j] <= 57 {
        let k = if s[j] == 0x30 {
            j + 1
        } else {
            digits_from(s, j)
        };
        let k2 = if k < s.len() && s[k] == 0x2e {
            if k + 1 < s.len() && 48 <= s[k + 1] && s[k + 1] <= 57 {
                digits_from(s, k + 1)
            } else {
                return None;
            }
        } else {
            k
        };
        if k2 < s.len() && (s[k2] == 0x65 || s[k2] == 0x45) {
            let k1 = if k2 + 1 < s.len() && (s[k2 + 1] == 0x2b || s[k2 + 1] == 0x2d) {
                k2 + 2
            } else {
                k2 + 1
            };
            if k1 < s.len() && 48 <= s[k1] && s[k1] <= 57 {
                Some(digits_from(s, k1))
            } else {
                None
            }
        } else {
            Some(k2)
        }
    } else {
        None
    }
}

/// Skips the JSON value starting at `i`, if the bytes there form one.
pub(crate) fn skip_value(s: &[u8], i: usize) -> (r: Option<usize>)
    requires
        i <= s@.len(),
    ensures
        r matches Some(e) ==> value_end(s@, i as int) == Some(e as int) && i < e && e <= s@.len(),
        r is None ==> value_end(s@, i as int) is None,
    decreases s@.len() - i, 0int,
{
    proof {
        lemma_value_end_bounds(s@, i as int);
    }
    if i >= s.len() {
        return None;
    }
    let b = s[i];
    if b == 0x22 {
        match parse_string(s, i + 1) {
            Some(tj) => Some(tj.1),
            None => None,
        }
    } else if b == 0x7b {
        let j = ws_from(s, i + 1);
        if j < s.len() && s[j] == 0x7d {
            Some(j + 1)
        } else {
            skip_members(s, i + 1)
        }
    } else if b == 0x5b {
        let j = ws_from(s, i + 1);
        if j < s.len() && s[j] == 0x5d {
            Some(j + 1)
        } else {
            skip_elements(s, i + 1)
        }
    } else if b == 0x74 {
        if s.len() >= 4 && i <= s.len() - 4 && s[i + 1] == 0x72 && s[i + 2] == 0x75 && s[i + 3]
            == 0x65 {
            Some(i + 4)
        } else {
            None
        }
    } else if b == 0x66 {
        if s.len() >= 5 && i <= s.len() - 5 && s[i + 1] == 0x61 && s[i + 2] == 0x6c && s[i + 3]
            == 0x73 && s[i + 4] == 0x65 {
            Some(i + 5)
        } else {
            None
        }
    } else if b == 0x6e {
        if s.len() >= 4 && i <= s.len() - 4 && s[i + 1] == 0x75 && s[i + 2] == 0x6c && s[i + 3]
            == 0x6c {
            Some(i + 4)
        } else {
            None
        }
    } else if b == 0x2d || (48 <= b && b <= 57) {
        skip_number(s, i)
    } else {
        None
    }
}

/// Skips object members, entered just after `{` or a `,`.
fn skip_members(s: &[u8], i: usize) -> (r: Option<usize>)
    requires
        i <= s@.len(),
    ensures
        r matches Some(e) ==> members_end(s@, i as int) == Some(e as int) && i < e && e
            <= s@.len(),
        r is None ==> members_end(s@, i as int) is None,
    decreases s@.len() - i, 1int,
{
    proof {
        lemma_members_end_bounds(s@, i as int);
    }
    let j = ws_from(s, i);
    if j < s.len() && s[j] == 0x22 {
        match parse_string(s, j + 1) {
            Some(kj) => {
                let j2 = kj.1;
                proof {
                    lemma_str_rest_bounds(s@, (j + 1) as int);
                }
                let j3 = ws_from(s, j2);
                if j3 < s.len() && s[j3] == 0x3a {
                    let j4 = ws_from(s, j3 + 1);
                    match skip_value(s, j4) {
                        Some(j5) => {
                            let j6 = ws_from(s, j5);
                            if j6 < s.len() && s[j6] == 0x2c {
                                skip_members(s, j6 + 1)
                            } else if j6 < s.len() && s[j6] == 0x7d {
                                Some(j6 + 1)
                            } else {
                                None
                            }
                        },
                        None => None,
                    }
                } else {
                    None
                }
            },
            None => None,
        }
    } else {
        None
    }
}

/// Skips array elements, entered just after `[` or a `,`.
fn skip_elements(s: &[u8], i: usize) -> (r: Option<usize>)
    requires
        i <= s@.len(),
    ensures
        r matches Some(e) ==> elements_end(s@, i as int) == Some(e as int) && i < e && e
            <= s@.len(),
        r is None ==> elements_end(s@, i as int) is None,
    decreases s@.len() - i, 1int,
{
    proof {
        lemma_elements_end_bounds(s@, i as int);
    }
    let j = ws_from(s, i);
    if j >= s.len() {
        return None;
    }
    match skip_value(s, j) {
        Some(j5) => {
            let j6 = ws_from(s, j5);
            if j6 < s.len() && s[j6] == 0x2c {
                skip_elements(s, j6 + 1)
            } else if j6 < s.len() && s[j6] == 0x5d {
                Some(j6 + 1)
            } else {
                None
            }
        },
        None => None,
    }
}

/// Whether the bytes are exactly one JSON value, with no surrounding text.
pub open spec fn is_json_value_exact(v: Seq<u8>) -> bool {
    value_end(v, 0) == Some(v.len() as int)
}

/// Checks that the bytes are exactly one JSON value, as the client requires
/// of each caller-supplied custom-field payload.
pub fn check_json_value(v: &[u8]) -> (r: bool)
    ensures
        r == is_json_value_exact(v@),
{
    match skip_value(v, 0) {
        Some(e) => e == v.len(),
        None => false,
    }
}

} // verus!
