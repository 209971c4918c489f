//! The success-response model: how a response body decodes to a
//! `FaceAuthResponse`, and how a non-2xx body decodes to the string-to-string
//! mapping that carries the API error message.
//!
//! Keys and message strings must be valid UTF-8; the caller-opaque
//! `custom_fields` values are kept as the raw byte span of each JSON value.
//! A repeated key overwrites the earlier entry, keeping its place; a repeated
//! occurrence of one of the known response fields is a decode failure.

use crate::json::{
    is_digit, lemma_skip_ws, lemma_str_rest_bounds, num_end, parse_string, skip_number,
    skip_value, skip_ws, str_rest, value_end, ws_from,
};
use vstd::prelude::*;
use vstd::slice::{slice_subrange, slice_to_vec};
use vstd::utf8::{decode_utf8, encode_utf8, valid_utf8};

verus! {

pub open spec fn all_digits(t: Seq<u8>) -> bool {
    forall|k: int| 0 <= k < t.len() ==> is_digit(#[trigger] t[k])
}

/// Decimal value of a digit sequence.
pub open spec fn digits_val(t: Seq<u8>) -> int
    decreases t.len(),
{
    if t.len() == 0 {
        0
    } else {
        digits_val(t.take(t.len() - 1)) * 10 + (t[t.len() - 1] - 48)
    }
}

/// The integer a number token denotes, if it is a pure integer token
/// (an optional `-` followed by digits only).
pub open spec fn int_token_val(t: Seq<u8>) -> Option<int> {
    if t.len() > 0 && t[0] == 0x2d {
        if t.len() > 1 && all_digits(t.skip(1)) {
            Some(-digits_val(t.skip(1)))
        } else {
            None
        }
    } else if t.len() > 0 && all_digits(t) {
        Some(digits_val(t))
    } else {
        None
    }
}

/// Index of the first entry with the given key.
pub open spec fn find_key(m: Seq<(Seq<u8>, Seq<u8>)>, k: Seq<u8>) -> Option<int>
    decreases m.len(),
{
    if m.len() == 0 {
        None
    } else if m[0].0 == k {
        Some(0int)
    } else {
        match find_key(m.skip(1), k) {
            Some(i) => Some(i + 1),
            None => None,
        }
    }
}

/// Value of the entry with the given key, if there is one.
pub open spec fn map_get(m: Seq<(Seq<u8>, Seq<u8>)>, k: Seq<u8>) -> Option<Seq<u8>> {
    match find_key(m, k) {
        Some(i) => Some(m[i].1),
        None => None,
    }
}

/// Sets the key's value in place, or appends a new entry.
pub open spec fn upsert(m: Seq<(Seq<u8>, Seq<u8>)>, k: Seq<u8>, v: Seq<u8>) -> Seq<
    (Seq<u8>, Seq<u8>),
> {
    match find_key(m, k) {
        Some(i) => m.update(i, (k, v)),
        None => m.push((k, v)),
    }
}

/// Members of a `custom_fields` object, entered just after `{` or a `,`:
/// collects each key (unescaped, UTF-8) with the raw byte span of its value.
pub open spec fn cf_members(s: Seq<u8>, i: int, acc: Seq<(Seq<u8>, Seq<u8>)>) -> Option<
    (Seq<(Seq<u8>, Seq<u8>)>, int),
>
    decreases s.len() - i,
{
    if i < 0 {
        None
    } else {
        let j = skip_ws(s, i);
        proof {
            lemma_skip_ws(s, i);
        }
        if j < s.len() && s[j] == 0x22 {
            match str_rest(s, j + 1) {
                Some(kj) => {
                    if !valid_utf8(kj.0) {
                        None
                    } else {
                        proof {
                            lemma_str_rest_bounds(s, j + 1);
                        }
                        let j3 = skip_ws(s, kj.1);
                        proof {
                            lemma_skip_ws(s, kj.1);
                        }
                        if j3 < s.len() && s[j3] == 0x3a {
                            let j4 = skip_ws(s, j3 + 1);
                            proof {
                                lemma_skip_ws(s, j3 + 1);
                            }
                            match value_end(s, j4) {
                                Some(j5) => {
                                    let j5c = if j5 > j4 {
                                        j5
                                    } else {
                                        j4 + 1
                                    };
                                    let acc2 = upsert(acc, kj.0, s.subrange(j4, j5c));
                                    let j6 = skip_ws(s, j5c);
                                    proof {
                                        lemma_skip_ws(s, j5c);
                                    }
                                    if j6 < s.len() && s[j6] == 0x2c {
                                        cf_members(s, j6 + 1, acc2)
                                    } else if j6 < s.len() && s[j6] == 0x7d {
                                        Some((acc2, j6 + 1))
                                    } else {
                                        None
                                    }
                                },
                                None => None,
                            }
                        } else {
                            None
                        }
                    }
                },
                None => None,
            }
        } else {
            None
        }
    }
}

/// Members of an error-response object, entered just after `{` or a `,`:
/// every value must itself be a string; collects unescaped keys and values.
pub open spec fn err_members(s: Seq<u8>, i: int, acc: Seq<(Seq<u8>, Seq<u8>)>) -> Option<
    (Seq<(Seq<u8>, Seq<u8>)>, int),
>
    decreases s.len() - i,
{
    if i < 0 {
        None
    } else {
        let j = skip_ws(s, i);
        proof {
            lemma_skip_ws(s, i);
        }
        if j < s.len() && s[j] == 0x22 {
            match str_rest(s, j + 1) {
                Some(kj) => {
                    if !valid_utf8(kj.0) {
                        None
                    } else {
                        proof {
                            lemma_str_rest_bounds(s, j + 1);
                        }
                        let j3 = skip_ws(s, kj.1);
                        proof {
                            lemma_skip_ws(s, kj.1);
                        }
                        if j3 < s.len() && s[j3] == 0x3a {
                            let j4 = skip_ws(s, j3 + 1);
                            proof {
                                lemma_skip_ws(s, j3 + 1);
                            }
                            if j4 < s.len() && s[j4] == 0x22 {
                                match str_rest(s, j4 + 1) {
                                    Some(vj) => {
                                        if !valid_utf8(vj.0) {
                                            None
                                        } else {
                                            proof {
                                                lemma_str_rest_bounds(s, j4 + 1);
                                            }
                                            let acc2 = upsert(acc, kj.0, vj.0);
                                            let j6 = skip_ws(s, vj.1);
                                            proof {
                                                lemma_skip_ws(s, vj.1);
                                            }
                                            if j6 < s.len() && s[j6] == 0x2c {
                                                err_members(s, j6 + 1, acc2)
                                            } else if j6 < s.len() && s[j6] == 0x7d {
                                                Some((acc2, j6 + 1))
                                            } else {
                                                None
                                            }
                                        }
                                    },
                                    None => None,
                                }
                            } else {
                                None
                            }
                        } else {
                            None
                        }
                    }
                },
                None => None,
            }
        } else {
            None
        }
    }
}

/// The decoded success response.
pub struct AuthSpec {
    pub user_id: i64,
    pub is_new_user: bool,
    pub custom_fields: Option<Seq<(Seq<u8>, Seq<u8>)>>,
}

/// Decode state while scanning the members of a success response.
pub struct AuthPartial {
    pub user_id: Option<i64>,
    pub is_new_user: Option<bool>,
    pub cf_seen: bool,
    pub custom_fields: Option<Seq<(Seq<u8>, Seq<u8>)>>,
}

/// How one member of the success response advances the decode state, given
/// its unescaped key and the index of its value. `user_id` must be an
/// integer in `i64` range, `is_new_user` a boolean, `custom_fields` an
/// object or `null`; a repeated known field fails; unknown fields are
/// skipped whole.
pub open spec fn auth_field(s: Seq<u8>, j4: int, st: AuthPartial, key: Seq<u8>) -> Option<
    (AuthPartial, int),
> {
    if key == encode_utf8("user_id"@) {
        if st.user_id is Some {
            None
        } else if 0 <= j4 && j4 < s.len() && (s[j4] == 0x2d || is_digit(s[j4])) {
            match num_end(s, j4) {
                Some(e) => match int_token_val(s.subrange(j4, e)) {
                    Some(n) => if i64::MIN <= n && n <= i64::MAX {
                        Some((AuthPartial { user_id: Some(n as i64), ..st }, e))
                    } else {
                        None
                    },
                    None => None,
                },
                None => None,
            }
        } else {
            None
        }
    } else if key == encode_utf8("is_new_user"@) {
        if st.is_new_user is Some {
            None
        } else if 0 <= j4 && j4 + 4 <= s.len() && s[j4] == 0x74 && s[j4 + 1] == 0x72 && s[j4 + 2]
            == 0x75 && s[j4 + 3] == 0x65 {
            Some((AuthPartial { is_new_user: Some(true), ..st }, j4 + 4))
        } else if 0 <= j4 && j4 + 5 <= s.len() && s[j4] == 0x66 && s[j4 + 1] == 0x61 && s[j4 + 2]
            == 0x6c && s[j4 + 3] == 0x73 && s[j4 + 4] == 0x65 {
            Some((AuthPartial { is_new_user: Some(false), ..st }, j4 + 5))
        } else {
            None
        }
    } else if key == encode_utf8("custom_fields"@) {
        if st.cf_seen {
            None
        } else if 0 <= j4 && j4 + 4 <= s.len() && s[j4] == 0x6e && s[j4 + 1] == 0x75 && s[j4 + 2]
            == 0x6c && s[j4 + 3] == 0x6c {
            Some((AuthPartial { cf_seen: true, custom_fields: None, ..st }, j4 + 4))
        } else if 0 <= j4 && j4 < s.len() && s[j4] == 0x7b {
            let j = skip_ws(s, j4 + 1);
            if j < s.len() && s[j] == 0x7d {
                Some((AuthPartial { cf_seen: true, custom_fields: Some(Seq::empty()), ..st }, j + 1))
            } else {
                match cf_members(s, j4 + 1, Seq::empty()) {
                    Some(mj) => Some(
                        (AuthPartial { cf_seen: true, custom_fields: Some(mj.0), ..st }, mj.1),
                    ),
                    None => None,
                }
            }
        } else {
            None
        }
    } else {
        match value_end(s, j4) {
            Some(e) => Some((st, e)),
            None => None,
        }
    }
}

/// Members of a success response, entered just after `{` or a `,`.
pub open spec fn auth_members(s: Seq<u8>, i: int, st: AuthPartial) -> Option<(AuthPartial, int)>
    decreases s.len() - i,
{
    if i < 0 {
        None
    } else {
        let j = skip_ws(s, i);
        proof {
            lemma_skip_ws(s, i);
        }
        if j < s.len() && s[j] == 0x22 {
            match str_rest(s, j + 1) {
                Some(kj) => {
                    if !valid_utf8(kj.0) {
                        None
                    } else {
                        proof {
                            lemma_str_rest_bounds(s, j + 1);
                        }
                        let j3 = skip_ws(s, kj.1);
                        proof {
                            lemma_skip_ws(s, kj.1);
                        }
                        if j3 < s.len() && s[j3] == 0x3a {
                            let j4 = skip_ws(s, j3 + 1);
                            proof {
                                lemma_skip_ws(s, j3 + 1);
                            }
                            match auth_field(s, j4, st, kj.0) {
                                Some(sj) => {
                                    let j5c = if sj.1 > j4 {
                                        sj.1
                                    } else {
                                        j4 + 1
                                    };
                                    let j6 = skip_ws(s, j5c);
                                    proof {
                                        lemma_skip_ws(s, j5c);
                                    }
                                    if j6 < s.len() && s[j6] == 0x2c {
                                        auth_members(s, j6 + 1, sj.0)
                                    } else if j6 < s.len() && s[j6] == 0x7d {
                                        Some((sj.0, j6 + 1))
                                    } else {
                                        None
                                    }
                                },
                                None => None,
                            }
                        } else {
                            None
                        }
                    }
                },
                None => None,
            }
        } else {
            None
        }
    }
}

pub open spec fn empty_auth_partial() -> AuthPartial {
    AuthPartial { user_id: None, is_new_user: None, cf_seen: false, custom_fields: None }
}

/// What a success body decodes to: a whole JSON object with nothing but
/// whitespace around it, holding `user_id` and `is_new_user` (each exactly
/// once), and optionally `custom_fields`.
pub open spec fn auth_of(s: Seq<u8>) -> Option<AuthSpec> {
    let i = skip_ws(s, 0);
    if i < s.len() && s[i] == 0x7b {
        let j = skip_ws(s, i + 1);
        let scan = if j < s.len() && s[j] == 0x7d {
            Some((empty_auth_partial(), j + 1))
        } else {
            auth_members(s, i + 1, empty_auth_partial())
        };
        match scan {
            Some(se) => {
                if skip_ws(s, se.1) == s.len() {
                    match (se.0.user_id, se.0.is_new_user) {
                        (Some(u), Some(b)) => Some(
                            AuthSpec {
                                user_id: u,
                                is_new_user: b,
                                custom_fields: se.0.custom_fields,
                            },
                        ),
                        _ => None,
                    }
                } else {
                    None
                }
            },
            None => None,
        }
    } else {
        None
    }
}

/// What a non-2xx body decodes to: a whole JSON object whose values are all
/// strings, as a key-to-value mapping.
pub open spec fn errmap_of(s: Seq<u8>) -> Option<Seq<(Seq<u8>, Seq<u8>)>> {
    let i = skip_ws(s, 0);
    if i < s.len() && s[i] == 0x7b {
        let j = skip_ws(s, i + 1);
        let scan = if j < s.len() && s[j] == 0x7d {
            Some((Seq::<(Seq<u8>, Seq<u8>)>::empty(), j + 1))
        } else {
            err_members(s, i + 1, Seq::empty())
        };
        match scan {
            Some(me) => {
                if skip_ws(s, me.1) == s.len() {
                    Some(me.0)
                } else {
                    None
                }
            },
            None => None,
        }
    } else {
        None
    }
}

/// A successful response: the user's numeric id, whether the call created
/// the user, and the user's custom fields, each value as its raw JSON bytes.
#[derive(Debug, PartialEq, Eq)]
pub struct FaceAuthResponse {
    pub user_id: i64,
    pub is_new_user: bool,
    pub custom_fields: Option<Vec<(String, Vec<u8>)>>,
}

/// The byte-level pairs a custom-fields list stands for.
pub open spec fn cf_pairs_view(m: Seq<(String, Vec<u8>)>) -> Seq<(Seq<u8>, Seq<u8>)> {
    m.map_values(|p: (String, Vec<u8>)| (encode_utf8(p.0@), p.1@))
}

impl View for FaceAuthResponse {
    type V = AuthSpec;

    open spec fn view(&self) -> AuthSpec {
        AuthSpec {
            user_id: self.user_id,
            is_new_user: self.is_new_user,
            custom_fields: match self.custom_fields {
                Some(v) => Some(cf_pairs_view(v@)),
                None => None,
            },
        }
    }
}

/// Byte-wise equality of two slices.
pub(crate) fn bytes_eq(a: &[u8], b: &[u8]) -> (r: bool)
    ensures
        r == (a@ == b@),
{
    if a.len() != b.len() {
        proof {
            assert(a@ != b@);
        }
        return false;
    }
    let mut k: usize = 0;
    while k < a.len()
        invariant
            k <= a@.len(),
            a@.len() == b@.len(),
            forall|m: int| 0 <= m < k ==> a@[m] == b@[m],
        decreases a@.len() - k,
    {
        if a[k] != b[k] {
            return false;
        }
        k = k + 1;
    }
    proof {
        assert(a@ =~= b@);
    }
    true
}

/// Equality of two string slices, through their bytes.
pub(crate) fn str_eq(a: &str, b: &str) -> (r: bool)
    ensures
        r == (a@ == b@),
{
    let r = bytes_eq(a.as_bytes(), b.as_bytes());
    proof {
        vstd::utf8::encode_utf8_decode_utf8(a@);
        vstd::utf8::encode_utf8_decode_utf8(b@);
    }
    r
}

/// Relies on String::from_utf8: it succeeds exactly on valid UTF-8 input
/// and yields the characters those bytes encode.
#[verifier::external_body]
pub(crate) fn utf8_to_string(b: Vec<u8>) -> (r: Option<String>)
    ensures
        r is Some <==> valid_utf8(b@),
        r matches Some(t) ==> t@ == decode_utf8(b@),
{
    match String::from_utf8(b) {
        Ok(t) => Some(t),
        Err(_) => None,
    }
}

proof fn lemma_digits_val_step(d: Seq<u8>, p: int)
    requires
        0 <= p < d.len(),
    ensures
        digits_val(d.take(p + 1)) == digits_val(d.take(p)) * 10 + (d[p] - 48),
{
    let t1 = d.take(p + 1);
    assert(t1.take(p) =~= d.take(p));
    assert(t1[p] == d[p]);
}

proof fn lemma_digits_val_nonneg(d: Seq<u8>)
    requires
        all_digits(d),
    ensures
        digits_val(d) >= 0,
    decreases d.len(),
{
    if d.len() > 0 {
        let t = d.take(d.len() - 1);
        assert(forall|k: int| 0 <= k < t.len() ==> is_digit(#[trigger] t[k]) && t[k] == d[k]);
        lemma_digits_val_nonneg(t);
    }
}

/// Parses the token bytes at `start..end` as an `i64`, if they are a pure
/// integer token whose value fits.
fn parse_i64_span(s: &[u8], start: usize, end: usize) -> (r: Option<i64>)
    requires
        start <= end <= s@.len(),
    ensures
        r matches Some(v) ==> int_token_val(s@.subrange(start as int, end as int)) == Some(
            v as int,
        ),
        r is None ==> !(int_token_val(s@.subrange(start as int, end as int)) matches Some(n)
            && i64::MIN <= n <= i64::MAX),
{
    let ghost t = s@.subrange(start as int, end as int);
    if start >= end {
        return None;
    }
    let neg = s[start] == 0x2d;
    let d0 = if neg {
        start + 1
    } else {
        start
    };
    if d0 >= end {
        return None;
    }
    let ghost d = if neg {
        t.skip(1)
    } else {
        t
    };
    proof {
        assert(d =~= s@.subrange(d0 as int, end as int));
    }
    let mut acc: u64 = 0;
    let mut of: bool = false;
    let mut k = d0;
    while k < end
        invariant
            d0 <= k <= end,
            end <= s@.len(),
            d0 < end,
            start < end,
            t == s@.subrange(start as int, end as int),
            neg ==> d0 == start + 1 && s@[start as int] == 0x2d,
            !neg ==> d0 == start && s@[start as int] != 0x2d,
            d == (if neg {
                t.skip(1)
            } else {
                t
            }),
            d == s@.subrange(d0 as int, end as int),
            d.len() == end - d0,
            all_digits(d.take(k - d0)),
            !of ==> acc == digits_val(d.take(k - d0)),
            of ==> digits_val(d.take(k - d0)) > u64::MAX,
        decreases end - k,
    {
        let b = s[k];
        proof {
            assert(d[k - d0] == s@[k as int]);
        }
        if b < 48 || b > 57 {
            proof {
                assert(!is_digit(d[k - d0]));
                assert(t[0] == s@[start as int]);
                if neg {
                    assert(d =~= t.skip(1));
                    assert(!all_digits(t.skip(1)));
                } else {
                    assert(d =~= t);
                    assert(!all_digits(t));
                }
                assert(int_token_val(t) is None);
            }
            return None;
        }
        proof {
            lemma_digits_val_step(d, k - d0);
            lemma_digits_val_nonneg(d.take(k - d0));
            assert(forall|m: int|
                0 <= m < k + 1 - d0 ==> is_digit(#[trigger] d.take(k + 1 - d0)[m]));
        }
        let dig = (b - 48) as u64;
        if !of {
            if acc > 1844674407370955161u64 || (acc == 1844674407370955161u64 && dig > 5) {
                of = true;
            } else {
                acc = acc * 10 + dig;
            }
        }
        k = k + 1;
    }
    proof {
        assert(d.take(end - d0) =~= d);
        if neg {
            assert(t[0] == 0x2d && t.len() > 1 && all_digits(t.skip(1)));
            assert(int_token_val(t) == Some(-digits_val(d)));
        } else {
            assert(int_token_val(t) == Some(digits_val(d)));
        }
        lemma_digits_val_nonneg(d);
    }
    if of {
        return None;
    }
    if neg {
        if acc <= 9223372036854775807u64 {
            Some(-(acc as i64))
        } else if acc == 9223372036854775808u64 {
            Some(i64::MIN)
        } else {
            None
        }
    } else {
        if acc <= 9223372036854775807u64 {
            Some(acc as i64)
        } else {
            None
        }
    }
}

proof fn lemma_find_key_from(m: Seq<(Seq<u8>, Seq<u8>)>, k: Seq<u8>, idx: int)
    requires
        0 <= idx <= m.len(),
        forall|j: int| 0 <= j < idx ==> (#[trigger] m[j]).0 != k,
    ensures
        idx < m.len() && m[idx].0 == k ==> find_key(m, k) == Some(idx),
        idx == m.len() ==> find_key(m, k) is None,
    decreases idx,
{
    if idx > 0 {
        assert(m[0].0 != k);
        let tail = m.skip(1);
        assert(forall|j: int| 0 <= j < idx - 1 ==> (#[trigger] tail[j]).0 == m[j + 1].0);
        lemma_find_key_from(tail, k, idx - 1);
        if idx < m.len() {
            assert(tail[idx - 1] == m[idx]);
        }
    }
}

/// Replaces the first entry with this key, or appends one.
fn upsert_entry(m: &mut Vec<(String, Vec<u8>)>, k: String, v: Vec<u8>)
    ensures
        cf_pairs_view(final(m)@) == upsert(cf_pairs_view(old(m)@), encode_utf8(k@), v@),
{
    let ghost sm = cf_pairs_view(m@);
    let ghost kb = encode_utf8(k@);
    let mut idx: usize = 0;
    while idx < m.len() && !str_eq(m[idx].0.as_str(), k.as_str())
        invariant
            idx <= m@.len(),
            sm == cf_pairs_view(m@),
            kb == encode_utf8(k@),
            forall|j: int| 0 <= j < idx ==> (#[trigger] sm[j]).0 != kb,
        decreases m@.len() - idx,
    {
        proof {
            vstd::utf8::encode_utf8_decode_utf8(m@[idx as int].0@);
            vstd::utf8::encode_utf8_decode_utf8(k@);
        }
        idx = idx + 1;
    }
    proof {
        lemma_find_key_from(sm, kb, idx as int);
    }
    if idx < m.len() {
        proof {
            vstd::utf8::encode_utf8_decode_utf8(m@[idx as int].0@);
            vstd::utf8::encode_utf8_decode_utf8(k@);
            assert(sm[idx as int].0 == kb);
        }
        m.remove(idx);
        m.insert(idx, (k, v));
        proof {
            assert(cf_pairs_view(m@) =~= sm.update(idx as int, (kb, v@)));
        }
    } else {
        m.push((k, v));
        proof {
            assert(cf_pairs_view(m@) =~= sm.push((kb, v@)));
        }
    }
}

/// Parses `custom_fields` members, entered just after `{` or a `,`.
fn parse_cf_members(s: &[u8], i: usize, acc: Vec<(String, Vec<u8>)>) -> (r: Option<
    (Vec<(String, Vec<u8>)>, usize),
>)
    requires
        i <= s@.len(),
    ensures
        r matches Some(mj) ==> cf_members(s@, i as int, cf_pairs_view(acc@)) == Some(
            (cf_pairs_view(mj.0@), mj.1 as int),
        ) && i < mj.1 <= s@.len(),
        r is None ==> cf_members(s@, i as int, cf_pairs_view(acc@)) is None,
    decreases s@.len() - i,
{
    let j = ws_from(s, i);
    if j < s.len() && s[j] == 0x22 {
        match parse_string(s, j + 1) {
            Some(kv) => {
                let (kbytes, j2) = kv;
                let ghost kb = kbytes@;
                proof {
                    lemma_str_rest_bounds(s@, (j + 1) as int);
                }
                match utf8_to_string(kbytes) {
                    Some(kstr) => {
                        proof {
                            vstd::utf8::decode_utf8_encode_utf8(kb);
                            assert(encode_utf8(kstr@) == kb);
                        }
                        let j3 = ws_from(s, j2);
                        if j3 < s.len() && s[j3] == 0x3a {
                            let j4 = ws_from(s, j3 + 1);
                            match skip_value(s, j4) {
                                Some(j5) => {
                                    let raw = slice_to_vec(slice_subrange(s, j4, j5));
                                    let mut acc2 = acc;
                                    upsert_entry(&mut acc2, kstr, raw);
                                    let j6 = ws_from(s, j5);
                                    if j6 < s.len() && s[j6] == 0x2c {
                                        parse_cf_members(s, j6 + 1, acc2)
                                    } else if j6 < s.len() && s[j6] == 0x7d {
                                        Some((acc2, j6 + 1))
                                    } else {
                                        None
                                    }
                                },
                                None => None,
                            }
                        } else {
                            None
                        }
                    },
                    None => None,
                }
            },
            None => None,
        }
    } else {
        None
    }
}

/// The byte-level pairs a list of string pairs stands for.
pub open spec fn ss_pairs_view(m: Seq<(String, String)>) -> Seq<(Seq<u8>, Seq<u8>)> {
    m.map_values(|p: (String, String)| (encode_utf8(p.0@), encode_utf8(p.1@)))
}

/// Replaces the first entry with this key, or appends one.
fn upsert_entry_ss(m: &mut Vec<(String, String)>, k: String, v: String)
    ensures
        ss_pairs_view(final(m)@) == upsert(
            ss_pairs_view(old(m)@),
            encode_utf8(k@),
            encode_utf8(v@),
        ),
{
    let ghost sm = ss_pairs_view(m@);
    let ghost kb = encode_utf8(k@);
    let mut idx: usize = 0;
    while idx < m.len() && !str_eq(m[idx].0.as_str(), k.as_str())
        invariant
            idx <= m@.len(),
            sm == ss_pairs_view(m@),
            kb == encode_utf8(k@),
            forall|j: int| 0 <= j < idx ==> (#[trigger] sm[j]).0 != kb,
        decreases m@.len() - idx,
    {
        proof {
            vstd::utf8::encode_utf8_decode_utf8(m@[idx as int].0@);
            vstd::utf8::encode_utf8_decode_utf8(k@);
        }
        idx = idx + 1;
    }
    proof {
        lemma_find_key_from(sm, kb, idx as int);
    }
    if idx < m.len() {
        proof {
            vstd::utf8::encode_utf8_decode_utf8(m@[idx as int].0@);
            vstd::utf8::encode_utf8_decode_utf8(k@);
            assert(sm[idx as int].0 == kb);
        }
        m.remove(idx);
        m.insert(idx, (k, v));
        proof {
            assert(ss_pairs_view(m@) =~= sm.update(idx as int, (kb, encode_utf8(v@))));
        }
    } else {
        m.push((k, v));
        proof {
            assert(ss_pairs_view(m@) =~= sm.push((kb, encode_utf8(v@))));
        }
    }
}

/// Finds the value stored under a key.
pub(crate) fn lookup_value(m: &Vec<(String, String)>, key: &str) -> (r: Option<String>)
    ensures
        r matches Some(v) ==> map_get(ss_pairs_view(m@), encode_utf8(key@)) == Some(
            encode_utf8(v@),
        ),
        r is None ==> map_get(ss_pairs_view(m@), encode_utf8(key@)) is None,
{
    let ghost sm = ss_pairs_view(m@);
    let ghost kb = encode_utf8(key@);
    let mut idx: usize = 0;
    while idx < m.len() && !str_eq(m[idx].0.as_str(), key)
        invariant
            idx <= m@.len(),
            sm == ss_pairs_view(m@),
            kb == encode_utf8(key@),
            forall|j: int| 0 <= j < idx ==> (#[trigger] sm[j]).0 != kb,
        decreases m@.len() - idx,
    {
        proof {
            vstd::utf8::encode_utf8_decode_utf8(m@[idx as int].0@);
            vstd::utf8::encode_utf8_decode_utf8(key@);
        }
        idx = idx + 1;
    }
    proof {
        lemma_find_key_from(sm, kb, idx as int);
    }
    if idx < m.len() {
        proof {
            vstd::utf8::encode_utf8_decode_utf8(m@[idx as int].0@);
            vstd::utf8::encode_utf8_decode_utf8(key@);
            assert(sm[idx as int].0 == kb);
        }
        Some(m[idx].1.clone())
    } else {
        None
    }
}

/// Parses error-response members, entered just after `{` or a `,`.
#[verifier::rlimit(100)]
fn parse_err_members(s: &[u8], i: usize, acc: Vec<(String, String)>) -> (r: Option<
    (Vec<(String, String)>, usize),
>)
    requires
        i <= s@.len(),
    ensures
        r matches Some(mj) ==> err_members(s@, i as int, ss_pairs_view(acc@)) == Some(
            (ss_pairs_view(mj.0@), mj.1 as int),
        ) && i < mj.1 <= s@.len(),
        r is None ==> err_members(s@, i as int, ss_pairs_view(acc@)) is None,
    decreases s@.len() - i,
{
    let j = ws_from(s, i);
    if j < s.len() && s[j] == 0x22 {
        match parse_string(s, j + 1) {
            Some(kv) => {
                let (kbytes, j2) = kv;
                let ghost kb = kbytes@;
                proof {
                    lemma_str_rest_bounds(s@, (j + 1) as int);
                }
                match utf8_to_string(kbytes) {
                    Some(kstr) => {
                        proof {
                            vstd::utf8::decode_utf8_encode_utf8(kb);
                        }
                        let j3 = ws_from(s, j2);
                        if j3 < s.len() && s[j3] == 0x3a {
                            let j4 = ws_from(s, j3 + 1);
                            if j4 < s.len() && s[j4] == 0x22 {
                                match parse_string(s, j4 + 1) {
                                    Some(vv) => {
                                        let (vbytes, j5) = vv;
                                        let ghost vb = vbytes@;
                                        proof {
                                            lemma_str_rest_bounds(s@, (j4 + 1) as int);
                                        }
                                        match utf8_to_string(vbytes) {
                                            Some(vstr) => {
                                                proof {
                                                    vstd::utf8::decode_utf8_encode_utf8(vb);
                                                }
                                                let mut acc2 = acc;
                                                upsert_entry_ss(&mut acc2, kstr, vstr);
                                                let j6 = ws_from(s, j5);
                                                if j6 < s.len() && s[j6] == 0x2c {
                                                    parse_err_members(s, j6 + 1, acc2)
                                                } else if j6 < s.len() && s[j6] == 0x7d {
                                                    Some((acc2, j6 + 1))
                                                } else {
                                                    None
                                                }
                                            },
                                            None => None,
                                        }
                                    },
                                    None => None,
                                }
                            } else {
                                None
                            }
                        } else {
                            None
                        }
                    },
                    None => None,
                }
            },
            None => None,
        }
    } else {
        None
    }
}

/// Decode state while scanning a success response.
pub struct AuthAccum {
    pub user_id: Option<i64>,
    pub is_new_user: Option<bool>,
    pub cf_seen: bool,
    pub custom_fields: Option<Vec<(String, Vec<u8>)>>,
}

impl View for AuthAccum {
    type V = AuthPartial;

    open spec fn view(&self) -> AuthPartial {
        AuthPartial {
            user_id: self.user_id,
            is_new_user: self.is_new_user,
            cf_seen: self.cf_seen,
            custom_fields: match self.custom_fields {
                Some(v) => Some(cf_pairs_view(v@)),
                None => None,
            },
        }
    }
}

/// Parses success-response members, entered just after `{` or a `,`.
#[verifier::rlimit(100)]
fn parse_auth_members(s: &[u8], i: usize, st: AuthAccum) -> (r: Option<(AuthAccum, usize)>)
    requires
        i <= s@.len(),
    ensures
        r matches Some(sj) ==> auth_members(s@, i as int, st@) == Some((sj.0@, sj.1 as int)) && i
            < sj.1 <= s@.len(),
        r is None ==> auth_members(s@, i as int, st@) is None,
    decreases s@.len() - i,
{
    let ghost st0 = st@;
    let j = ws_from(s, i);
    if j < s.len() && s[j] == 0x22 {
        match parse_string(s, j + 1) {
            Some(kv) => {
                let (kbytes, j2) = kv;
                let ghost kb = kbytes@;
                proof {
                    lemma_str_rest_bounds(s@, (j + 1) as int);
                }
                match utf8_to_string(kbytes) {
                    Some(kstr) => {
                        proof {
                            vstd::utf8::decode_utf8_encode_utf8(kb);
                        }
                        let j3 = ws_from(s, j2);
                        if j3 < s.len() && s[j3] == 0x3a {
                            let j4 = ws_from(s, j3 + 1);
                            let is_uid = str_eq(kstr.as_str(), "user_id");
                            let is_new = str_eq(kstr.as_str(), "is_new_user");
                            let is_cf = str_eq(kstr.as_str(), "custom_fields");
                            proof {
                                vstd::utf8::encode_utf8_decode_utf8(kstr@);
                                vstd::utf8::encode_utf8_decode_utf8("user_id"@);
                                vstd::utf8::encode_utf8_decode_utf8("is_new_user"@);
                                vstd::utf8::encode_utf8_decode_utf8("custom_fields"@);
                                assert(is_uid == (kb == encode_utf8("user_id"@)));
                                assert(is_new == (kb == encode_utf8("is_new_user"@)));
                                assert(is_cf == (kb == encode_utf8("custom_fields"@)));
                            }
                            let fr: Option<(AuthAccum, usize)> = if is_uid {
                                if st.user_id.is_some() {
                                    None
                                } else if j4 < s.len() && (s[j4] == 0x2d || (48 <= s[j4] && s[j4]
                                    <= 57)) {
                                    match skip_number(s, j4) {
                                        Some(e) => match parse_i64_span(s, j4, e) {
                                            Some(v) => Some(
                                                (AuthAccum { user_id: Some(v), ..st }, e),
                                            ),
                                            None => None,
                                        },
                                        None => None,
                                    }
                                } else {
                                    None
                                }
                            } else if is_new {
                                if st.is_new_user.is_some() {
                                    None
                                } else if s.len() >= 4 && j4 <= s.len() - 4 && s[j4] == 0x74
                                    && s[j4 + 1] == 0x72 && s[j4 + 2] == 0x75 && s[j4 + 3]
                                    == 0x65 {
                                    Some((AuthAccum { is_new_user: Some(true), ..st }, j4 + 4))
                                } else if s.len() >= 5 && j4 <= s.len() - 5 && s[j4] == 0x66
                                    && s[j4 + 1] == 0x61 && s[j4 + 2] == 0x6c && s[j4 + 3] == 0x73
                                    && s[j4 + 4] == 0x65 {
                                    Some((AuthAccum { is_new_user: Some(false), ..st }, j4 + 5))
                                } else {
                                    None
                                }
                            } else if is_cf {
                                if st.cf_seen {
                                    None
                                } else if s.len() >= 4 && j4 <= s.len() - 4 && s[j4] == 0x6e
                                    && s[j4 + 1] == 0x75 && s[j4 + 2] == 0x6c && s[j4 + 3]
                                    == 0x6c {
                                    Some(
                                        (
                                            AuthAccum {
                                                cf_seen: true,
                                                custom_fields: None,
                                                ..st
                                            },
                                            j4 + 4,
                                        ),
                                    )
                                } else if j4 < s.len() && s[j4] == 0x7b {
                                    proof {
                                        assert(cf_pairs_view(Seq::<(String, Vec<u8>)>::empty())
                                            =~= Seq::<(Seq<u8>, Seq<u8>)>::empty());
                                    }
                                    let jj = ws_from(s, j4 + 1);
                                    if jj < s.len() && s[jj] == 0x7d {
                                        Some(
                                            (
                                                AuthAccum {
                                                    cf_seen: true,
                                                    custom_fields: Some(Vec::new()),
                                                    ..st
                                                },
                                                jj + 1,
                                            ),
                                        )
                                    } else {
                                        match parse_cf_members(s, j4 + 1, Vec::new()) {
                                            Some(mj) => Some(
                                                (
                                                    AuthAccum {
                                                        cf_seen: true,
                                                        custom_fields: Some(mj.0),
                                                        ..st
                                                    },
                                                    mj.1,
                                                ),
                                            ),
                                            None => None,
                                        }
                                    }
                                } else {
                                    None
                                }
                            } else {
                                match skip_value(s, j4) {
                                    Some(e) => Some((st, e)),
                                    None => None,
                                }
                            };
                            proof {
                                assert(match fr {
                                    Some(p) => crate::models::auth_field(s@, j4 as int, st0, kb)
                                        == Some((p.0@, p.1 as int)) && j4 < p.1 <= s@.len(),
                                    None => crate::models::auth_field(s@, j4 as int, st0, kb)
                                        is None,
                                });
                            }
                            match fr {
                                Some(p) => {
                                    let (st2, j5) = p;
                                    let j6 = ws_from(s, j5);
                                    if j6 < s.len() && s[j6] == 0x2c {
                                        parse_auth_members(s, j6 + 1, st2)
                                    } else if j6 < s.len() && s[j6] == 0x7d {
                                        Some((st2, j6 + 1))
                                    } else {
                                        None
                                    }
                                },
                                None => None,
                            }
                        } else {
                            None
                        }
                    },
                    None => None,
                }
            },
            None => None,
        }
    } else {
        None
    }
}

/// Decodes a success body into the response value, exactly when the body
/// has the shape `auth_of` states.
#[verifier::rlimit(100)]
pub fn parse_auth_body(s: &[u8]) -> (r: Option<FaceAuthResponse>)
    ensures
        r matches Some(a) ==> auth_of(s@) == Some(a@),
        r is None ==> auth_of(s@) is None,
{
    let i = ws_from(s, 0);
    if i < s.len() && s[i] == 0x7b {
        let j = ws_from(s, i + 1);
        let scan: Option<(AuthAccum, usize)> = if j < s.len() && s[j] == 0x7d {
            Some(
                (
                    AuthAccum {
                        user_id: None,
                        is_new_user: None,
                        cf_seen: false,
                        custom_fields: None,
                    },
                    j + 1,
                ),
            )
        } else {
            parse_auth_members(
                s,
                i + 1,
                AuthAccum { user_id: None, is_new_user: None, cf_seen: false, custom_fields: None },
            )
        };
        match scan {
            Some(se) => {
                let (st, e) = se;
                if ws_from(s, e) == s.len() {
                    if st.user_id.is_some() && st.is_new_user.is_some() {
                        let u = st.user_id.unwrap();
                        let b = st.is_new_user.unwrap();
                        Some(
                            FaceAuthResponse {
                                user_id: u,
                                is_new_user: b,
                                custom_fields: st.custom_fields,
                            },
                        )
                    } else {
                        None
                    }
                } else {
                    None
                }
            },
            None => None,
        }
    } else {
        None
    }
}

/// Decodes a non-2xx body into its string-to-string mapping, exactly when
/// the body has the shape `errmap_of` states.
#[verifier::rlimit(100)]
pub fn parse_err_map(s: &[u8]) -> (r: Option<Vec<(String, String)>>)
    ensures
        r matches Some(m) ==> errmap_of(s@) == Some(ss_pairs_view(m@)),
        r is None ==> errmap_of(s@) is None,
{
    proof {
        assert(ss_pairs_view(Seq::<(String, String)>::empty()) =~= Seq::<
            (Seq<u8>, Seq<u8>),
        >::empty());
    }
    let i = ws_from(s, 0);
    if i < s.len() && s[i] == 0x7b {
        let j = ws_from(s, i + 1);
        let scan: Option<(Vec<(String, String)>, usize)> = if j < s.len() && s[j] == 0x7d {
            Some((Vec::new(), j + 1))
        } else {
            parse_err_members(s, i + 1, Vec::new())
        };
        match scan {
            Some(me) => {
                let (m, e) = me;
                if ws_from(s, e) == s.len() {
                    Some(m)
                } else {
                    None
                }
            },
            None => None,
        }
    } else {
        None
    }
}

} // verus!
