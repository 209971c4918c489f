//! The API client: immutable configuration, construction of the two
//! request bodies, and the mapping from an HTTP response (status and body
//! bytes) to either the decoded success value or a typed error.
//!
//! Performing the HTTP exchange itself is outside this crate; whatever does
//! so hands the status and the buffered body bytes to `handle_response`,
//! and wraps anything that prevented obtaining a response through
//! `transport_error`.

use crate::b64::{base64_standard, spec_base64};
use crate::errors::Error;
use crate::json::{check_json_value, is_json_value_exact};
use crate::models::{
    auth_of, cf_pairs_view, errmap_of, lookup_value, map_get, parse_auth_body, parse_err_map,
    FaceAuthResponse,
};
use vstd::prelude::*;
use vstd::string::StringExecFns;
use vstd::utf8::{decode_utf8, encode_utf8};

verus! {

/// The base URL used when none is supplied.
pub open spec fn default_base_url() -> Seq<char> {
    "https://api.biologreen.com/v1"@
}

pub open spec fn valid_header_byte(b: u8) -> bool {
    (b >= 32 && b != 127) || b == 9
}

/// Whether every byte may appear in an HTTP header value.
pub open spec fn valid_header_value(t: Seq<u8>) -> bool {
    forall|k: int| 0 <= k < t.len() ==> valid_header_byte(#[trigger] t[k])
}

/// Whether the key can be carried as the `X-API-KEY` header's value — the
/// check the transport layer applies when the client's headers are built.
/// Validating eagerly lets a caller report a configuration error instead
/// of failing at the first request.
pub fn api_key_is_valid(api_key: &str) -> (r: bool)
    ensures
        r == valid_header_value(encode_utf8(api_key@)),
{
    let bs = api_key.as_bytes();
    let mut k: usize = 0;
    while k < bs.len()
        invariant
            k <= bs@.len(),
            bs@ == encode_utf8(api_key@),
            forall|m: int| 0 <= m < k ==> valid_header_byte(#[trigger] bs@[m]),
        decreases bs@.len() - k,
    {
        let b = bs[k];
        if !((b >= 32 && b != 127) || b == 9) {
            return false;
        }
        k = k + 1;
    }
    true
}

/// One hex digit, lower case.
pub open spec fn hex_digit_char(n: int) -> u8 {
    if n < 10 {
        (48 + n) as u8
    } else {
        (97 + n - 10) as u8
    }
}

/// How one content byte is written inside a JSON string: quote and
/// backslash get a backslash escape, control bytes a `\u00XX` escape, and
/// everything else stands as itself.
pub open spec fn esc_of(b: u8) -> Seq<u8> {
    if b == 0x22 {
        seq![0x5cu8, 0x22u8]
    } else if b == 0x5c {
        seq![0x5cu8, 0x5cu8]
    } else if b < 0x20 {
        seq![
            0x5cu8,
            0x75u8,
            0x30u8,
            0x30u8,
            hex_digit_char((b as int) / 16),
            hex_digit_char((b as int) % 16),
        ]
    } else {
        seq![b]
    }
}

/// The escaped form of string content bytes.
pub open spec fn json_escape(t: Seq<u8>) -> Seq<u8>
    decreases t.len(),
{
    if t.len() == 0 {
        Seq::empty()
    } else {
        esc_of(t[0]) + json_escape(t.skip(1))
    }
}

/// One serialized custom-field member: the escaped key in quotes, a colon,
/// then the value's raw JSON bytes.
pub open spec fn cf_entry_bytes(p: (Seq<u8>, Seq<u8>)) -> Seq<u8> {
    encode_utf8("\""@) + json_escape(p.0) + encode_utf8("\":"@) + p.1
}

/// The serialized members from index `k` on, comma-separated.
pub open spec fn cf_items_from(m: Seq<(Seq<u8>, Seq<u8>)>, k: int) -> Seq<u8>
    decreases m.len() - k,
{
    if k < 0 || k >= m.len() {
        Seq::empty()
    } else {
        (if k > 0 {
            encode_utf8(","@)
        } else {
            Seq::empty()
        }) + cf_entry_bytes(m[k]) + cf_items_from(m, k + 1)
    }
}

/// The serialized custom-fields object.
pub open spec fn cf_obj_bytes(m: Seq<(Seq<u8>, Seq<u8>)>) -> Seq<u8> {
    encode_utf8("{"@) + cf_items_from(m, 0) + encode_utf8("}"@)
}

/// Every custom-field value must itself be exactly one JSON value.
pub open spec fn cf_all_valid(m: Seq<(Seq<u8>, Seq<u8>)>) -> bool {
    forall|k: int| 0 <= k < m.len() ==> is_json_value_exact((#[trigger] m[k]).1)
}

/// Opening of both request bodies, up to the base64 payload.
pub open spec fn body_prefix() -> Seq<u8> {
    encode_utf8("{\"image_base64\":\""@)
}

/// The login request body: the image, base64-encoded, as the only field.
pub open spec fn login_body(img: Seq<u8>) -> Seq<u8> {
    body_prefix() + spec_base64(img) + encode_utf8("\"}"@)
}

/// The signup request body: like the login body, with the serialized
/// custom-fields object appended when custom fields were supplied.
pub open spec fn signup_body(img: Seq<u8>, cf: Option<Seq<(Seq<u8>, Seq<u8>)>>) -> Seq<u8> {
    match cf {
        None => body_prefix() + spec_base64(img) + encode_utf8("\"}"@),
        Some(m) => body_prefix() + spec_base64(img) + encode_utf8("\",\"custom_fields\":"@)
            + cf_obj_bytes(m) + encode_utf8("}"@),
    }
}

/// When no custom fields are supplied, the signup body is exactly the login
/// body: no `custom_fields` key appears in it at all.
pub proof fn lemma_signup_body_no_custom_fields(img: Seq<u8>)
    ensures
        signup_body(img, None) == login_body(img),
{
}

/// Appends the escaped form of string content bytes.
fn escape_into(out: &mut Vec<u8>, t: &[u8])
    ensures
        final(out)@ == old(out)@ + json_escape(t@),
{
    let ghost base = out@;
    proof {
        assert(t@.skip(0) =~= t@);
    }
    let mut p: usize = 0;
    while p < t.len()
        invariant
            p <= t@.len(),
            out@ + json_escape(t@.skip(p as int)) == base + json_escape(t@),
        decreases t@.len() - p,
    {
        let b = t[p];
        proof {
            assert(t@.skip(p as int)[0] == b);
            assert(t@.skip(p as int).skip(1) =~= t@.skip(p + 1));
        }
        let ghost before = out@;
        if b == 0x22 {
            out.push(0x5c);
            out.push(0x22);
        } else if b == 0x5c {
            out.push(0x5c);
            out.push(0x5c);
        } else if b < 0x20 {
            out.push(0x5c);
            out.push(0x75);
            out.push(0x30);
            out.push(0x30);
            let hi = b / 16;
            let lo = b % 16;
            out.push(
                if hi < 10 {
                    48 + hi
                } else {
                    97 + hi - 10
                },
            );
            out.push(
                if lo < 10 {
                    48 + lo
                } else {
                    97 + lo - 10
                },
            );
        } else {
            out.push(b);
        }
        proof {
            assert(out@ =~= before + esc_of(b));
            assert(out@ + json_escape(t@.skip(p + 1)) =~= base + json_escape(t@));
        }
        p = p + 1;
    }
    proof {
        assert(t@.skip(p as int) =~= Seq::<u8>::empty());
        assert(out@ =~= base + json_escape(t@));
    }
}

/// A request ready to be sent: the full URL and the JSON body bytes.
/// Every request also carries the client's fixed headers: the API key,
/// the identifying user agent, and a JSON content type.
#[derive(Debug, PartialEq, Eq)]
pub struct ApiRequest {
    pub url: String,
    pub body: Vec<u8>,
}

/// The client's immutable configuration: the API key sent with every
/// request and the base URL requests are made against.
#[derive(Debug)]
pub struct BioLogreenClient {
    pub api_key: String,
    pub base_url: String,
}

impl BioLogreenClient {
    /// Builds a client from the API key, with the production base URL
    /// unless another is supplied. Construction never fails; whether the
    /// key can be carried as a header value is `api_key_is_valid`.
    pub fn new(api_key: String, base_url: Option<String>) -> (r: Self)
        ensures
            r.api_key@ == api_key@,
            r.base_url@ == (match base_url {
                Some(u) => u@,
                None => default_base_url(),
            }),
    {
        let base = match base_url {
            Some(u) => u,
            None => "https://api.biologreen.com/v1".to_owned(),
        };
        BioLogreenClient { api_key, base_url: base }
    }

    /// The login request: the base64-encoded image posted to
    /// `/auth/login-face` under the client's base URL.
    pub fn login_request(&self, image_bytes: &[u8]) -> (r: ApiRequest)
        ensures
            r.url@ == self.base_url@ + "/auth/login-face"@,
            r.body@ == login_body(image_bytes@),
    {
        let mut url = self.base_url.clone();
        url.append("/auth/login-face");
        let mut body: Vec<u8> = Vec::new();
        body.extend_from_slice("{\"image_base64\":\"".as_bytes());
        let mut b64v = base64_standard(image_bytes);
        body.append(&mut b64v);
        body.extend_from_slice("\"}".as_bytes());
        proof {
            assert(body@ =~= login_body(image_bytes@));
        }
        ApiRequest { url, body }
    }

    /// The signup request: the base64-encoded image, and the custom fields
    /// when supplied, posted to `/auth/signup-face` under the client's base
    /// URL. Each custom-field value must be the raw bytes of one JSON
    /// value; if any is not, no request is built.
    pub fn signup_request(
        &self,
        image_bytes: &[u8],
        custom_fields: Option<&Vec<(String, Vec<u8>)>>,
    ) -> (r: Option<ApiRequest>)
        ensures
            r is Some <==> (match custom_fields {
                Some(v) => cf_all_valid(cf_pairs_view(v@)),
                None => true,
            }),
            r matches Some(req) ==> req.url@ == self.base_url@ + "/auth/signup-face"@
                && req.body@ == signup_body(
                image_bytes@,
                match custom_fields {
                    Some(v) => Some(cf_pairs_view(v@)),
                    None => None,
                },
            ),
    {
        let mut url = self.base_url.clone();
        url.append("/auth/signup-face");
        let mut body: Vec<u8> = Vec::new();
        body.extend_from_slice("{\"image_base64\":\"".as_bytes());
        let mut b64v = base64_standard(image_bytes);
        body.append(&mut b64v);
        match custom_fields {
            None => {
                body.extend_from_slice("\"}".as_bytes());
                Some(ApiRequest { url, body })
            },
            Some(v) => {
                let ghost mv = cf_pairs_view(v@);
                let mut k: usize = 0;
                while k < v.len()
                    invariant
                        k <= v@.len(),
                        mv == cf_pairs_view(v@),
                        custom_fields == Some(v),
                        forall|m: int|
                            0 <= m < k ==> is_json_value_exact((#[trigger] mv[m]).1),
                    decreases v@.len() - k,
                {
                    if !check_json_value(v[k].1.as_slice()) {
                        proof {
                            assert(!is_json_value_exact(mv[k as int].1));
                            assert(!cf_all_valid(mv));
                        }
                        return None;
                    }
                    k = k + 1;
                }
                proof {
                    assert(cf_all_valid(mv));
                }
                body.extend_from_slice("\",\"custom_fields\":".as_bytes());
                body.extend_from_slice("{".as_bytes());
                let ghost mid = body@;
                let mut k2: usize = 0;
                while k2 < v.len()
                    invariant
                        k2 <= v@.len(),
                        mv == cf_pairs_view(v@),
                        body@ + cf_items_from(mv, k2 as int) == mid + cf_items_from(mv, 0),
                    decreases v@.len() - k2,
                {
                    let ghost before = body@;
                    if k2 > 0 {
                        body.extend_from_slice(",".as_bytes());
                    }
                    body.extend_from_slice("\"".as_bytes());
                    escape_into(&mut body, v[k2].0.as_str().as_bytes());
                    body.extend_from_slice("\":".as_bytes());
                    body.extend_from_slice(v[k2].1.as_slice());
                    proof {
                        assert(mv[k2 as int].0 == encode_utf8(v@[k2 as int].0@));
                        assert(mv[k2 as int].1 == v@[k2 as int].1@);
                        assert(body@ =~= before + (if k2 > 0 {
                            encode_utf8(","@)
                        } else {
                            Seq::<u8>::empty()
                        }) + cf_entry_bytes(mv[k2 as int]));
                        assert(body@ + cf_items_from(mv, k2 + 1) =~= mid + cf_items_from(
                            mv,
                            0,
                        ));
                    }
                    k2 = k2 + 1;
                }
                body.extend_from_slice("}".as_bytes());
                body.extend_from_slice("}".as_bytes());
                proof {
                    assert(body@ =~= signup_body(image_bytes@, Some(mv)));
                }
                Some(ApiRequest { url, body })
            },
        }
    }
}

/// Whether the HTTP status is in the success range.
pub open spec fn spec_is_success(status: u16) -> bool {
    200 <= status <= 299
}

/// The message used when an error body holds no `detail` field.
pub open spec fn fallback_message() -> Seq<char> {
    "An unknown API error occurred."@
}

/// The message of the transport error raised when a response body cannot
/// be decoded as its expected shape.
pub open spec fn decode_failure_message() -> Seq<char> {
    "failed to decode the response body"@
}

pub open spec fn detail_key() -> Seq<u8> {
    encode_utf8("detail"@)
}

/// The message an error mapping yields: its `detail` value, or the
/// fallback message when there is none.
pub open spec fn api_error_message(m: Seq<(Seq<u8>, Seq<u8>)>) -> Seq<char> {
    match map_get(m, detail_key()) {
        Some(d) => decode_utf8(d),
        None => fallback_message(),
    }
}

/// Maps an HTTP response to the call's result, exactly as the service
/// contract asks: a 2xx status decodes the body as the success value, with
/// a decode failure surfacing as a transport-class error; any other status
/// decodes the body as a string mapping and yields an API error carrying
/// that status and the `detail` message (or the fallback), with a body of
/// the wrong shape again surfacing as a transport-class error. An API
/// error is never produced without a response status.
pub fn handle_response(status: u16, body: &[u8]) -> (r: Result<FaceAuthResponse, Error>)
    ensures
        spec_is_success(status) ==> (match auth_of(body@) {
            Some(a) => r matches Ok(resp) && resp@ == a,
            None => r matches Err(e) && e matches Error::Network { message } && message@
                == decode_failure_message(),
        }),
        !spec_is_success(status) ==> (match errmap_of(body@) {
            Some(m) => r matches Err(e) && e matches Error::Api { status: st, message } && st
                == status && message@ == api_error_message(m),
            None => r matches Err(e) && e matches Error::Network { message } && message@
                == decode_failure_message(),
        }),
{
    if 200 <= status && status <= 299 {
        match parse_auth_body(body) {
            Some(a) => Ok(a),
            None => Err(
                Error::Network { message: "failed to decode the response body".to_owned() },
            ),
        }
    } else {
        match parse_err_map(body) {
            Some(m) => {
                match lookup_value(&m, "detail") {
                    Some(d) => {
                        proof {
                            vstd::utf8::encode_utf8_decode_utf8(d@);
                        }
                        Err(Error::Api { status, message: d })
                    },
                    None => Err(
                        Error::Api {
                            status,
                            message: "An unknown API error occurred.".to_owned(),
                        },
                    ),
                }
            },
            None => Err(
                Error::Network { message: "failed to decode the response body".to_owned() },
            ),
        }
    }
}

} // verus!
