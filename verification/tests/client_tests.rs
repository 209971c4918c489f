use biologreen::{handle_response, transport_error, BioLogreenClient, Error};

fn client() -> BioLogreenClient {
    BioLogreenClient::new("test-key".to_string(), None)
}

#[test]
fn success_response_decodes() {
    let body = br#"{"user_id": 42, "is_new_user": true, "custom_fields": {"a": 1}}"#;
    let r = handle_response(200, body).unwrap();
    assert_eq!(r.user_id, 42);
    assert!(r.is_new_user);
    let cf = r.custom_fields.unwrap();
    assert_eq!(cf.len(), 1);
    assert_eq!(cf[0].0, "a");
    assert_eq!(cf[0].1, b"1".to_vec());
}

#[test]
fn api_error_carries_status_and_detail() {
    let body = br#"{"detail": "invalid image"}"#;
    match handle_response(400, body) {
        Err(Error::Api { status, message }) => {
            assert_eq!(status, 400);
            assert_eq!(message, "invalid image");
        },
        other => panic!("expected an API error, got {:?}", other),
    }
}

#[test]
fn api_error_empty_body_uses_fallback_message() {
    match handle_response(500, b"{}") {
        Err(Error::Api { status, message }) => {
            assert_eq!(status, 500);
            assert_eq!(message, "An unknown API error occurred.");
        },
        other => panic!("expected an API error, got {:?}", other),
    }
}

#[test]
fn transport_error_is_network_kind() {
    match transport_error("connection refused".to_string()) {
        Error::Network { message } => assert_eq!(message, "connection refused"),
        other => panic!("expected a network error, got {:?}", other),
    }
}

#[test]
fn concurrent_style_distinct_inputs_stay_independent() {
    let b1 = br#"{"user_id": 1, "is_new_user": true}"#;
    let b2 = br#"{"user_id": 2, "is_new_user": false}"#;
    let r1 = handle_response(200, b1).unwrap();
    let r2 = handle_response(200, b2).unwrap();
    assert_eq!(r1.user_id, 1);
    assert!(r1.is_new_user);
    assert_eq!(r2.user_id, 2);
    assert!(!r2.is_new_user);
}

#[test]
fn login_body_base64_round_trips() {
    let c = client();
    let cases: Vec<Vec<u8>> = vec![
        vec![],
        vec![0],
        vec![0, 1],
        vec![0, 1, 2],
        vec![255, 254, 253, 252],
        (0u16..300).map(|x| (x % 256) as u8).collect(),
    ];
    for bytes in cases {
        let req = c.login_request(&bytes);
        let body = String::from_utf8(req.body).unwrap();
        let b64 = body
            .strip_prefix("{\"image_base64\":\"")
            .unwrap()
            .strip_suffix("\"}")
            .unwrap();
        let decoded = base64::Engine::decode(&base64::engine::general_purpose::STANDARD, b64)
            .unwrap();
        assert_eq!(decoded, bytes);
    }
}

#[test]
fn login_body_matches_crate_encoding() {
    let c = client();
    let bytes = b"face image bytes";
    let req = c.login_request(bytes);
    let expected = format!(
        "{{\"image_base64\":\"{}\"}}",
        base64::Engine::encode(&base64::engine::general_purpose::STANDARD, bytes)
    );
    assert_eq!(req.body, expected.into_bytes());
}

#[test]
fn signup_body_without_custom_fields_has_no_custom_fields_key() {
    let c = client();
    let req = c.signup_request(b"img", None).unwrap();
    let body = String::from_utf8(req.body).unwrap();
    assert!(!body.contains("custom_fields"));
    assert_eq!(
        body,
        format!(
            "{{\"image_base64\":\"{}\"}}",
            base64::Engine::encode(&base64::engine::general_purpose::STANDARD, b"img")
        )
    );
}

#[test]
fn signup_body_with_custom_fields_is_exact() {
    let c = client();
    let cf = vec![
        ("plan".to_string(), b"\"gold\"".to_vec()),
        ("age".to_string(), b"30".to_vec()),
    ];
    let req = c.signup_request(b"img", Some(&cf)).unwrap();
    let body = String::from_utf8(req.body).unwrap();
    let b64 = base64::Engine::encode(&base64::engine::general_purpose::STANDARD, b"img");
    assert_eq!(
        body,
        format!(
            "{{\"image_base64\":\"{}\",\"custom_fields\":{{\"plan\":\"gold\",\"age\":30}}}}",
            b64
        )
    );
    let parsed: serde_json::Value = serde_json::from_str(&body).unwrap();
    assert_eq!(parsed["custom_fields"]["plan"], serde_json::Value::from("gold"));
    assert_eq!(parsed["custom_fields"]["age"], serde_json::Value::from(30));
}

#[test]
fn signup_rejects_invalid_custom_field_value() {
    let c = client();
    let cf = vec![("broken".to_string(), b"{not json".to_vec())];
    assert!(c.signup_request(b"img", Some(&cf)).is_none());
}

#[test]
fn signup_escapes_custom_field_keys() {
    let c = client();
    let cf = vec![("a\"b\\c".to_string(), b"1".to_vec())];
    let req = c.signup_request(b"", Some(&cf)).unwrap();
    let body = String::from_utf8(req.body).unwrap();
    assert!(body.contains("\"a\\\"b\\\\c\":1"));
    let parsed: serde_json::Value = serde_json::from_str(&body).unwrap();
    assert_eq!(parsed["custom_fields"]["a\"b\\c"], serde_json::Value::from(1));
}

#[test]
fn new_uses_default_base_url() {
    let c = client();
    let req = c.login_request(b"x");
    assert!(req.url.starts_with("https://api.biologreen.com/v1"));
    assert_eq!(req.url, "https://api.biologreen.com/v1/auth/login-face");
}

#[test]
fn new_uses_supplied_base_url() {
    let c = BioLogreenClient::new("k".to_string(), Some("http://localhost:9000".to_string()));
    let req = c.signup_request(b"x", None).unwrap();
    assert_eq!(req.url, "http://localhost:9000/auth/signup-face");
}

#[test]
fn api_key_validity_matches_header_rules() {
    assert!(biologreen::client::api_key_is_valid("sk-live-1234"));
    assert!(biologreen::client::api_key_is_valid("spaces are fine"));
    assert!(biologreen::client::api_key_is_valid("tab\tis fine"));
    assert!(!biologreen::client::api_key_is_valid("no\nnewlines"));
    assert!(!biologreen::client::api_key_is_valid("no\rreturns"));
}

#[test]
fn success_boundaries_of_status_range() {
    let ok_body = br#"{"user_id": 7, "is_new_user": false}"#;
    assert!(handle_response(299, ok_body).is_ok());
    match handle_response(300, br#"{"detail": "redirected"}"#) {
        Err(Error::Api { status, message }) => {
            assert_eq!(status, 300);
            assert_eq!(message, "redirected");
        },
        other => panic!("expected an API error, got {:?}", other),
    }
}

#[test]
fn malformed_success_body_is_network_error() {
    for body in [
        &b"not json"[..],
        br#"{"user_id": "42", "is_new_user": true}"#,
        br#"{"user_id": 42.0, "is_new_user": true}"#,
        br#"{"user_id": 42}"#,
        br#"{"is_new_user": true}"#,
        br#"{"user_id": 42, "is_new_user": true} trailing"#,
        br#"{"user_id": 42, "is_new_user": true, "custom_fields": [1]}"#,
        br#"{"user_id": 42, "user_id": 43, "is_new_user": true}"#,
        br#"{"user_id": 9223372036854775808, "is_new_user": true}"#,
        br#"[]"#,
        br#"{}"#,
    ] {
        match handle_response(200, body) {
            Err(Error::Network { .. }) => {},
            other => panic!("expected a network error for {:?}, got {:?}", body, other),
        }
    }
}

#[test]
fn success_body_edge_values_decode() {
    let r = handle_response(
        200,
        br#"  {"user_id": 9223372036854775807, "is_new_user": false, "ignored": [1, {"x": "y"}]}  "#,
    )
    .unwrap();
    assert_eq!(r.user_id, i64::MAX);
    assert!(!r.is_new_user);
    assert!(r.custom_fields.is_none());

    let r = handle_response(200, br#"{"user_id": -42, "is_new_user": true}"#).unwrap();
    assert_eq!(r.user_id, -42);

    let r = handle_response(
        200,
        br#"{"user_id": -9223372036854775808, "is_new_user": true, "custom_fields": null}"#,
    )
    .unwrap();
    assert_eq!(r.user_id, i64::MIN);
    assert!(r.custom_fields.is_none());
}

#[test]
fn custom_fields_preserve_raw_values_and_last_duplicate_wins() {
    let r = handle_response(
        200,
        br#"{"user_id": 1, "is_new_user": false, "custom_fields": {"a": {"deep": [1, 2]}, "b": "s", "a": 3}}"#,
    )
    .unwrap();
    let cf = r.custom_fields.unwrap();
    assert_eq!(cf.len(), 2);
    assert_eq!(cf[0].0, "a");
    assert_eq!(cf[0].1, b"3".to_vec());
    assert_eq!(cf[1].0, "b");
    assert_eq!(cf[1].1, b"\"s\"".to_vec());
}

#[test]
fn error_body_with_escapes_unescapes_detail() {
    match handle_response(422, br#"{"detail": "A bad \"image\"\n"}"#) {
        Err(Error::Api { status, message }) => {
            assert_eq!(status, 422);
            assert_eq!(message, "A bad \"image\"\n");
        },
        other => panic!("expected an API error, got {:?}", other),
    }
}

#[test]
fn error_body_duplicate_detail_last_wins() {
    match handle_response(400, br#"{"detail": "first", "detail": "second"}"#) {
        Err(Error::Api { message, .. }) => assert_eq!(message, "second"),
        other => panic!("expected an API error, got {:?}", other),
    }
}

#[test]
fn malformed_error_body_is_network_error() {
    for body in [
        &b"oops"[..],
        br#"{"detail": 5}"#,
        br#"{"detail": {"nested": "x"}}"#,
        br#"["detail"]"#,
        br#""detail""#,
        br#"{"detail": "x"} extra"#,
    ] {
        match handle_response(500, body) {
            Err(Error::Network { .. }) => {},
            other => panic!("expected a network error for {:?}, got {:?}", body, other),
        }
    }
}

#[test]
fn surrogate_pair_escape_decodes() {
    match handle_response(400, b"{\"detail\": \"\\ud83d\\ude00\"}") {
        Err(Error::Api { message, .. }) => assert_eq!(message, "\u{1f600}"),
        other => panic!("expected an API error, got {:?}", other),
    }
}

#[test]
fn user_id_negative_zero_decodes_to_zero() {
    let r = handle_response(200, br#"{"user_id": -0, "is_new_user": false}"#).unwrap();
    assert_eq!(r.user_id, 0);
}

#[test]
fn user_id_with_exponent_is_network_error() {
    for body in [
        &br#"{"user_id": 1e2, "is_new_user": true}"#[..],
        br#"{"user_id": 1E2, "is_new_user": true}"#,
        br#"{"user_id": 042, "is_new_user": true}"#,
    ] {
        match handle_response(200, body) {
            Err(Error::Network { .. }) => {},
            other => panic!("expected a network error for {:?}, got {:?}", body, other),
        }
    }
}

#[test]
fn empty_custom_fields_object_decodes_to_empty_list() {
    let r = handle_response(
        200,
        br#"{"user_id": 5, "is_new_user": false, "custom_fields": {}}"#,
    )
    .unwrap();
    assert_eq!(r.custom_fields, Some(vec![]));
}

#[test]
fn lone_surrogate_escape_is_network_error() {
    match handle_response(400, b"{\"detail\": \"\\ud83d\"}") {
        Err(Error::Network { .. }) => {},
        other => panic!("expected a network error, got {:?}", other),
    }
}

#[test]
fn signup_with_empty_custom_fields_list_serializes_empty_object() {
    let c = client();
    let cf: Vec<(String, Vec<u8>)> = vec![];
    let req = c.signup_request(b"", Some(&cf)).unwrap();
    let body = String::from_utf8(req.body).unwrap();
    assert_eq!(body, "{\"image_base64\":\"\",\"custom_fields\":{}}");
}
