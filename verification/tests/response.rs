use ktra_login::flow::{handle_response, request_body, build_login_url, LoginError};
use ktra_login::response::{parse_response, join_details, KtraError, KtraResponse};

fn details(msgs: &[&str]) -> Vec<KtraError> {
    msgs.iter().map(|m| KtraError { detail: m.as_bytes().to_vec() }).collect()
}

#[test]
fn token_reply_parses() {
    let r = parse_response(b"{\"token\":\"abc123\"}");
    assert_eq!(r, Ok(KtraResponse::Token(b"abc123".to_vec())));
}

#[test]
fn token_reply_with_whitespace_parses() {
    let r = parse_response(b" \t\r\n{ \"token\" : \"abc123\" } \n");
    assert_eq!(r, Ok(KtraResponse::Token(b"abc123".to_vec())));
}

#[test]
fn empty_token_parses() {
    let r = parse_response(b"{\"token\":\"\"}");
    assert_eq!(r, Ok(KtraResponse::Token(Vec::new())));
}

#[test]
fn escapes_in_token_are_unescaped() {
    let r = parse_response(b"{\"token\":\"a\\\"b\\\\c\\nd\\te\\/f\"}");
    assert_eq!(r, Ok(KtraResponse::Token(b"a\"b\\c\nd\te/f".to_vec())));
}

#[test]
fn single_error_parses() {
    let r = parse_response(b"{\"errors\":[{\"detail\":\"bad password\"}]}");
    assert_eq!(r, Ok(KtraResponse::Errors(details(&["bad password"]))));
}

#[test]
fn two_errors_parse() {
    let r = parse_response(b"{\"errors\":[{\"detail\":\"a\"},{\"detail\":\"b\"}]}");
    assert_eq!(r, Ok(KtraResponse::Errors(details(&["a", "b"]))));
}

#[test]
fn empty_error_list_parses() {
    let r = parse_response(b"{\"errors\":[]}");
    assert_eq!(r, Ok(KtraResponse::Errors(Vec::new())));
}

#[test]
fn errors_with_whitespace_parse() {
    let r = parse_response(b"{ \"errors\" : [ { \"detail\" : \"a\" } , { \"detail\" : \"b\" } ] }");
    assert_eq!(r, Ok(KtraResponse::Errors(details(&["a", "b"]))));
}

#[test]
fn garbage_is_a_protocol_error() {
    assert_eq!(parse_response(b"not json"), Err(LoginError::Protocol));
}

#[test]
fn empty_body_is_a_protocol_error() {
    assert_eq!(parse_response(b""), Err(LoginError::Protocol));
}

#[test]
fn unknown_key_is_a_protocol_error() {
    assert_eq!(parse_response(b"{\"message\":\"hi\"}"), Err(LoginError::Protocol));
}

#[test]
fn truncated_reply_is_a_protocol_error() {
    assert_eq!(parse_response(b"{\"token\":\"abc"), Err(LoginError::Protocol));
}

#[test]
fn trailing_garbage_is_a_protocol_error() {
    assert_eq!(parse_response(b"{\"token\":\"abc\"} x"), Err(LoginError::Protocol));
}

#[test]
fn unknown_escape_is_a_protocol_error() {
    assert_eq!(parse_response(b"{\"token\":\"a\\qb\"}"), Err(LoginError::Protocol));
}

#[test]
fn unicode_escape_is_decoded() {
    let r = parse_response(b"{\"token\":\"\\u0041\"}");
    assert_eq!(r, Ok(KtraResponse::Token(b"A".to_vec())));
}

#[test]
fn two_byte_unicode_escape_is_utf8_encoded() {
    let r = parse_response(b"{\"token\":\"\\u00e9\"}");
    assert_eq!(r, Ok(KtraResponse::Token(vec![0xC3, 0xA9])));
}

#[test]
fn three_byte_unicode_escape_is_utf8_encoded() {
    let r = parse_response(b"{\"token\":\"\\u20AC\"}");
    assert_eq!(r, Ok(KtraResponse::Token(vec![0xE2, 0x82, 0xAC])));
}

#[test]
fn surrogate_pair_combines_to_one_code_point() {
    let r = parse_response(b"{\"token\":\"\\ud83d\\ude00\"}");
    assert_eq!(r, Ok(KtraResponse::Token(vec![0xF0, 0x9F, 0x98, 0x80])));
}

#[test]
fn lone_high_surrogate_is_a_protocol_error() {
    assert_eq!(parse_response(b"{\"token\":\"\\ud83dx\"}"), Err(LoginError::Protocol));
}

#[test]
fn lone_low_surrogate_is_a_protocol_error() {
    assert_eq!(parse_response(b"{\"token\":\"\\ude00\"}"), Err(LoginError::Protocol));
}

#[test]
fn bad_hex_in_unicode_escape_is_a_protocol_error() {
    assert_eq!(parse_response(b"{\"token\":\"\\u00g1\"}"), Err(LoginError::Protocol));
}

#[test]
fn truncated_unicode_escape_is_a_protocol_error() {
    assert_eq!(parse_response(b"{\"token\":\"\\u00"), Err(LoginError::Protocol));
}

#[test]
fn unknown_members_of_an_error_entry_are_ignored() {
    let r = parse_response(b"{\"errors\":[{\"detail\":\"a\",\"status\":\"403\"}]}");
    assert_eq!(r, Ok(KtraResponse::Errors(details(&["a"]))));
}

#[test]
fn detail_may_come_after_unknown_members() {
    let r = parse_response(
        b"{\"errors\":[{\"status\":403,\"meta\":{\"x\":[1,true,null]},\"detail\":\"a\"}]}",
    );
    assert_eq!(r, Ok(KtraResponse::Errors(details(&["a"]))));
}

#[test]
fn duplicate_detail_member_is_a_protocol_error() {
    assert_eq!(
        parse_response(b"{\"errors\":[{\"detail\":\"a\",\"detail\":\"b\"}]}"),
        Err(LoginError::Protocol)
    );
}

#[test]
fn non_string_detail_is_a_protocol_error() {
    assert_eq!(
        parse_response(b"{\"errors\":[{\"detail\":5}]}"),
        Err(LoginError::Protocol)
    );
}

#[test]
fn empty_error_entry_is_a_protocol_error() {
    assert_eq!(parse_response(b"{\"errors\":[{}]}"), Err(LoginError::Protocol));
}

#[test]
fn trailing_comma_in_error_entry_is_a_protocol_error() {
    assert_eq!(
        parse_response(b"{\"errors\":[{\"detail\":\"a\",}]}"),
        Err(LoginError::Protocol)
    );
}

#[test]
fn escaped_detail_key_is_recognized() {
    let r = parse_response(b"{\"errors\":[{\"\\u0064etail\":\"a\"}]}");
    assert_eq!(r, Ok(KtraResponse::Errors(details(&["a"]))));
}

#[test]
fn moderately_nested_unknown_value_is_skipped() {
    let mut body = String::from("{\"errors\":[{\"detail\":\"a\",\"x\":");
    body.push_str(&"[".repeat(50));
    body.push_str(&"]".repeat(50));
    body.push_str("}]}");
    let r = parse_response(body.as_bytes());
    assert_eq!(r, Ok(KtraResponse::Errors(details(&["a"]))));
}

#[test]
fn unknown_value_nested_past_the_limit_is_a_protocol_error() {
    let mut body = String::from("{\"errors\":[{\"detail\":\"a\",\"x\":");
    body.push_str(&"[".repeat(200));
    body.push_str(&"]".repeat(200));
    body.push_str("}]}");
    assert_eq!(parse_response(body.as_bytes()), Err(LoginError::Protocol));
}

#[test]
fn raw_control_byte_in_string_is_a_protocol_error() {
    assert_eq!(parse_response(b"{\"token\":\"a\x01b\"}"), Err(LoginError::Protocol));
}

#[test]
fn error_entry_with_wrong_key_is_a_protocol_error() {
    assert_eq!(
        parse_response(b"{\"errors\":[{\"message\":\"a\"}]}"),
        Err(LoginError::Protocol)
    );
}

#[test]
fn join_of_nothing_is_empty() {
    assert_eq!(join_details(&Vec::new()), Vec::<u8>::new());
}

#[test]
fn join_of_one_is_the_message() {
    assert_eq!(join_details(&details(&["bad password"])), b"bad password".to_vec());
}

#[test]
fn join_of_two_uses_comma_space() {
    assert_eq!(join_details(&details(&["a", "b"])), b"a, b".to_vec());
}

#[test]
fn bad_password_reply_fails_with_its_detail() {
    let resp = parse_response(b"{\"errors\":[{\"detail\":\"bad password\"}]}").unwrap();
    let r = handle_response(resp, false);
    assert_eq!(r, Err(LoginError::Remote(b"bad password".to_vec())));
}

#[test]
fn two_error_reply_joins_details_in_order() {
    let resp = parse_response(b"{\"errors\":[{\"detail\":\"a\"},{\"detail\":\"b\"}]}").unwrap();
    let r = handle_response(resp, false);
    assert_eq!(r, Err(LoginError::Remote(b"a, b".to_vec())));
}

#[test]
fn token_reply_is_stored_when_not_dry_run() {
    let resp = parse_response(b"{\"token\":\"abc123\"}").unwrap();
    let r = handle_response(resp, false);
    assert_eq!(r, Ok(Some(b"abc123".to_vec())));
}

#[test]
fn dry_run_discards_the_token() {
    let resp = parse_response(b"{\"token\":\"abc123\"}").unwrap();
    let r = handle_response(resp, true);
    assert_eq!(r, Ok(None));
}

#[test]
fn dry_run_still_fails_on_an_error_reply() {
    let resp = parse_response(b"{\"errors\":[{\"detail\":\"no such user\"}]}").unwrap();
    let r = handle_response(resp, true);
    assert_eq!(r, Err(LoginError::Remote(b"no such user".to_vec())));
}

#[test]
fn dry_run_body_is_the_empty_object() {
    assert_eq!(request_body(&b"hunter2".to_vec(), true), b"{}".to_vec());
}

#[test]
fn body_carries_a_plain_password() {
    assert_eq!(
        request_body(&b"hunter2".to_vec(), false),
        b"{\"password\": \"hunter2\"}".to_vec()
    );
}

#[test]
fn empty_password_body() {
    assert_eq!(
        request_body(&Vec::new(), false),
        b"{\"password\": \"\"}".to_vec()
    );
}

#[test]
fn body_escapes_quote_and_backslash() {
    assert_eq!(
        request_body(&b"a\"b\\c".to_vec(), false),
        b"{\"password\": \"a\\\"b\\\\c\"}".to_vec()
    );
}

#[test]
fn body_escapes_control_bytes() {
    assert_eq!(
        request_body(&b"a\nb\t\x01".to_vec(), false),
        b"{\"password\": \"a\\nb\\t\\u0001\"}".to_vec()
    );
}

#[test]
fn crafted_password_cannot_inject_fields() {
    assert_eq!(
        request_body(&b"x\", \"admin\": \"true".to_vec(), false),
        b"{\"password\": \"x\\\", \\\"admin\\\": \\\"true\"}".to_vec()
    );
}

#[test]
fn login_url_joins_api_path_and_username() {
    assert_eq!(
        build_login_url(&b"https://crates.example".to_vec(), &b"alice".to_vec()),
        b"https://crates.example/ktra/api/v1/login/alice".to_vec()
    );
}

#[test]
fn login_url_percent_encodes_the_username() {
    assert_eq!(
        build_login_url(&b"https://crates.example".to_vec(), &b"a b/c?#".to_vec()),
        b"https://crates.example/ktra/api/v1/login/a%20b%2Fc%3F%23".to_vec()
    );
}

#[test]
fn login_url_percent_encodes_non_ascii_bytes() {
    assert_eq!(
        build_login_url(&b"http://r".to_vec(), &vec![0xC3, 0xA9]),
        b"http://r/ktra/api/v1/login/%C3%A9".to_vec()
    );
}

#[test]
fn login_url_keeps_unreserved_bytes() {
    assert_eq!(
        build_login_url(&b"http://r".to_vec(), &b"A-z.9_~".to_vec()),
        b"http://r/ktra/api/v1/login/A-z.9_~".to_vec()
    );
}
