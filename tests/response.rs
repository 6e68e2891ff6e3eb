use http_message::decimal::parse_decimal;
use http_message::response::{phrase_from_code, to_str_without_body, Response};
use http_message::text::{decode_text, trim_str};

#[test]
fn test_res_new() {
    let res = Response::new("1.1", 200);
    assert_eq!(res.version, String::from("1.1"));
    assert_eq!(res.response_code, 200);
    assert_eq!(res.response_phrase, String::from("OK"));
    assert_eq!(res.body.len(), 0);
}

#[test]
fn test_res_headers() {
    let version = "1.1";
    let res = Response::new(&version, 200).set_header("foo", "foo_val").set_header("bar", "bar_val");
    assert_eq!(res.get_header("foo"), Some(&String::from("foo_val")));
    assert_eq!(res.get_header("bar"), Some(&String::from("bar_val")));
}

#[test]
fn test_res_set_body() {
    let version = "1.1";
    let res = Response::new(&version, 200).set_body("Hello, World!\r\n".as_bytes());
    assert_eq!(res.body, "Hello, World!\r\n".as_bytes());
}

#[test]
fn test_res_serialize() {
    let version = "1.1";
    let res = Response::new(&version, 200)
        .set_header("foo", "foo_val")
        .set_header("bar", "bar_val")
        .set_body("Hello, World!\r\n\r\n".as_bytes());
    let bytes = res.serialize();

    let start_line = "HTTP/1.1 200 OK\r\n";
    let headers1 = "foo: foo_val\r\nbar: bar_val\r\n\r\n";
    let headers2 = "bar: bar_val\r\nfoo: foo_val\r\n\r\n";
    let body = "Hello, World!\r\n\r\n";
    let exp_bytes1 = format!("{}{}{}", start_line, headers1, body);
    let exp_bytes2 = format!("{}{}{}", start_line, headers2, body);

    if bytes != exp_bytes1.as_str().as_bytes() {
        assert_eq!(bytes, exp_bytes2.as_str().as_bytes());
    } else {
        assert_eq!(bytes, exp_bytes1.as_str().as_bytes());
    }
}

#[test]
fn phrase_for_not_found() {
    assert_eq!(Response::new("1.1", 404).response_phrase, "NOT FOUND");
}

#[test]
fn phrase_for_unmapped_code_is_empty() {
    assert_eq!(Response::new("1.1", 500).response_phrase, "");
    assert_eq!(phrase_from_code(201), "");
}

#[test]
fn serialize_without_headers_or_body() {
    let res = Response::new("1.0", 404);
    assert_eq!(res.serialize(), b"HTTP/1.0 404 NOT FOUND\r\n\r\n".to_vec());
}

#[test]
fn serialize_negative_and_large_codes() {
    assert_eq!(Response::new("1.1", -7).serialize(), b"HTTP/1.1 -7 \r\n\r\n".to_vec());
    assert_eq!(
        Response::new("1.1", i32::MIN).serialize(),
        b"HTTP/1.1 -2147483648 \r\n\r\n".to_vec()
    );
    assert_eq!(Response::new("1.1", 0).serialize(), b"HTTP/1.1 0 \r\n\r\n".to_vec());
}

#[test]
fn serialize_keeps_binary_body() {
    let res = Response::new("1.1", 200).set_body(&[0, 0xff, 13, 10]);
    assert_eq!(res.serialize(), b"HTTP/1.1 200 OK\r\n\r\n\x00\xff\r\n".to_vec());
}

#[test]
fn response_set_header_twice_keeps_latest() {
    let res = Response::new("1.1", 200).set_header("a", "1").set_header("a", "2");
    assert_eq!(res.get_header("a"), Some(&String::from("2")));
    assert_eq!(res.serialize(), b"HTTP/1.1 200 OK\r\na: 2\r\n\r\n".to_vec());
}

#[test]
fn set_body_replaces_body() {
    let res = Response::new("1.1", 200).set_body(b"first").set_body(b"2nd");
    assert_eq!(res.body, b"2nd".to_vec());
}

#[test]
fn head_text_has_no_body() {
    let res = Response::new("1.1", 200).set_header("k", "v").set_body(b"body");
    assert_eq!(to_str_without_body(&res), "HTTP/1.1 200 OK\r\nk: v\r\n\r\n");
}

#[test]
fn decode_text_checks_utf8() {
    assert_eq!(decode_text(vec![0xc3, 0xa9]), Some(String::from("\u{e9}")));
    assert_eq!(decode_text(vec![0xc3]), None);
    assert_eq!(decode_text(vec![0xed, 0xa0, 0x80]), None);
}

#[test]
fn trim_drops_surrounding_whitespace() {
    assert_eq!(trim_str(" \t a b \r\n"), "a b");
    assert_eq!(trim_str("   "), "");
}

#[test]
fn decimal_values() {
    assert_eq!(parse_decimal("17"), Some(17));
    assert_eq!(parse_decimal("+5"), Some(5));
    assert_eq!(parse_decimal("007"), Some(7));
    assert_eq!(parse_decimal(""), None);
    assert_eq!(parse_decimal("+"), None);
    assert_eq!(parse_decimal("-1"), None);
    assert_eq!(parse_decimal("1 2"), None);
    assert_eq!(parse_decimal(&usize::MAX.to_string()), Some(usize::MAX));
    assert_eq!(parse_decimal("99999999999999999999999"), None);
}
