use http_message::request::{ParseError, Request};

#[test]
fn test_req_create() {
    let req = Request::new("GET", "/hello", "1.1");
    assert_eq!(req.method, String::from("GET"));
    assert_eq!(req.target, String::from("/hello"));
    assert_eq!(req.version, String::from("1.1"));
}

#[test]
fn test_req_get_set_header() {
    let name = "Content-Type";
    let value = "text/html";
    let mut req = Request::new("GET", "/hello", "1.1");
    assert_eq!(req.get_header(name), None);
    assert_eq!(req.set_header(name, value).get_header(name), Some(&String::from(value)));
}

#[test]
fn test_req_to_string() {
    let name = "Content-Type";
    let value = "text/html";
    let body = "Hello, World!";
    let mut req = Request::new("GET", "/hello", "1.1");
    req.set_header(name, value);
    req.body.append(&mut body.as_bytes().to_vec());
    println!("To String:\n{}", req.to_string());
    assert_eq!(
        req.to_string(),
        format!("{}\r\n{}: {}\r\n\r\n{}\r\n\r\n", "GET /hello HTTP/1.1", name, value, body)
    );
}

#[test]
fn test_req_parse() {
    let mut msg = String::new();
    msg.push_str("GET /hello HTTP/1.1\r\n");
    msg.push_str("Content-Type: text/html\r\n");
    msg.push_str("Accept-Charset: utf-8\r\n\r\n");
    msg.push_str("Hello, World!\r\n\r\n");
    let parse_result = Request::parse(msg.as_bytes());
    assert!(parse_result.is_ok());
    let parse = parse_result.unwrap();
    println!("To String After Parse:\n{}", parse.to_string());
    assert_eq!(parse.method, "GET");
    assert_eq!(parse.target, "/hello");
    assert_eq!(parse.version, "1.1");
    assert_eq!(parse.get_header("Content-Type"), Some(&String::from("text/html")));
    assert_eq!(parse.get_header("Accept-Charset"), Some(&String::from("utf-8")));
    assert_eq!(parse.body.len(), 15);
    let body = String::from_utf8(parse.body).unwrap_or(String::new());
    assert_eq!(body, String::from("Hello, World!\r\n"));
}

#[test]
fn test_req_parse_exact() {
    let mut msg = String::new();
    msg.push_str("GET /hello HTTP/1.1\r\n");
    msg.push_str("Content-Length: 17\r\n\r\n");
    msg.push_str("Hello, World!\r\n\r\n");
    let parse_result = Request::parse(msg.as_bytes());
    assert!(parse_result.is_ok());
    let parse = parse_result.unwrap();
    assert_eq!(usize::from_str_radix(parse.get_header("Content-Length").unwrap(), 10), Ok(17));
    assert_eq!(parse.body.len(), 17);
    let body = String::from_utf8(parse.body).unwrap_or(String::new());
    assert_eq!(body, String::from("Hello, World!\r\n\r\n"));
}

#[test]
fn set_header_twice_keeps_latest() {
    let mut req = Request::new("GET", "/", "1.1");
    req.set_header("Accept", "text/plain");
    req.set_header("Accept", "text/html");
    assert_eq!(req.get_header("Accept"), Some(&String::from("text/html")));
    assert_eq!(req.to_string(), "GET / HTTP/1.1\r\nAccept: text/html\r\n\r\n\r\n");
}

#[test]
fn header_lookup_is_case_sensitive() {
    let mut req = Request::new("GET", "/", "1.1");
    req.set_header("Content-Type", "text/html");
    assert_eq!(req.get_header("content-type"), None);
}

#[test]
fn parse_empty_input_is_invalid_start_line() {
    assert_eq!(Request::parse(b"").err(), Some(ParseError::InvalidStartLine));
}

#[test]
fn parse_two_word_start_line_is_invalid() {
    assert_eq!(Request::parse(b"GET /hello\r\n\r\n").err(), Some(ParseError::InvalidStartLine));
}

#[test]
fn parse_blank_start_line_is_invalid() {
    assert_eq!(Request::parse(b"   \r\nHost: x\r\n\r\n").err(), Some(ParseError::InvalidStartLine));
}

#[test]
fn parse_bare_http_version_is_invalid() {
    assert_eq!(Request::parse(b"GET / HTTP/\r\n\r\n").err(), Some(ParseError::InvalidStartLine));
}

#[test]
fn parse_start_line_that_is_not_text_is_invalid() {
    assert_eq!(Request::parse(b"GET /\xff HTTP/1.1\r\n\r\n").err(), Some(ParseError::InvalidStartLine));
}

#[test]
fn parse_ignores_extra_start_line_words() {
    let req = Request::parse(b"POST  /a\tHTTP/2 extra words\r\n\r\n").unwrap();
    assert_eq!(req.method, "POST");
    assert_eq!(req.target, "/a");
    assert_eq!(req.version, "2");
    assert!(req.body.is_empty());
}

#[test]
fn parse_keeps_version_without_prefix() {
    let req = Request::parse(b"GET / 1.0\r\n").unwrap();
    assert_eq!(req.version, "1.0");
}

#[test]
fn parse_short_body_is_body_read_error() {
    let msg = b"POST /up HTTP/1.1\r\nContent-Length: 20\r\n\r\nshort";
    assert_eq!(Request::parse(msg).err(), Some(ParseError::BodyReadError));
}

#[test]
fn parse_zero_length_body() {
    let req = Request::parse(b"GET / HTTP/1.1\r\nContent-Length: 0\r\n\r\nignored\r\n").unwrap();
    assert!(req.body.is_empty());
}

#[test]
fn parse_declared_length_reads_raw_bytes() {
    let msg = b"POST / HTTP/1.1\r\nContent-Length: 6\r\n\r\n\r\n\xff\x00\r\nrest";
    let req = Request::parse(msg).unwrap();
    assert_eq!(req.body, b"\r\n\xff\x00\r\n".to_vec());
}

#[test]
fn parse_unparseable_length_falls_back_to_lines() {
    let msg = b"POST / HTTP/1.1\r\nContent-Length: ten\r\n\r\nline one\r\nline two\r\n\r\nafter\r\n";
    let req = Request::parse(msg).unwrap();
    assert_eq!(req.body, b"line one\r\nline two\r\n".to_vec());
}

#[test]
fn parse_length_with_plus_sign() {
    let req = Request::parse(b"POST / HTTP/1.1\r\nContent-Length: +3\r\n\r\nabcdef").unwrap();
    assert_eq!(req.body, b"abc".to_vec());
}

#[test]
fn parse_header_value_keeps_later_colons() {
    let req = Request::parse(b"GET / HTTP/1.1\r\nHost:  example.com:8080 \r\n\r\n").unwrap();
    assert_eq!(req.get_header("Host"), Some(&String::from("example.com:8080")));
}

#[test]
fn parse_header_without_colon_has_empty_value() {
    let req = Request::parse(b"GET / HTTP/1.1\r\n  Marker \r\n\r\n").unwrap();
    assert_eq!(req.get_header("Marker"), Some(&String::new()));
}

#[test]
fn parse_trims_unicode_whitespace() {
    let req = Request::parse("GET / HTTP/1.1\r\nX-A:\u{a0}v\u{3000}\r\n\r\n".as_bytes()).unwrap();
    assert_eq!(req.get_header("X-A"), Some(&String::from("v")));
}

#[test]
fn parse_duplicate_header_last_wins() {
    let req = Request::parse(b"GET / HTTP/1.1\r\nA: 1\r\nB: 2\r\nA: 3\r\n\r\n").unwrap();
    assert_eq!(req.get_header("A"), Some(&String::from("3")));
    assert_eq!(req.get_header("B"), Some(&String::from("2")));
    assert_eq!(req.to_string(), "GET / HTTP/1.1\r\nA: 3\r\nB: 2\r\n\r\n\r\n");
}

#[test]
fn parse_headers_end_at_input_end() {
    let req = Request::parse(b"GET / HTTP/1.1\r\nA: 1").unwrap();
    assert_eq!(req.get_header("A"), Some(&String::from("1")));
    assert!(req.body.is_empty());
}

#[test]
fn parse_headers_stop_at_line_that_is_not_text() {
    let req = Request::parse(b"GET / HTTP/1.1\r\nA: 1\r\nB: \xff\r\nbody line\r\n\r\n").unwrap();
    assert_eq!(req.get_header("A"), Some(&String::from("1")));
    assert_eq!(req.get_header("B"), None);
    assert_eq!(req.body, b"body line\r\n".to_vec());
}

#[test]
fn to_string_of_binary_body_uses_placeholder() {
    let mut req = Request::new("PUT", "/x", "1.1");
    req.body = vec![0xff, 0xfe];
    assert_eq!(req.to_string(), "PUT /x HTTP/1.1\r\n\r\n[Body is not string]\r\n\r\n");
}
