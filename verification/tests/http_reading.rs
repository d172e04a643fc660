use cuzi::error::CuziError;
use cuzi::headers::{first_equal, HeaderMap};
use cuzi::http::{header_line_is_readable, HTTPObject, HTTPReadState};

#[test]
fn new_object_is_empty_and_waits_for_start_line() {
    let obj = HTTPObject::new();
    assert_eq!(obj.method, "");
    assert_eq!(obj.uri, "");
    assert_eq!(obj.headers.len(), 0);
    assert!(obj.body.is_empty());
    assert_eq!(obj.state, HTTPReadState::Info);
    assert_eq!(obj.status, "");
    assert_eq!(obj.status_code, "");
}

#[test]
fn request_line_is_read() {
    let mut obj = HTTPObject::new();
    assert!(obj.read_method("GET /index.html HTTP/1.1\r\n").is_ok());
    assert_eq!(obj.method, "GET");
    assert_eq!(obj.uri, "/index.html");
    assert_eq!(obj.state, HTTPReadState::Headers);
}

#[test]
fn request_line_with_wrong_element_count_is_refused() {
    let mut obj = HTTPObject::new();
    let line = "GET / extra HTTP/1.1\r\n";
    match obj.read_method(line) {
        Err(CuziError::MalformedRequest(l)) => assert_eq!(l, line),
        other => panic!("unexpected {:?}", other),
    }
    assert_eq!(obj.state, HTTPReadState::Info);
    assert!(matches!(obj.read_method("GET /\r\n"), Err(CuziError::MalformedRequest(_))));
}

#[test]
fn request_line_with_other_version_is_refused() {
    let mut obj = HTTPObject::new();
    match obj.read_method("GET / HTTP/1.0\r\n") {
        Err(CuziError::UnsupportedVersion(v)) => assert_eq!(v, "HTTP/1.0"),
        other => panic!("unexpected {:?}", other),
    }
    assert_eq!(obj.method, "");
}

#[test]
fn status_line_is_read() {
    let mut obj = HTTPObject::new();
    assert!(obj.read_response("HTTP/1.1 404 Not Found\r\n").is_ok());
    assert_eq!(obj.status_code, "404");
    assert_eq!(obj.status, "Not Found");
    assert_eq!(obj.state, HTTPReadState::Headers);
}

#[test]
fn status_line_errors() {
    let mut obj = HTTPObject::new();
    match obj.read_response("HTTP/1.1 200\r\n") {
        Err(CuziError::MalformedResponse(l)) => assert_eq!(l, "HTTP/1.1 200\r\n"),
        other => panic!("unexpected {:?}", other),
    }
    match obj.read_response("HTTP/2 200 OK\r\n") {
        Err(CuziError::UnsupportedVersion(v)) => assert_eq!(v, "HTTP/2"),
        other => panic!("unexpected {:?}", other),
    }
    assert_eq!(obj.state, HTTPReadState::Info);
}

#[test]
fn start_line_dispatch() {
    let mut obj = HTTPObject::new();
    assert!(matches!(obj.read_info(""), Err(CuziError::ConnectionClosed)));
    assert!(obj.read_info("HTTP/1.1 200 OK\r\n").is_ok());
    assert_eq!(obj.status_code, "200");
    let mut req = HTTPObject::new();
    assert!(req.read_info("POST /api HTTP/1.1\r\n").is_ok());
    assert_eq!(req.method, "POST");
    assert_eq!(req.uri, "/api");
}

#[test]
fn header_lines_are_parsed() {
    let obj = HTTPObject::new();
    let parsed = obj.read_header("Host: example.com\r\n").unwrap();
    assert_eq!(parsed, Some(("Host".to_string(), "example.com".to_string())));
    let parsed = obj.read_header("Key:::  \tvalue: more\r\n").unwrap();
    assert_eq!(parsed, Some(("Key".to_string(), "value: more".to_string())));
    assert_eq!(obj.read_header("\r\n").unwrap(), None);
    assert_eq!(obj.read_header("").unwrap(), None);
    assert!(matches!(obj.read_header("NoColon\r\n"), Err(CuziError::MissingColon)));
}

#[test]
fn header_value_made_only_of_separators_is_kept_whole() {
    let obj = HTTPObject::new();
    let parsed = obj.read_header("X-Empty: \r\n").unwrap();
    assert_eq!(parsed, Some(("X-Empty".to_string(), ": \r\n".to_string())));
}

#[test]
fn header_lines_outside_their_text_are_recognised() {
    assert!(header_line_is_readable("Host: example.com\r\n"));
    assert!(header_line_is_readable("\r\n"));
    assert!(header_line_is_readable(""));
    assert!(header_line_is_readable("no colon at all"));
    assert!(!header_line_is_readable("A: x"));
    assert!(!header_line_is_readable("A:\u{a0}x\r\n"));
    assert!(header_line_is_readable("N\u{e9}: v\u{e9}\r\n"));
    let obj = HTTPObject::new();
    let parsed = obj.read_header("N\u{e9}: v\u{e9}\r\n").unwrap();
    assert_eq!(parsed, Some(("N\u{e9}".to_string(), "v\u{e9}".to_string())));
}

fn read_request_head(obj: &mut HTTPObject, lines: &[&str]) {
    assert!(obj.read_headers_start().is_ok());
    for line in lines {
        let more = obj.read_headers_step(line).unwrap();
        if !more {
            return;
        }
    }
}

#[test]
fn header_section_is_stored_and_ends_at_blank_line() {
    let mut obj = HTTPObject::new();
    obj.read_method("GET / HTTP/1.1\r\n").unwrap();
    read_request_head(&mut obj, &["Host: a\r\n", "Accept: */*\r\n", "\r\n"]);
    assert_eq!(obj.state, HTTPReadState::Body);
    assert_eq!(obj.headers.len(), 2);
    assert_eq!(obj.headers.name(0), "Host");
    assert_eq!(obj.headers.value(1), "*/*");
}

#[test]
fn repeated_header_name_keeps_one_field_with_last_value() {
    let mut obj = HTTPObject::new();
    obj.read_method("GET / HTTP/1.1\r\n").unwrap();
    read_request_head(&mut obj, &["X: 1\r\n", "Y: 2\r\n", "X: 3\r\n", "\r\n"]);
    assert_eq!(obj.headers.len(), 2);
    assert_eq!(obj.headers.name(0), "X");
    assert_eq!(obj.headers.value(0), "3");
}

#[test]
fn headers_state_is_checked() {
    let obj = HTTPObject::new();
    assert!(matches!(obj.read_headers_start(), Err(CuziError::NotAtHeaders)));
}

#[test]
fn header_step_error_leaves_object() {
    let mut obj = HTTPObject::new();
    obj.read_method("GET / HTTP/1.1\r\n").unwrap();
    assert!(matches!(obj.read_headers_step("garbage\r\n"), Err(CuziError::MissingColon)));
    assert_eq!(obj.state, HTTPReadState::Headers);
    assert_eq!(obj.headers.len(), 0);
}

#[test]
fn header_lookup_lowercases_names() {
    let mut obj = HTTPObject::new();
    obj.read_method("GET / HTTP/1.1\r\n").unwrap();
    read_request_head(&mut obj, &["Content-Length: 5\r\n", "\r\n"]);
    assert_eq!(obj.get_header("content-length"), Some("5"));
    assert_eq!(obj.get_header("Content-Length"), None);
    assert_eq!(obj.get_header("host"), None);
}

#[test]
fn header_can_be_changed_in_place() {
    let mut obj = HTTPObject::new();
    obj.read_method("GET / HTTP/1.1\r\n").unwrap();
    read_request_head(&mut obj, &["HOST: old\r\n", "\r\n"]);
    if let Some(v) = obj.get_header_mul("host") {
        *v = "new".to_string();
    } else {
        panic!("host header not found");
    }
    assert_eq!(obj.headers.name(0), "HOST");
    assert_eq!(obj.get_header("host"), Some("new"));
    assert!(obj.get_header_mul("missing").is_none());
}

#[test]
fn body_length_comes_from_content_length() {
    let mut obj = HTTPObject::new();
    assert!(matches!(obj.body_length(), Err(CuziError::NotAtBody)));
    obj.read_method("POST / HTTP/1.1\r\n").unwrap();
    read_request_head(&mut obj, &["Content-Length: 42\r\n", "\r\n"]);
    assert_eq!(obj.body_length().unwrap(), 42);

    let mut none = HTTPObject::new();
    none.read_method("GET / HTTP/1.1\r\n").unwrap();
    read_request_head(&mut none, &["\r\n"]);
    assert_eq!(none.body_length().unwrap(), 0);

    let mut bad = HTTPObject::new();
    bad.read_method("GET / HTTP/1.1\r\n").unwrap();
    read_request_head(&mut bad, &["content-length: 4x\r\n", "\r\n"]);
    match bad.body_length() {
        Err(CuziError::InvalidContentLength(v)) => assert_eq!(v, "4x"),
        other => panic!("unexpected {:?}", other),
    }
}

#[test]
fn body_is_appended_and_message_reset() {
    let mut obj = HTTPObject::new();
    assert!(matches!(obj.read_body(vec![1]), Err(CuziError::NotAtBody)));
    obj.read_method("POST /x HTTP/1.1\r\n").unwrap();
    read_request_head(&mut obj, &["Content-Length: 3\r\n", "\r\n"]);
    obj.read_body(vec![1, 2, 3]).unwrap();
    assert_eq!(obj.body, vec![1, 2, 3]);
    assert_eq!(obj.headers.len(), 0);
    assert_eq!(obj.method, "");
    assert_eq!(obj.uri, "");
    assert_eq!(obj.state, HTTPReadState::Info);
    obj.read_method("POST /y HTTP/1.1\r\n").unwrap();
    read_request_head(&mut obj, &["\r\n"]);
    obj.read_body(vec![4]).unwrap();
    assert_eq!(obj.body, vec![1, 2, 3, 4]);
}

#[test]
fn header_map_read_after_write() {
    let mut map = HeaderMap::new();
    map.insert("a".to_string(), "1".to_string());
    map.insert("b".to_string(), "2".to_string());
    map.insert("a".to_string(), "3".to_string());
    assert_eq!(map.len(), 2);
    assert_eq!(map.value(0), "3");
    assert_eq!(map.value(1), "2");
    assert_eq!(map.find_lowercase("a"), Some(0));
    assert_eq!(map.find_lowercase("c"), None);
    map.clear();
    assert_eq!(map.len(), 0);
}

#[test]
fn first_equal_finds_first_of_lowercased_names() {
    let names = vec!["host".to_string(), "accept".to_string(), "host".to_string()];
    assert_eq!(first_equal(&names, "host"), Some(0));
    assert_eq!(first_equal(&names, "accept"), Some(1));
    assert_eq!(first_equal(&names, "Host"), None);
    assert_eq!(first_equal(&Vec::new(), "host"), None);
}

#[test]
fn reader_states_cycle_and_errors_keep_state() {
    let mut obj = HTTPObject::new();
    assert!(obj.needs_start_line());
    assert!(obj.read_info("BAD\r\n").is_err());
    assert_eq!(obj.state, HTTPReadState::Info);
    obj.read_info("GET /x HTTP/1.1\r\n").unwrap();
    assert_eq!(obj.state, HTTPReadState::Headers);
    assert!(!obj.needs_start_line());
    assert!(obj.read_body(vec![]).is_err());
    assert_eq!(obj.state, HTTPReadState::Headers);
    assert_eq!(obj.read_headers_step("A: b\r\n").unwrap(), true);
    assert_eq!(obj.state, HTTPReadState::Headers);
    assert!(obj.read_headers_step("oops\r\n").is_err());
    assert_eq!(obj.state, HTTPReadState::Headers);
    assert_eq!(obj.read_headers_step("\r\n").unwrap(), false);
    assert_eq!(obj.state, HTTPReadState::Body);
    obj.read_body(vec![9, 9]).unwrap();
    assert_eq!(obj.state, HTTPReadState::Info);
    assert_eq!(obj.headers.len(), 0);
    assert_eq!(obj.method, "");
    assert_eq!(obj.uri, "");
    assert_eq!(obj.body, vec![9, 9]);
    assert!(obj.needs_start_line());
}

#[test]
fn ascii_header_lines_ending_in_line_end_are_readable() {
    let lines = [
        "\r\n", "A:\r\n", "A: \r\n", "Host: example.com\r\n", ":\r\n", "x:y\r\n", "::: \t \r\n",
        "no colon\r\n", "K:\tv w\r\n",
    ];
    for line in lines {
        assert!(header_line_is_readable(line), "line {:?}", line);
    }
}

#[test]
fn multi_line_header_section_reaches_body_then_info() {
    let mut obj = HTTPObject::new();
    obj.read_info("PUT /r HTTP/1.1\r\n").unwrap();
    obj.read_headers_start().unwrap();
    for line in ["A: 1\r\n", "B: 2\r\n", "C: 3\r\n"] {
        assert_eq!(obj.read_headers_step(line).unwrap(), true);
        assert_eq!(obj.state, HTTPReadState::Headers);
    }
    assert_eq!(obj.read_headers_step("\r\n").unwrap(), false);
    assert_eq!(obj.state, HTTPReadState::Body);
    assert_eq!(obj.headers.len(), 3);
    obj.read_body(vec![7]).unwrap();
    assert_eq!(obj.state, HTTPReadState::Info);
    assert_eq!(obj.headers.len(), 0);
    assert_eq!(obj.body, vec![7]);
}
