use network_programming::http::{
    bad_request_response, get_json_from_body, get_path_from_request_line, header_fields,
    header_fields_separated, html_file_path, html_response, is_well_formed_request, json_response,
    locate_request_breaks, not_found_file_path, parse_http_request, parse_request_checked,
    route_request, split_field_text, Message, RequestParse, Route,
};

fn pairs(v: &[(&str, &str)]) -> Vec<(String, String)> {
    v.iter().map(|(a, b)| (a.to_string(), b.to_string())).collect()
}

#[test]
fn parse_get_request() {
    let buf = b"GET /index HTTP/1.1\r\nHost: example.com\r\nAccept: */*\r\n\r\n";
    let (line, headers, body) = parse_http_request(buf).unwrap();
    assert_eq!(line, "GET /index HTTP/1.1");
    assert_eq!(headers, pairs(&[("Host", "example.com")]));
    assert_eq!(body, "Accept: */*\r\n\r\n");
}

#[test]
fn parse_needs_two_line_breaks() {
    assert!(parse_http_request(b"").is_none());
    assert!(parse_http_request(b"GET / HTTP/1.1").is_none());
    assert!(parse_http_request(b"GET / HTTP/1.1\r\nHost: x").is_none());
    assert!(parse_http_request(b"GET / HTTP/1.1\r\n\n\r").is_none());
}

#[test]
fn parse_request_without_headers() {
    let buf = b"POST /message HTTP/1.1\r\n\r\n{\"message\":\"hi\",\"guest\":\"bo\"}";
    let (line, headers, body) = parse_http_request(buf).unwrap();
    assert_eq!(line, "POST /message HTTP/1.1");
    assert!(headers.is_empty());
    assert_eq!(body, "{\"message\":\"hi\",\"guest\":\"bo\"}");
}

#[test]
fn parse_value_keeps_later_separators() {
    let buf = b"GET / HTTP/1.1\r\nX-Note: a: b: c\r\n";
    let (_, headers, body) = parse_http_request(buf).unwrap();
    assert_eq!(headers, pairs(&[("X-Note", "a: b: c")]));
    assert_eq!(body, "");
}

#[test]
fn parse_decodes_invalid_utf8_lossily() {
    let buf = b"GET /\xff HTTP/1.1\r\nK\xc3: v\xe2\x82\r\nrest\xf0";
    let (line, headers, body) = parse_http_request(buf).unwrap();
    assert_eq!(line, "GET /\u{FFFD} HTTP/1.1");
    assert_eq!(headers, pairs(&[("K\u{FFFD}", "v\u{FFFD}")]));
    assert_eq!(body, "rest\u{FFFD}");
}

#[test]
fn parse_keeps_multibyte_text() {
    let buf = "GET /caf\u{e9} HTTP/1.1\r\nName: Zo\u{eb}\r\n".as_bytes();
    let (line, headers, _) = parse_http_request(buf).unwrap();
    assert_eq!(line, "GET /caf\u{e9} HTTP/1.1");
    assert_eq!(headers, pairs(&[("Name", "Zo\u{eb}")]));
}

#[test]
fn parse_padded_read_buffer() {
    let mut buf = [0u8; 1024];
    let req = b"POST / HTTP/1.1\r\nHost: h\r\nAccept: */*\r\n\r\n{\"message\":\"m\",\"guest\":\"g\"}";
    buf[..req.len()].copy_from_slice(req);
    let (line, headers, body) = parse_http_request(&buf).unwrap();
    assert_eq!(line, "POST / HTTP/1.1");
    assert_eq!(headers, pairs(&[("Host", "h")]));
    assert_eq!(body.len(), 1024 - "POST / HTTP/1.1\r\nHost: h\r\n".len());
    assert_eq!(get_json_from_body(&body), "{\"message\":\"m\",\"guest\":\"g\"}");
}

#[test]
fn post_with_one_header_has_no_payload() {
    let buf = b"POST / HTTP/1.1\r\nHost: h\r\n\r\n{\"a\":1}";
    let (_, headers, body) = parse_http_request(buf).unwrap();
    assert_eq!(headers, pairs(&[("Host", "h")]));
    assert_eq!(body, "\r\n{\"a\":1}");
    assert_eq!(get_json_from_body(&body), "");
}

#[test]
fn request_split_reassembles() {
    let buf = b"PUT /x HTTP/1.1\r\nA: 1\r\nB: 2\r\n\r\nbody";
    let (p1, p2) = locate_request_breaks(buf).unwrap();
    assert_eq!((p1, p2), (15, 21));
    let mut joined = buf[..p1].to_vec();
    joined.extend_from_slice(b"\r\n");
    joined.extend_from_slice(&buf[p1 + 2..p2]);
    joined.extend_from_slice(b"\r\n");
    joined.extend_from_slice(&buf[p2 + 2..]);
    assert_eq!(&joined[..], &buf[..]);
    assert!(!buf[..p1].windows(2).any(|w| w == b"\r\n"));
    assert!(!buf[p1 + 2..p2].windows(2).any(|w| w == b"\r\n"));
}

#[test]
fn locate_breaks_edges() {
    assert_eq!(locate_request_breaks(b"\r\n\r\n"), Some((0, 2)));
    assert_eq!(locate_request_breaks(b"\r\r\n\n\r\n"), Some((1, 4)));
    assert_eq!(locate_request_breaks(b"\r\n"), None);
}

#[test]
fn header_fields_of_a_section() {
    assert_eq!(header_fields("A: 1\r\n\r\nB: 2: 3"), pairs(&[("A", "1"), ("B", "2: 3")]));
    assert!(header_fields("").is_empty());
    assert!(header_fields("\r\n\r\n").is_empty());
    assert_eq!(header_fields("N\u{e9}: \u{1F600}"), pairs(&[("N\u{e9}", "\u{1F600}")]));
}

#[test]
fn field_split_reassembles() {
    let line = "Content-Type: text/html";
    let (name, value) = split_field_text(line);
    assert_eq!(name, "Content-Type");
    assert_eq!(value, "text/html");
    assert_eq!(format!("{}: {}", name, value), line);
    assert!(!name.contains(": "));
}

#[test]
fn well_formedness_of_requests() {
    assert!(is_well_formed_request(b"GET / HTTP/1.1\r\nHost: a\r\n"));
    assert!(is_well_formed_request(b"GET / HTTP/1.1\r\n\r\n"));
    assert!(is_well_formed_request(b"no breaks at all"));
    assert!(!is_well_formed_request(b"GET / HTTP/1.1\r\nHost:a\r\n"));
    assert!(!is_well_formed_request(b"GET / HTTP/1.1\r\nbroken\r\nX: y"));
    assert!(header_fields_separated("A: b\r\n\r\nC: d"));
    assert!(!header_fields_separated("A: b\r\nC"));
}

#[test]
fn checked_parsing() {
    match parse_request_checked(b"GET /a HTTP/1.1\r\nHost: h\r\nrest") {
        RequestParse::Parsed(line, headers, body) => {
            assert_eq!(line, "GET /a HTTP/1.1");
            assert_eq!(headers, pairs(&[("Host", "h")]));
            assert_eq!(body, "rest");
        }
        _ => panic!("expected a parsed request"),
    }
    assert!(matches!(parse_request_checked(b"GET / HTTP/1.1\r\nHost"), RequestParse::Incomplete));
    assert!(matches!(parse_request_checked(b"GET / HTTP/1.1\r\nHost\r\n"), RequestParse::MalformedHeader));
}

#[test]
fn request_round_trip() {
    let cases = [
        ("GET / HTTP/1.1", "Host", "example.com", "body"),
        ("", "K", "", ""),
        ("POST /x", "N\u{e9}me", "v: w", "\r\n\r\n{}"),
        ("A\rB", "x\ny", "\r", "\u{1F600}"),
    ];
    for (r, k, v, b) in cases {
        let buf = format!("{}\r\n{}: {}\r\n{}", r, k, v, b);
        let parsed = parse_http_request(buf.as_bytes()).unwrap();
        assert_eq!(parsed, (r.to_string(), pairs(&[(k, v)]), b.to_string()));
    }
}

#[test]
fn appending_extends_only_the_body() {
    let buf = "GET /p HTTP/1.1\r\nHost: h\r\nbo".as_bytes();
    let extra = "dy \u{e9}\r\n".as_bytes();
    let (line, headers, body) = parse_http_request(buf).unwrap();
    let joined = [buf, extra].concat();
    let (line2, headers2, body2) = parse_http_request(&joined).unwrap();
    assert_eq!(line2, line);
    assert_eq!(headers2, headers);
    assert_eq!(body2, body + std::str::from_utf8(extra).unwrap());
}

#[test]
fn json_payload_survives_parsing() {
    let json = "{\"message\":\"hi\",\"guest\":\"bo\"}";
    let head = format!("POST /message HTTP/1.1\r\nHost: h\r\nAccept: */*\r\nX-A: b\r\n\r\n{}", json);
    let mut buf = head.as_bytes().to_vec();
    buf.resize(1024, 0);
    let (_, _, body) = parse_http_request(&buf).unwrap();
    assert_eq!(get_json_from_body(&body), json);
}

#[test]
fn path_of_request_lines() {
    assert_eq!(get_path_from_request_line("GET /about HTTP/1.1"), Some("/about"));
    assert_eq!(get_path_from_request_line("GET /"), Some("/"));
    assert_eq!(get_path_from_request_line("GET  /x"), Some(""));
    assert_eq!(get_path_from_request_line("GET /caf\u{e9} HTTP/1.1"), Some("/caf\u{e9}"));
    let path = get_path_from_request_line("POST /a/b HTTP/1.0").unwrap();
    assert!(!path.contains(' '));
}

fn reference_json(body: &str) -> &str {
    body.splitn(2, "\r\n\r\n").nth(1).unwrap_or("").trim().trim_end_matches('\0')
}

#[test]
fn json_payload_of_bodies() {
    let bodies = [
        "Content-Length: 5\r\n\r\n{\"a\":1}",
        "X: y\r\n\r\n  {\"a\":1}  \n\0\0\0",
        "X: y\r\n\r\n{\"a\":1}\n\0",
        "no blank line here",
        "\r\n\r\n",
        "\r\n\r\n\u{3000}x\u{2028}",
        "a\r\n\r\nb\r\n\r\nc",
        "\r\n\r\n\0\0",
        "",
    ];
    for body in bodies {
        assert_eq!(get_json_from_body(body), reference_json(body), "body {:?}", body);
    }
    assert_eq!(get_json_from_body("H: v\r\n\r\n {\"k\":1}\n\0\0"), "{\"k\":1}\n");
    assert_eq!(get_json_from_body("no blank line"), "");
}

#[test]
fn json_payload_shape() {
    let payload = get_json_from_body("H: v\r\n\r\n\t {\"x\": 2} \0");
    assert_eq!(payload, "{\"x\": 2} ");
    assert!(!payload.starts_with(char::is_whitespace));
    assert!(!payload.ends_with('\0'));
}

#[test]
fn page_files() {
    assert_eq!(html_file_path("src/views", "/"), "src/views/index.html");
    assert_eq!(html_file_path("src/views", "/about"), "src/views/about.html");
    assert_eq!(html_file_path("root", ""), "root.html");
    assert_eq!(not_found_file_path("src/views"), "src/views/404.html");
}

#[test]
fn page_responses() {
    assert_eq!(
        html_response(Some("<p>hi</p>".to_string()), None),
        "HTTP/1.1 200 OK\nContent-Type: text/html\nContent-Length: 9\n\n<p>hi</p>"
    );
    assert_eq!(
        html_response(None, Some("gone".to_string())),
        "HTTP/1.1 404 Not Found\nContent-Type: text/html\nContent-Length: 4\n\ngone"
    );
    assert_eq!(
        html_response(None, None),
        "HTTP/1.1 404 Not Found\nContent-Type: text/html\nContent-Length: 13\n\n404 Not Found"
    );
    let body = "caf\u{e9} \u{1F600}".to_string();
    let expected = format!(
        "HTTP/1.1 200 OK\nContent-Type: text/html\nContent-Length: {}\n\n{}",
        body.len(),
        body
    );
    assert_eq!(html_response(Some(body.clone()), Some("x".to_string())), expected);
    assert!(expected.contains("Content-Length: 10\n"));
}

#[test]
fn json_and_error_responses() {
    let json = "{\"message\":\"hi\",\"guest\":\"bo\"}";
    assert_eq!(
        json_response(json),
        format!("HTTP/1.1 200 OK\nContent-Type: application/json\nContent-Length: {}\n\n{}", json.len(), json)
    );
    assert_eq!(json_response(""), "HTTP/1.1 200 OK\nContent-Type: application/json\nContent-Length: 0\n\n");
    assert_eq!(bad_request_response(), "HTTP/1.1 400 Bad Request");
}

#[test]
fn content_length_reads_back() {
    let body = "x".repeat(1234);
    let response = json_response(&body);
    let head_end = response.find("\n\n").unwrap();
    let length: usize = response[..head_end].rsplit("Content-Length: ").next().unwrap().parse().unwrap();
    assert_eq!(length, body.len());
    assert_eq!(&response[head_end + 2..], body);
}

#[test]
fn routes_of_requests() {
    match route_request("GET /about HTTP/1.1", "") {
        Route::Page(path) => assert_eq!(path, "/about"),
        _ => panic!("expected a page"),
    }
    match route_request("GETX /a HTTP/1.1", "") {
        Route::Page(path) => assert_eq!(path, "/a"),
        _ => panic!("expected a page"),
    }
    match route_request("POST / HTTP/1.1", "H: v\r\n\r\n{\"a\":1}\0\0") {
        Route::Post(json) => assert_eq!(json, "{\"a\":1}"),
        _ => panic!("expected a post"),
    }
    assert!(matches!(route_request("PUT / HTTP/1.1", ""), Route::BadRequest));
    assert!(matches!(route_request("get / HTTP/1.1", ""), Route::BadRequest));
    assert!(matches!(route_request("", ""), Route::BadRequest));
}

#[test]
fn message_fields() {
    let m = Message::new("hello".to_string(), "ann".to_string());
    assert_eq!(m.message(), "hello");
    assert_eq!(m.guest(), "ann");
}

#[test]
fn invalid_utf8_parts_stay_single_lines() {
    let buf = b"GET /\xff\r HTTP/1.1\r\nK\xe2: \r\x82\r\n\xc0\r\n";
    let (line, headers, body) = parse_http_request(buf).unwrap();
    assert!(!line.contains("\r\n"));
    assert!(headers.len() <= 1);
    assert_eq!(line, "GET /\u{FFFD}\r HTTP/1.1");
    assert_eq!(headers, pairs(&[("K\u{FFFD}", "\r\u{FFFD}")]));
    assert_eq!(body, "\u{FFFD}\r\n");
}
