use scream::http::{Request, RequestReader, Want, MAX_BODY};

fn parse(raw: &str) -> Option<Request> {
    Request::parse(raw.as_bytes())
}

#[test]
fn reads_method_and_strips_query_from_path() {
    let r = parse("GET /snapshot?foo=bar HTTP/1.1\r\nHost: x\r\n\r\n").unwrap();
    assert_eq!(r.method, "GET");
    assert_eq!(r.path(), "/snapshot");
}

#[test]
fn folds_header_names_and_keeps_value_case() {
    let r = parse("GET / HTTP/1.1\r\nSOAPACTION: \"urn:Foo#Bar\"\r\n\r\n").unwrap();
    assert_eq!(r.header("soapaction"), Some("\"urn:Foo#Bar\""));
}

#[test]
fn reads_body_up_to_content_length() {
    let r = parse("POST /dlna/cds/control HTTP/1.1\r\nContent-Length: 5\r\n\r\nhello extra")
        .unwrap();
    assert_eq!(r.body, b"hello");
}

#[test]
fn rejects_an_empty_start_line() {
    assert!(parse("\r\n").is_none());
}

#[test]
fn rejects_what_breaks_off() {
    assert!(parse("").is_none());
    assert!(parse("GET\r\n\r\n").is_none());
    assert!(parse("POST / HTTP/1.1\r\nContent-Length: 6\r\n\r\nhello").is_none());
    // Bytes that are no text
    assert!(Request::parse(b"GET /\xff HTTP/1.1\r\n\r\n").is_none());
    assert!(Request::parse(b"GET / HTTP/1.1\r\nA: \xff\r\n\r\n").is_none());
}

#[test]
fn the_end_of_the_input_ends_the_headers() {
    let r = parse("GET /x").unwrap();
    assert_eq!((r.method.as_str(), r.target.as_str()), ("GET", "/x"));
    assert!(r.headers.is_empty());
    let r = parse("GET /x HTTP/1.1\nA: b").unwrap();
    assert_eq!(r.header("a"), Some("b"));
}

#[test]
fn lines_that_are_no_headers_are_skipped() {
    let r = parse("  GET \t /a?b?c\r\nnonsense\r\n Name :  a:b  \r\nname: second\r\n\r\n").unwrap();
    assert_eq!(r.headers, vec![
        ("name".to_string(), "a:b".to_string()),
        ("name".to_string(), "second".to_string()),
    ]);
    assert_eq!(r.header("name"), Some("a:b"));
    assert_eq!(r.header("Name"), None);
    assert_eq!(r.path(), "/a");
}

#[test]
fn a_length_that_is_no_number_counts_as_none() {
    let r = parse("POST / HTTP/1.1\r\nContent-Length: x\r\n\r\nhello").unwrap();
    assert!(r.body.is_empty());
    let r = parse("POST / HTTP/1.1\r\nContent-Length: -1\r\n\r\nhello").unwrap();
    assert!(r.body.is_empty());
    let r = parse("POST / HTTP/1.1\r\nContent-Length: +2\r\n\r\nhello").unwrap();
    assert_eq!(r.body, b"he");
    let r = parse("POST / HTTP/1.1\r\nContent-Length: 99999999999999999999999\r\n\r\nhello").unwrap();
    assert!(r.body.is_empty());
}

#[test]
fn a_body_is_read_up_to_its_bound() {
    let mut raw = b"POST / HTTP/1.1\r\nContent-Length: 1000000\r\n\r\n".to_vec();
    raw.resize(raw.len() + MAX_BODY, b'x');
    let r = Request::parse(&raw).unwrap();
    assert_eq!(r.body.len(), 65536);
    raw.pop();
    assert!(Request::parse(&raw).is_none());
}

#[test]
fn a_reader_asks_for_lines_and_then_for_the_body() {
    let mut reader = RequestReader::new();
    assert!(matches!(reader.want(), Want::Line));
    reader.line(b"POST /p HTTP/1.1\r\n");
    reader.line(b"Content-Length: 2\r\n");
    assert!(matches!(reader.want(), Want::Line));
    reader.line(b"\r\n");
    assert!(matches!(reader.want(), Want::Body(2)));
    let r = reader.finish(b"ok".to_vec()).unwrap();
    assert_eq!(r.body, b"ok");
    assert_eq!(r.target, "/p");
}

#[test]
fn what_follows_a_request_is_the_next_one() {
    let first = b"POST /a HTTP/1.1\r\nContent-Length: 3\r\n\r\nabc";
    let second = b"GET /b HTTP/1.1\r\n\r\n";
    let mut both = first.to_vec();
    both.extend_from_slice(second);
    let (one, used) = Request::parse_first(&both).unwrap();
    assert_eq!((one.target.as_str(), one.body.as_slice()), ("/a", b"abc".as_slice()));
    assert_eq!(used, first.len());
    let (two, used) = Request::parse_first(&both[used..]).unwrap();
    assert_eq!((two.target.as_str(), used), ("/b", second.len()));
    assert!(Request::parse_first(b"").is_none());
}
