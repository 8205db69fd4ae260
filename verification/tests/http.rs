use synclyr2metadata::http_client::{
    build_request, decode_chunked, follow, host_with_port, is_retryable, name_result,
    parse_checked, parse_response, parse_url, resolve_relative, retry_delay, retry_warning,
    tls_name, url_encode, Fetch, Follow, HttpError, HttpResponse, MAX_REDIRECTS, MAX_RETRIES,
};

fn response(status: u16, headers: &[(&str, &str)]) -> HttpResponse {
    HttpResponse {
        status_code: status,
        headers: headers.iter().map(|(k, v)| (k.to_string(), v.to_string())).collect(),
        body: String::new(),
    }
}

fn shown<T>(r: Result<T, HttpError>) -> String {
    match r {
        Ok(_) => panic!("an error was expected"),
        Err(e) => e.message(),
    }
}

#[test]
fn header_lookup_ignores_case_and_takes_the_last() {
    let r = response(200, &[("content-type", "a"), ("x", "1"), ("x", "2")]);
    assert_eq!(r.header("Content-Type"), Some("a"));
    assert_eq!(r.header("X"), Some("2"));
    assert_eq!(r.header("y"), None);
}

#[test]
fn error_messages() {
    assert_eq!(HttpError::BadUrl("m".to_string()).message(), "bad url: m");
    assert_eq!(HttpError::Connect("m".to_string()).message(), "connect: m");
    assert_eq!(HttpError::Tls("m".to_string()).message(), "tls: m");
    assert_eq!(HttpError::Protocol("m".to_string()).message(), "protocol: m");
    assert_eq!(HttpError::Timeout.message(), "timeout");
}

#[test]
fn transient_errors_are_retried_with_backoff() {
    assert!(is_retryable(&HttpError::Timeout));
    assert!(is_retryable(&HttpError::Tls(String::new())));
    assert!(!is_retryable(&HttpError::Protocol(String::new())));
    assert!(!is_retryable(&HttpError::BadUrl(String::new())));
    let e = HttpError::Connect("dns".to_string());
    assert_eq!(retry_delay(0, &e), Some(1));
    assert_eq!(retry_delay(1, &e), Some(2));
    assert_eq!(retry_delay(2, &e), Some(4));
    assert_eq!(retry_delay(MAX_RETRIES, &e), None);
    assert_eq!(retry_delay(0, &HttpError::Protocol(String::new())), None);
    assert_eq!(retry_warning(&e, 2, 1), "warning: connect: dns, retrying in 2s (2/3)");
}

#[test]
fn host_header_leaves_out_default_ports() {
    assert_eq!(host_with_port("a.b", 443), "a.b");
    assert_eq!(host_with_port("a.b", 80), "a.b");
    assert_eq!(host_with_port("a.b", 8080), "a.b:8080");
}

#[test]
fn urls_are_taken_apart() {
    let u = parse_url("https://lrclib.net/api/get?x=1").unwrap();
    assert_eq!((u.host.as_str(), u.port, u.path.as_str()), ("lrclib.net", 443, "/api/get?x=1"));
    let u = parse_url("http://h:81").unwrap();
    assert_eq!((u.host.as_str(), u.port, u.path.as_str()), ("h", 81, "/"));
    let u = parse_url("http://h").unwrap();
    assert_eq!(u.port, 80);
}

#[test]
fn bad_urls_are_refused() {
    assert_eq!(shown(parse_url("lrclib.net")), "bad url: missing scheme");
    assert_eq!(shown(parse_url("ftp://x/")), "bad url: unsupported scheme 'ftp'");
    assert_eq!(shown(parse_url("http://x:abc/")), "bad url: invalid port 'abc'");
    assert_eq!(shown(parse_url("http://x:65536/")), "bad url: invalid port '65536'");
    assert_eq!(shown(parse_url("http:///p")), "bad url: empty host");
}

#[test]
fn locations_are_resolved() {
    let base = "https://h:8443/a/b?c";
    assert_eq!(resolve_relative(base, "http://x/y").unwrap(), "http://x/y");
    assert_eq!(resolve_relative(base, "//x/y").unwrap(), "https://x/y");
    assert_eq!(resolve_relative(base, "/y").unwrap(), "https://h:8443/y");
    assert_eq!(resolve_relative(base, "y").unwrap(), "https://h:8443/a/y");
    assert_eq!(resolve_relative("http://h", "y").unwrap(), "https://h/y");
    assert_eq!(shown(resolve_relative("h", "y")), "bad url: missing scheme");
}

#[test]
fn request_text() {
    assert_eq!(
        build_request("h", 8443, "/p"),
        "GET /p HTTP/1.1\r\nHost: h:8443\r\nUser-Agent: synclyr2metadata-rs \
         (https://github.com/newtonsart/synclyr2metadata)\r\nAccept: application/json\r\n\
         Accept-Encoding: identity\r\nConnection: close\r\n\r\n"
    );
}

#[test]
fn server_names() {
    assert_eq!(tls_name("lrclib.net").unwrap(), "lrclib.net");
    assert_eq!(tls_name("127.0.0.1").unwrap(), "127.0.0.1");
    assert_eq!(tls_name("2001:DB8:0::1").unwrap(), "2001:db8::1");
    assert_eq!(shown(tls_name("not a name")), "tls: invalid server name: invalid dns name");
    assert_eq!(shown(tls_name("")), "tls: invalid server name: invalid dns name");
    assert_eq!(name_result(Some("n".to_string())).unwrap(), "n");
    assert_eq!(shown(name_result(None)), "tls: invalid server name: invalid dns name");
}

#[test]
fn response_with_a_length() {
    let r = parse_response(b"HTTP/1.1 200 OK\r\nContent-Length: 3\r\nX-Y:  v \r\n\r\nabcdef").unwrap();
    assert_eq!(r.status_code, 200);
    assert_eq!(r.body, "abc");
    assert_eq!(r.header("x-y"), Some("v"));
    assert_eq!(r.headers[1].0, "x-y");
}

#[test]
fn response_without_framing_is_read_to_the_end() {
    let r = parse_response(b"HTTP/1.1 404 Not Found\r\n\r\nabc\xff").unwrap();
    assert_eq!(r.status_code, 404);
    assert_eq!(r.body, "abc\u{fffd}");
    let r = parse_response(b"HTTP/1.1 200 OK\r\nContent-Length: x\r\n\r\nabc").unwrap();
    assert_eq!(r.body, "abc");
}

#[test]
fn response_in_chunks() {
    let raw = b"HTTP/1.1 200 OK\r\nTransfer-Encoding: Chunked\r\n\r\n3;e=1\r\nabc\r\n2\r\nde\r\n0\r\n\r\n";
    assert_eq!(parse_response(raw).unwrap().body, "abcde");
}

#[test]
fn bad_responses_are_refused() {
    assert_eq!(shown(parse_response(b"HTTP/1.1 200 OK\r\n")), "protocol: no header terminator");
    assert_eq!(shown(parse_response(b"H\xff 200\r\n\r\n")), "protocol: non-utf8 headers");
    assert_eq!(shown(parse_response(b"HTTP/1.1 abc\r\n\r\n")), "protocol: bad status line");
    assert_eq!(shown(parse_response(b"\r\n\r\n")), "protocol: empty header section");
}

#[test]
fn chunks_are_joined() {
    assert_eq!(decode_chunked(b"1\r\na\r\n0\r\n").unwrap(), "a");
    assert_eq!(decode_chunked(b"A\r\n0123456789\r\n").unwrap(), "0123456789");
    assert_eq!(decode_chunked(b"").unwrap(), "");
    assert_eq!(decode_chunked("2\r\n\u{e9}\r\n0\r\n\r\n".as_bytes()).unwrap(), "\u{e9}");
}

#[test]
fn bad_chunks_are_refused() {
    assert_eq!(shown(decode_chunked(b"5")), "protocol: chunk size line truncated");
    assert_eq!(shown(decode_chunked(b"\xff\r\n")), "protocol: non-utf8 chunk size");
    assert_eq!(shown(decode_chunked(b"xy\r\n")), "protocol: bad chunk size 'xy'");
    assert_eq!(shown(decode_chunked(b"5\r\nabc")), "protocol: chunk body truncated");
    assert_eq!(shown(decode_chunked(b"1\r\n\xff\r\n")), "protocol: non-utf8 chunk body");
}

#[test]
fn chunk_sizes_beyond_the_address_space_are_noticed() {
    let raw = b"HTTP/1.1 200 OK\r\nTransfer-Encoding: chunked\r\n\r\nffffffffffffffff\r\nab";
    assert!(parse_checked(raw).is_none());
    assert!(parse_checked(b"HTTP/1.1 200 OK\r\n\r\nab").unwrap().is_ok());
    assert!(parse_checked(b"").unwrap().is_err());
}

#[test]
fn query_values_are_encoded() {
    assert_eq!(url_encode("AZaz09-_.~"), "AZaz09-_.~");
    assert_eq!(url_encode("a b&c/\u{e9}"), "a%20b%26c%2F%C3%A9");
    assert_eq!(url_encode(""), "");
}

#[test]
fn encoding_goes_part_by_part() {
    for (a, b) in [("a b", "c/d"), ("", "%"), ("\u{e9}", "\u{1f600}~")] {
        assert_eq!(url_encode(&format!("{}{}", a, b)), format!("{}{}", url_encode(a), url_encode(b)));
    }
    assert_eq!(url_encode("\u{7f}\n\u{ff}"), "%7F%0A%C3%BF");
}

#[test]
fn different_texts_encode_differently() {
    assert_ne!(url_encode("a b"), url_encode("a%20b"));
    assert_ne!(url_encode("%"), url_encode("%25"));
}

#[test]
fn redirects_are_followed_five_times() {
    let away = response(302, &[("location", "/n")]);
    let mut fetch = Fetch::new("https://h/a");
    let mut followed = 0;
    loop {
        match follow(&fetch, &away) {
            Follow::Request(next) => fetch = next,
            Follow::Done => panic!("a redirect is no end"),
            Follow::Failed(e) => {
                assert_eq!(e.message(), "protocol: too many redirects");
                break;
            }
        }
        assert_eq!(fetch.url, "https://h/n");
        followed += 1;
    }
    assert_eq!(followed, MAX_REDIRECTS);
}

#[test]
fn other_statuses_end_a_request() {
    let fetch = Fetch::new("https://h/a");
    assert!(matches!(follow(&fetch, &response(200, &[("location", "/n")])), Follow::Done));
    assert!(matches!(follow(&fetch, &response(400, &[])), Follow::Done));
    match follow(&fetch, &response(301, &[])) {
        Follow::Failed(e) => assert_eq!(e.message(), "protocol: redirect 301 without Location"),
        _ => panic!("a redirect needs a location"),
    }
}
