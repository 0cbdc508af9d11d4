use mini_http::request::{json_text, post_body, read_headers, read_lines};
use mini_http::{Data, Method, Request};

#[test]
fn get_request_line_and_headers() {
    let r = Request::parse(b"GET /hello HTTP/1.1\r\nHost: x\r\nAccept:  */*\r\n\r\n");
    assert!(matches!(r.method(), Method::GET));
    assert_eq!(r.url(), "/hello");
    assert_eq!(r.protocol(), "HTTP/1.1");
    assert_eq!(r.get("Host").map(|s| s.as_str()), Some("x"));
    assert_eq!(r.get("Accept").map(|s| s.as_str()), Some("*/*"));
    assert_eq!(r.get("host"), None);
}

#[test]
fn method_is_case_insensitive() {
    let r = Request::parse(b"gEt /a/b?x=1 HTTP/1.0\n");
    assert!(matches!(r.method(), Method::GET));
    assert_eq!(r.url(), "/a/b?x=1");
    assert_eq!(r.protocol(), "HTTP/1.0");
    let p = Request::parse(b"post /f HTTP/1.1\r\n\r\n");
    assert!(matches!(p.method(), Method::POST(Data::Empty)));
    assert_eq!(p.url(), "/f");
}

#[test]
fn unknown_method_gives_defaults() {
    for raw in [&b"PUT /x HTTP/1.1\r\n\r\n"[..], b"", b"GE", b"\xff\xfe", b"HEAD / HTTP/1.1"] {
        let r = Request::parse(raw);
        assert!(matches!(r.method(), Method::UNDEFINIED));
        assert_eq!(r.url(), "/");
        assert_eq!(r.protocol(), "HTTP/1.1");
        assert_eq!(r.headers().len(), 0);
    }
}

#[test]
fn short_or_empty_request_line_gives_defaults() {
    let r = Request::parse(b"GET");
    assert!(matches!(r.method(), Method::GET));
    assert_eq!(r.url(), "/");
    assert_eq!(r.protocol(), "HTTP/1.1");
    let r = Request::parse(b"GET /only\r\n");
    assert_eq!(r.url(), "/only");
    assert_eq!(r.protocol(), "HTTP/1.1");
}

#[test]
fn later_header_replaces_earlier() {
    let r = Request::parse(b"GET / HTTP/1.1\r\nX: 1\r\nX: 2\r\n\r\nY: 3\r\n");
    assert_eq!(r.get("X").map(|s| s.as_str()), Some("2"));
    assert_eq!(r.get("Y"), None);
    assert_eq!(r.headers().len(), 1);
}

#[test]
fn header_value_splits_at_first_colon() {
    let r = Request::parse(b"GET / HTTP/1.1\r\nHost: a:80\r\nnocolon\r\n\r\n");
    assert_eq!(r.get("Host").map(|s| s.as_str()), Some("a:80"));
    assert_eq!(r.headers().len(), 1);
}

#[test]
fn post_form_body() {
    let r = Request::parse(
        b"POST /form HTTP/1.1\r\nContent-Type: text/plain\r\n\r\na=1&b=x=y&c\r\nignored=1\r\n",
    );
    assert_eq!(r.get("content-type").map(|s| s.as_str()), Some("text/plain"));
    match r.method() {
        Method::POST(Data::Default(t)) => {
            assert_eq!(t.get("a").map(|s| s.as_str()), Some("1"));
            assert_eq!(t.get("b").map(|s| s.as_str()), Some("x=y"));
            assert_eq!(t.get("c").map(|s| s.as_str()), Some(""));
            assert_eq!(t.get("ignored"), None);
            assert_eq!(t.len(), 3);
        }
        other => panic!("unexpected {:?}", other),
    }
}

#[test]
fn post_json_body() {
    let r = Request::parse(
        b"POST /j HTTP/1.1\r\ncontent-type: application/json\r\n\r\n{\"a\":\r\n 1}\r\n",
    );
    match r.method() {
        Method::POST(Data::Json(v)) => assert_eq!(v["a"].as_i64(), Some(1)),
        other => panic!("unexpected {:?}", other),
    }
}

#[test]
fn post_bad_json_is_null() {
    let r = Request::parse(b"POST /j HTTP/1.1\r\nContent-Type: application/json\r\n\r\n{oops\r\n");
    match r.method() {
        Method::POST(Data::Json(v)) => assert!(v.is_null()),
        other => panic!("unexpected {:?}", other),
    }
}

#[test]
fn post_unknown_or_missing_content_type_has_no_body() {
    let r = Request::parse(b"POST /x HTTP/1.1\r\nContent-Type: image/png\r\n\r\na=1\r\n");
    assert!(matches!(r.method(), Method::POST(Data::Empty)));
    let r = Request::parse(b"POST /x HTTP/1.1\r\n\r\na=1\r\n");
    assert!(matches!(r.method(), Method::POST(Data::Empty)));
}

#[test]
fn post_header_names_are_trimmed_and_lower_cased() {
    let r = Request::parse(b"POST /x HTTP/1.1\r\n  X-Name : v\r\n\r\n");
    assert_eq!(r.get("x-name").map(|s| s.as_str()), Some("v"));
}

#[test]
fn header_line_that_is_not_utf8_is_skipped() {
    let r = Request::parse(b"GET /u HTTP/1.1\r\nBad: \xff\xfe\r\nGood: yes\r\n\r\n");
    assert_eq!(r.get("Bad"), None);
    assert_eq!(r.get("Good").map(|s| s.as_str()), Some("yes"));
    assert_eq!(r.len(), 1);
}

#[test]
fn request_line_that_is_not_utf8_gives_defaults() {
    let r = Request::parse(b"GET /\xff HTTP/2\r\n\r\n");
    assert_eq!(r.url(), "/");
    assert_eq!(r.protocol(), "HTTP/1.1");
}

#[test]
fn json_text_is_the_joined_body() {
    let lines = read_lines(b" /j HTTP/1.1\r\nContent-Type: application/json\r\n\r\n\xff\r\n[1,\r\n\xfe\r\n2]");
    let (headers, blank) = read_headers(&lines, true);
    assert_eq!(blank, Some(1));
    let text: String = json_text(&lines, blank, &headers).unwrap().into_iter().collect();
    assert_eq!(text, "[1,\r\n\r\n2]");
    match post_body(&lines, blank, &headers) {
        Data::Json(v) => assert_eq!(v.as_array().map(|a| a.len()), Some(2)),
        other => panic!("unexpected {:?}", other),
    }
}
