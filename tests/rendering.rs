use mini_http::{response_head, take_content_type, Mime, Render, Response};

fn drain(mut r: Response) -> Vec<Vec<u8>> {
    let mut out = Vec::new();
    while let Some(c) = r.next_chunk() {
        out.push(c);
    }
    out
}

#[test]
fn buffer_streams_in_frames() {
    for size in [0usize, 1, 2047, 2048, 2049, 4096, 5000] {
        let data: Vec<u8> = (0..size).map(|i| (i % 251) as u8).collect();
        let chunks = drain(data.render());
        let head = String::from_utf8(chunks[0].clone()).unwrap();
        assert!(head.contains(&format!("Content-Length: {size}\r\n")));
        assert_eq!(chunks.len() - 1, (size + 2047) / 2048);
        assert!(chunks[1..].iter().all(|c| !c.is_empty() && c.len() <= 2048));
        assert_eq!(chunks[1..].concat(), data);
    }
}

#[test]
fn exhausted_response_stays_exhausted() {
    let mut r = "ab".render();
    assert!(r.next_chunk().is_some());
    assert_eq!(r.next_chunk(), Some(b"ab".to_vec()));
    assert_eq!(r.next_chunk(), None);
    assert_eq!(r.next_chunk(), None);
}

#[test]
fn declared_content_type_is_used_once() {
    let headers = vec![
        ("X-A".to_string(), "1".to_string()),
        ("Content-TYPE".to_string(), "application/json".to_string()),
        ("X-B".to_string(), "2".to_string()),
    ];
    let chunks = drain(b"{}".render_with(headers));
    assert_eq!(
        chunks[0],
        b"HTTP/1.1 200 Ok\r\nContent-Length: 2\r\nContent-Type: application/json\r\nX-A: 1\r\nX-B: 2\r\n\r\n".to_vec()
    );
}

#[test]
fn take_content_type_removes_first_match() {
    let mut h = vec![
        ("content-type".to_string(), "image/png".to_string()),
        ("content-type".to_string(), "image/gif".to_string()),
    ];
    assert_eq!(take_content_type(&mut h, Mime::Html), Mime::Png);
    assert_eq!(h.len(), 1);
    let mut none: Vec<(String, String)> = vec![("a".to_string(), "b".to_string())];
    assert_eq!(take_content_type(&mut none, Mime::Html), Mime::Html);
    assert_eq!(none.len(), 1);
}

#[test]
fn head_for_large_size() {
    let h = response_head(1234567890, Mime::Svg, &Vec::new());
    assert_eq!(
        h,
        b"HTTP/1.1 200 Ok\r\nContent-Length: 1234567890\r\nContent-Type: image/svg+xml\r\n\r\n".to_vec()
    );
}

#[test]
fn extension_mapping() {
    let cases = [
        ("gif", Mime::Gif),
        ("jpeg", Mime::Jpeg),
        ("png", Mime::Png),
        ("svg", Mime::Svg),
        ("webp", Mime::Webp),
        ("css", Mime::Css),
        ("js", Mime::JavaScript),
        ("json", Mime::Json),
        ("html", Mime::Html),
        ("txt", Mime::Plain),
        ("", Mime::Plain),
        ("GIF", Mime::Plain),
    ];
    for (ext, m) in cases {
        assert_eq!(Mime::from_extension(ext), m);
        assert_eq!(Mime::from(ext), m);
    }
}

#[test]
fn content_type_mapping() {
    assert_eq!(Mime::from_content_type("image/svg+xml"), Mime::Svg);
    assert_eq!(Mime::from_content_type("application/json"), Mime::Json);
    assert_eq!(Mime::from_content_type("text/js"), Mime::JavaScript);
    assert_eq!(Mime::from_content_type("text/html"), Mime::Html);
    assert_eq!(Mime::from_content_type("text/whatever"), Mime::Plain);
}

#[test]
fn content_type_strings() {
    assert_eq!(Mime::Gif.to_string(), "image/gif");
    assert_eq!(Mime::Webp.to_string(), "image/webp");
    assert_eq!(Mime::Svg.to_string(), "image/svg+xml");
    assert_eq!(Mime::JavaScript.to_string(), "text/javascript");
    assert_eq!(Mime::Plain.to_string(), "text/plain");
    assert_eq!(Mime::Json.to_string(), "application/json");
    assert_eq!(Mime::default(), Mime::Plain);
    assert_eq!(Mime::Css.name(), "css");
}

#[test]
fn content_type_strings_parse_back() {
    let all = [
        Mime::Gif, Mime::Jpeg, Mime::Png, Mime::Svg, Mime::Webp,
        Mime::Css, Mime::JavaScript, Mime::Json, Mime::Plain, Mime::Html,
    ];
    for m in all {
        assert_eq!(m.to_string().parse::<Mime>(), Ok(m));
    }
}

#[test]
fn declared_extension_name_is_not_a_content_type() {
    let chunks = drain(b"x".render_with(vec![("content-type".to_string(), "json".to_string())]));
    assert_eq!(
        chunks[0],
        b"HTTP/1.1 200 Ok\r\nContent-Length: 1\r\nContent-Type: text/plain\r\n\r\n".to_vec()
    );
}

#[test]
fn render_without_headers() {
    let chunks = drain(b"hi".render());
    assert_eq!(
        chunks,
        vec![b"HTTP/1.1 200 Ok\r\nContent-Length: 2\r\nContent-Type: text/plain\r\n\r\n".to_vec(), b"hi".to_vec()]
    );
}

#[test]
fn file_response_names_its_file() {
    let mut r = Response::with_file(b"HEAD".to_vec(), "/tmp/x.txt".to_string());
    assert_eq!(r.file_path().map(|s| s.as_str()), Some("/tmp/x.txt"));
    assert_eq!(r.next_chunk(), Some(b"HEAD".to_vec()));
    assert_eq!(r.next_chunk(), None);
    assert_eq!(r.file_path().map(|s| s.as_str()), Some("/tmp/x.txt"));
    assert_eq!(mini_http::frame_len(5000), 2048);
    assert_eq!(mini_http::frame_len(7), 7);
    assert!(b"x".render().file_path().is_none());
}
