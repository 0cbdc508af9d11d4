use mini_http::{not_found, Handler, Render, Request, Response, Table, Urls};

const NOT_FOUND: &[u8] = b"HTTP/1.1 404 Not Found\nContent-Length: 9\n\nNot Found";

/// Answers with its tag and the query fields it was given.
struct Tagged(&'static str);

impl Handler<()> for Tagged {
    fn handle(&self, _req: Request, _peer: (), args: Table) -> Result<Response, String> {
        let mut body = self.0.to_string();
        for (k, v) in args.entries() {
            body.push_str(&format!(";{k}={v}"));
        }
        Ok(body.render())
    }
}

struct Failing;

impl Handler<()> for Failing {
    fn handle(&self, _req: Request, _peer: (), _args: Table) -> Result<Response, String> {
        Err("broken".to_string())
    }
}

fn drain(mut r: Response) -> Vec<Vec<u8>> {
    let mut out = Vec::new();
    while let Some(c) = r.next_chunk() {
        out.push(c);
    }
    out
}

fn body_of(r: Response) -> String {
    let chunks = drain(r);
    String::from_utf8(chunks[1..].concat()).unwrap()
}

fn get(urls: &Urls<Tagged>, target: &str) -> Response {
    urls.respond(format!("GET {target} HTTP/1.1\r\n\r\n").as_bytes(), ())
}

#[test]
fn registered_path_round_trip() {
    let mut urls = Urls::new(true);
    urls.append("/a/b", Tagged("ab"));
    assert_eq!(body_of(get(&urls, "/a/b")), "ab");
}

#[test]
fn query_fields_reach_the_handler() {
    let mut urls = Urls::new(true);
    urls.append("/a/b", Tagged("ab"));
    assert_eq!(body_of(get(&urls, "/a/b?x=1&y=2")), "ab;x=1;y=2");
}

#[test]
fn later_query_field_replaces_earlier() {
    let mut urls = Urls::new(true);
    urls.append("/a/b", Tagged("ab"));
    assert_eq!(body_of(get(&urls, "/a?x=1/b?x=2&y")), "ab;x=2;=y");
}

#[test]
fn non_absolute_root_answers_unknown_paths() {
    let mut urls = Urls::new(false);
    urls.add(Tagged("root"));
    assert_eq!(body_of(get(&urls, "/missing")), "root");
    assert_eq!(body_of(get(&urls, "/missing/deeper?q=1")), "root");
    assert_eq!(body_of(get(&urls, "/missing?q=1/deeper")), "root;q=1");
}

#[test]
fn absolute_root_gives_not_found() {
    let mut urls = Urls::new(true);
    urls.add(Tagged("root"));
    assert_eq!(drain(get(&urls, "/missing")), vec![NOT_FOUND.to_vec()]);
    assert_eq!(body_of(get(&urls, "/")), "root");
}

#[test]
fn child_nodes_are_absolute() {
    let mut urls = Urls::new(false);
    urls.append("/a", Tagged("a"));
    assert_eq!(drain(get(&urls, "/a/missing")), vec![NOT_FOUND.to_vec()]);
}

#[test]
fn re_registration_replaces_handler() {
    let mut urls = Urls::new(true);
    urls.append("/p", Tagged("first"));
    urls.append("/p", Tagged("second"));
    assert_eq!(body_of(get(&urls, "/p")), "second");
    assert_eq!(body_of(get(&urls, "/p")), "second");
}

#[test]
fn unregistered_path_is_not_found() {
    let mut urls = Urls::new(true);
    urls.append("/hello", Tagged("hi"));
    assert_eq!(drain(get(&urls, "/nowhere")), vec![NOT_FOUND.to_vec()]);
    assert_eq!(drain(not_found()), vec![NOT_FOUND.to_vec()]);
}

#[test]
fn node_without_handler_is_not_found() {
    let mut urls = Urls::new(true);
    urls.append("/a/b", Tagged("ab"));
    assert_eq!(drain(get(&urls, "/a")), vec![NOT_FOUND.to_vec()]);
}

#[test]
fn failing_handler_gives_not_found() {
    let mut urls = Urls::new(true);
    urls.append("/x", Failing);
    let r = urls.respond(b"GET /x HTTP/1.1\r\n\r\n", ());
    assert_eq!(drain(r), vec![NOT_FOUND.to_vec()]);
}

#[test]
fn hello_example_response_bytes() {
    let mut urls = Urls::new(true);
    urls.append("/hello", Tagged("hi"));
    let r = urls.respond(b"GET /hello HTTP/1.1\r\nHost: x\r\n\r\n", ());
    let all = drain(r).concat();
    assert_eq!(
        all,
        b"HTTP/1.1 200 Ok\r\nContent-Length: 2\r\nContent-Type: text/plain\r\n\r\nhi".to_vec()
    );
}

#[test]
fn path_without_leading_slash_registers_all_segments() {
    let mut urls = Urls::new(true);
    urls.append("a/b/", Tagged("ab"));
    assert_eq!(body_of(get(&urls, "/a/b/")), "ab");
}

#[test]
fn answer_passes_ok_and_maps_err() {
    assert_eq!(drain(mini_http::answer(Err("x".to_string()))), vec![NOT_FOUND.to_vec()]);
    let page = mini_http::answer(Ok(b"ok".render()));
    assert_eq!(body_of(page), "ok");
}

#[test]
fn new_router_answers_not_found() {
    let urls: Urls<Tagged> = Urls::default();
    assert_eq!(drain(get(&urls, "/")), vec![NOT_FOUND.to_vec()]);
    assert_eq!(drain(get(&urls, "/x")), vec![NOT_FOUND.to_vec()]);
}
