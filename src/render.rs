//! Responses: a header block followed by the body in frames of at most
//! `FRAME` bytes, handed out one at a time.

use vstd::prelude::*;
use vstd::utf8::{encode_utf8, encode_scalar};
use crate::mime::{Mime, content_type_of, mime_of_content_type};
use crate::table::Entries;
use crate::text::chars_of;

verus! {

/// The largest body frame.
pub const FRAME: usize = 2048;

/// The length of the next frame of a body with `left` bytes still to send.
pub fn frame_len(left: u64) -> (r: usize)
    ensures
        r as int == if left < FRAME as u64 { left as int } else { FRAME as int },
{
    if left < FRAME as u64 { left as usize } else { FRAME }
}

/// The body of `b` cut into frames of `FRAME` bytes, the last one shorter.
pub open spec fn body_chunks(b: Seq<u8>) -> Seq<Seq<u8>>
    decreases b.len(),
{
    if b.len() == 0 {
        Seq::empty()
    } else if b.len() <= FRAME {
        seq![b]
    } else {
        seq![b.subrange(0, FRAME as int)] + body_chunks(b.subrange(FRAME as int, b.len() as int))
    }
}

/// The concatenation of the pieces of `s`.
pub open spec fn concat(s: Seq<Seq<u8>>) -> Seq<u8>
    decreases s.len(),
{
    if s.len() == 0 {
        Seq::empty()
    } else {
        s[0] + concat(s.drop_first())
    }
}

pub open spec fn digit(d: nat) -> char {
    if d == 0 { '0' }
    else if d == 1 { '1' }
    else if d == 2 { '2' }
    else if d == 3 { '3' }
    else if d == 4 { '4' }
    else if d == 5 { '5' }
    else if d == 6 { '6' }
    else if d == 7 { '7' }
    else if d == 8 { '8' }
    else { '9' }
}

/// The decimal digits of `n`.
pub open spec fn decimal(n: nat) -> Seq<char>
    decreases n,
{
    if n < 10 {
        seq![digit(n)]
    } else {
        decimal(n / 10).push(digit(n % 10))
    }
}

/// `name: value` lines for each header, in order.
pub open spec fn header_lines(hs: Entries) -> Seq<char>
    decreases hs.len(),
{
    if hs.len() == 0 {
        Seq::empty()
    } else {
        header_lines(hs.drop_last()) + hs.last().0 + ": "@ + hs.last().1 + "\r\n"@
    }
}

/// The header block of a successful response.
pub open spec fn head_text(size: nat, mime: Mime, hs: Entries) -> Seq<char> {
    "HTTP/1.1 200 Ok\r\nContent-Length: "@ + decimal(size) + "\r\nContent-Type: "@
        + content_type_of(mime) + "\r\n"@ + header_lines(hs) + "\r\n"@
}

pub open spec fn ascii_lower(c: char) -> char {
    if 'A' <= c && c <= 'Z' {
        (((c as u8) + 32) as u8) as char
    } else {
        c
    }
}

/// Whether a header name is `content-type`, in any case.
pub open spec fn is_content_type_key(k: Seq<char>) -> bool {
    k.len() == "content-type"@.len() && forall|i: int| 0 <= i < k.len() ==> ascii_lower(k[i]) == "content-type"@[i]
}

/// The first header that declares the content type.
pub open spec fn content_type_index(hs: Entries) -> Option<int>
    decreases hs.len(),
{
    if hs.len() == 0 {
        None
    } else if is_content_type_key(hs[0].0) {
        Some(0)
    } else {
        match content_type_index(hs.drop_first()) {
            Some(i) => Some(i + 1),
            None => None,
        }
    }
}

pub open spec fn headers_view(hs: Seq<(String, String)>) -> Entries {
    hs.map_values(|e: (String, String)| (e.0@, e.1@))
}

/// Relies on `String: FromIterator<char>` and `String::into_bytes`: the UTF-8
/// encoding of the characters.
#[verifier::external_body]
fn utf8_of(c: &[char]) -> (r: Vec<u8>)
    ensures
        r@ == encode_utf8(c@),
{
    c.iter().collect::<String>().into_bytes()
}

fn digit_char(d: u64) -> (r: char)
    requires
        d < 10,
    ensures
        r == digit(d as nat),
{
    if d == 0 { '0' }
    else if d == 1 { '1' }
    else if d == 2 { '2' }
    else if d == 3 { '3' }
    else if d == 4 { '4' }
    else if d == 5 { '5' }
    else if d == 6 { '6' }
    else if d == 7 { '7' }
    else if d == 8 { '8' }
    else { '9' }
}

/// Appends the decimal digits of `n`.
pub fn push_decimal(out: &mut Vec<char>, n: u64)
    ensures
        final(out)@ == old(out)@ + decimal(n as nat),
    decreases n,
{
    if n >= 10 {
        push_decimal(out, n / 10);
    }
    out.push(digit_char(n % 10));
}

fn push_str(out: &mut Vec<char>, s: &str)
    ensures
        final(out)@ == old(out)@ + s@,
{
    let mut c = chars_of(s);
    out.append(&mut c);
}

fn ascii_lower_char(c: char) -> (r: char)
    ensures
        r == ascii_lower(c),
{
    if 'A' <= c && c <= 'Z' {
        ((c as u8) + 32) as char
    } else {
        c
    }
}

fn is_content_type_name(k: &str) -> (r: bool)
    ensures
        r == is_content_type_key(k@),
{
    let c = chars_of(k);
    let t = chars_of("content-type");
    if c.len() != t.len() {
        return false;
    }
    let mut i: usize = 0;
    while i < c.len()
        invariant
            c@ == k@,
            t@ == "content-type"@,
            c@.len() == t@.len(),
            i <= c@.len(),
            forall|j: int| 0 <= j < i ==> ascii_lower(c@[j]) == t@[j],
        decreases c@.len() - i,
    {
        if ascii_lower_char(c[i]) != t[i] {
            return false;
        }
        i = i + 1;
    }
    true
}

/// Takes the header that declares the content type out of `headers`, and gives
/// the media type that it names; without one, `fallback`.
pub fn take_content_type(headers: &mut Vec<(String, String)>, fallback: Mime) -> (r: Mime)
    ensures
        match content_type_index(headers_view(old(headers)@)) {
            Some(i) => r == mime_of_content_type(old(headers)@[i].1@) && final(headers)@ == old(headers)@.remove(i),
            None => r == fallback && final(headers)@ == old(headers)@,
        },
{
    let ghost hs = headers_view(headers@);
    let mut i: usize = 0;
    while i < headers.len()
        invariant
            hs == headers_view(headers@),
            headers@ == old(headers)@,
            i <= headers@.len(),
            forall|j: int| 0 <= j < i ==> !is_content_type_key(#[trigger] hs[j].0),
        decreases headers@.len() - i,
    {
        assert(hs[i as int] == (headers@[i as int].0@, headers@[i as int].1@));
        if is_content_type_name(headers[i].0.as_str()) {
            proof { lemma_content_type_index(hs, i as int); }
            let m = Mime::from_content_type(headers[i].1.as_str());
            headers.remove(i);
            return m;
        }
        i = i + 1;
    }
    proof { lemma_content_type_index(hs, hs.len() as int); }
    fallback
}

proof fn lemma_content_type_index_bounds(hs: Entries)
    ensures
        content_type_index(hs) matches Some(i) ==> 0 <= i < hs.len() && is_content_type_key(hs[i].0),
    decreases hs.len(),
{
    if hs.len() > 0 {
        lemma_content_type_index_bounds(hs.drop_first());
    }
}

proof fn lemma_content_type_index(hs: Entries, i: int)
    requires
        0 <= i <= hs.len(),
        forall|j: int| 0 <= j < i ==> !is_content_type_key(#[trigger] hs[j].0),
    ensures
        i < hs.len() && is_content_type_key(hs[i].0) ==> content_type_index(hs) == Some(i),
        i == hs.len() ==> content_type_index(hs) is None,
    decreases i,
{
    if i > 0 {
        let t = hs.drop_first();
        assert forall|j: int| 0 <= j < i - 1 implies !is_content_type_key(#[trigger] t[j].0) by {
            assert(t[j] == hs[j + 1]);
        }
        lemma_content_type_index(t, i - 1);
    }
}

/// The header block for a body of `size` bytes of type `mime`.
pub fn response_head(size: u64, mime: Mime, headers: &Vec<(String, String)>) -> (r: Vec<u8>)
    ensures
        r@ == encode_utf8(head_text(size as nat, mime, headers_view(headers@))),
{
    let mut out: Vec<char> = Vec::new();
    push_str(&mut out, "HTTP/1.1 200 Ok\r\nContent-Length: ");
    push_decimal(&mut out, size);
    push_str(&mut out, "\r\nContent-Type: ");
    let mut ct = mime.content_type_chars();
    out.append(&mut ct);
    push_str(&mut out, "\r\n");
    let ghost start = out@;
    let ghost hs = headers_view(headers@);
    let mut i: usize = 0;
    while i < headers.len()
        invariant
            i <= headers@.len(),
            hs == headers_view(headers@),
            out@ == start + header_lines(hs.subrange(0, i as int)),
        decreases headers@.len() - i,
    {
        assert(hs.subrange(0, i + 1).drop_last() == hs.subrange(0, i as int));
        push_str(&mut out, headers[i].0.as_str());
        push_str(&mut out, ": ");
        push_str(&mut out, headers[i].1.as_str());
        push_str(&mut out, "\r\n");
        i = i + 1;
    }
    assert(hs.subrange(0, hs.len() as int) == hs);
    push_str(&mut out, "\r\n");
    assert(out@ =~= head_text(size as nat, mime, hs));
    utf8_of(&out)
}

/// A response: its header block, then its body in frames. The body is either
/// held in memory or, for a file, named by its path for the caller to stream.
pub struct Response {
    head: Vec<u8>,
    body: Vec<u8>,
    started: bool,
    pos: usize,
    file: Option<String>,
}

impl Response {
    pub closed spec fn head_bytes(&self) -> Seq<u8> {
        self.head@
    }

    pub closed spec fn body_bytes(&self) -> Seq<u8> {
        self.body@
    }

    /// The chunks that are still to come.
    pub closed spec fn remaining(&self) -> Seq<Seq<u8>> {
        let rest = if self.pos <= self.body@.len() {
            body_chunks(self.body@.subrange(self.pos as int, self.body@.len() as int))
        } else {
            Seq::empty()
        };
        if self.started {
            rest
        } else {
            seq![self.head@] + rest
        }
    }

    /// A response whose chunks are `head`, then `body` in frames.
    pub fn new(head: Vec<u8>, body: Vec<u8>) -> (r: Response)
        ensures
            r.head_bytes() == head@,
            r.body_bytes() == body@,
            r.remaining() == seq![head@] + body_chunks(body@),
            r.spec_file() is None,
    {
        let r = Response { head, body, started: false, pos: 0, file: None };
        assert(r.body@.subrange(0, r.body@.len() as int) == r.body@);
        r
    }

    /// The file whose bytes follow the chunks, if any.
    pub closed spec fn spec_file(&self) -> Option<Seq<char>> {
        match self.file {
            Some(p) => Some(p@),
            None => None,
        }
    }

    /// A response whose chunks are `head` alone, to be followed by the bytes
    /// of the file at `path`.
    pub fn with_file(head: Vec<u8>, path: String) -> (r: Response)
        ensures
            r.head_bytes() == head@,
            r.body_bytes() == Seq::<u8>::empty(),
            r.remaining() == seq![head@],
            r.spec_file() == Some(path@),
    {
        let r = Response { head, body: Vec::new(), started: false, pos: 0, file: Some(path) };
        assert(r.remaining() =~= seq![head@]);
        r
    }

    /// The file whose bytes follow the chunks, if any.
    pub fn file_path(&self) -> (r: Option<&String>)
        ensures
            r matches Some(p) ==> self.spec_file() == Some(p@),
            r is None ==> self.spec_file() is None,
    {
        match &self.file {
            Some(p) => Some(p),
            None => None,
        }
    }

    /// A response of the single chunk `bytes`.
    pub fn raw(bytes: Vec<u8>) -> (r: Response)
        ensures
            r.remaining() == seq![bytes@],
    {
        let r = Response::new(bytes, Vec::new());
        assert(r.remaining() =~= seq![bytes@]);
        r
    }

    /// The next chunk: the header block first, then each body frame in order.
    pub fn next_chunk(&mut self) -> (r: Option<Vec<u8>>)
        ensures
            final(self).spec_file() == old(self).spec_file(),
            old(self).remaining().len() == 0 ==> r is None && final(self).remaining() == old(self).remaining(),
            old(self).remaining().len() > 0 ==> (r matches Some(c) && c@ == old(self).remaining()[0]
                && final(self).remaining() == old(self).remaining().drop_first()),
    {
        if !self.started {
            self.started = true;
            let h = self.head.clone();
            assert(h@ == self.head@);
            let ghost rest = if self.pos <= self.body@.len() {
                body_chunks(self.body@.subrange(self.pos as int, self.body@.len() as int))
            } else {
                Seq::empty()
            };
            assert((seq![self.head@] + rest).drop_first() =~= rest);
            return Some(h);
        }
        let n = self.body.len();
        if self.pos >= n {
            return None;
        }
        let end: usize = if n - self.pos <= FRAME { n } else { self.pos + FRAME };
        let ghost b = self.body@.subrange(self.pos as int, n as int);
        let c = crate::text::slice_of(&self.body, self.pos, end);
        assert(c@ == b.subrange(0, (end - self.pos) as int));
        assert(self.body@.subrange(end as int, n as int) == b.subrange((end - self.pos) as int, b.len() as int));
        self.pos = end;
        proof {
            if b.len() <= FRAME {
                assert(b.subrange(0, b.len() as int) == b);
                assert(self.body@.subrange(end as int, n as int).len() == 0);
            }
        }
        Some(c)
    }
}

/// The fixed reply to a request that no handler answers.
pub fn not_found() -> (r: Response)
    ensures
        r.remaining() == seq![encode_utf8(not_found_text())],
{
    let t = "HTTP/1.1 404 Not Found\nContent-Length: 9\n\nNot Found";
    let b = t.as_bytes();
    let v = crate::text::slice_of(b, 0, b.len());
    assert(b@.subrange(0, b@.len() as int) == b@);
    Response::raw(v)
}

pub open spec fn not_found_text() -> Seq<char> {
    "HTTP/1.1 404 Not Found\nContent-Length: 9\n\nNot Found"@
}

/// `r` is `body` rendered with headers `hs`: its header block, whose
/// `Content-Length` is the body's size and whose content type is the one that
/// `hs` declare (else plain text), then the body in frames.
pub open spec fn renders(r: Response, body: Seq<u8>, hs: Entries) -> bool {
    &&& r.body_bytes() == body
    &&& r.remaining() == seq![r.head_bytes()] + body_chunks(body)
    &&& match content_type_index(hs) {
        Some(i) => r.head_bytes() == encode_utf8(
            head_text(body.len(), mime_of_content_type(hs[i].1), hs.remove(i)),
        ),
        None => r.head_bytes() == encode_utf8(head_text(body.len(), Mime::Plain, hs)),
    }
}

/// Renders `body` after its header block.
pub fn render_bytes(body: &[u8], headers: Vec<(String, String)>) -> (r: Response)
    ensures
        renders(r, body@, headers_view(headers@)),
{
    let mut headers = headers;
    let ghost hs0 = headers@;
    let mime = take_content_type(&mut headers, Mime::Plain);
    proof {
        lemma_content_type_index_bounds(headers_view(hs0));
        if let Some(i) = content_type_index(headers_view(hs0)) {
            assert(headers_view(hs0.remove(i)) =~= headers_view(hs0).remove(i));
        }
    }
    let head = response_head(body.len() as u64, mime, &headers);
    let b = crate::text::slice_of(body, 0, body.len());
    assert(body@.subrange(0, body@.len() as int) == body@);
    Response::new(head, b)
}

/// Sources that render into a response.
pub trait Render {
    /// The bytes that make up the body.
    spec fn bytes(&self) -> Seq<u8>;

    fn render_with(&self, headers: Vec<(String, String)>) -> (r: Response)
        ensures
            renders(r, self.bytes(), headers_view(headers@)),
    ;

    fn render(&self) -> (r: Response)
        ensures
            renders(r, self.bytes(), Seq::empty()),
    {
        let r = self.render_with(Vec::new());
        assert(headers_view(Seq::<(String, String)>::empty()) =~= Seq::empty());
        r
    }
}

impl Render for [u8] {
    open spec fn bytes(&self) -> Seq<u8> {
        self@
    }

    fn render_with(&self, headers: Vec<(String, String)>) -> (r: Response) {
        render_bytes(self, headers)
    }
}

impl Render for Vec<u8> {
    open spec fn bytes(&self) -> Seq<u8> {
        self@
    }

    fn render_with(&self, headers: Vec<(String, String)>) -> (r: Response) {
        render_bytes(self.as_slice(), headers)
    }
}

impl Render for str {
    open spec fn bytes(&self) -> Seq<u8> {
        encode_utf8(self@)
    }

    fn render_with(&self, headers: Vec<(String, String)>) -> (r: Response) {
        render_bytes(self.as_bytes(), headers)
    }
}

impl Render for String {
    open spec fn bytes(&self) -> Seq<u8> {
        encode_utf8(self@)
    }

    fn render_with(&self, headers: Vec<(String, String)>) -> (r: Response) {
        render_bytes(self.as_str().as_bytes(), headers)
    }
}

/// A body of `b.len()` bytes comes out in `ceil(len / FRAME)` frames, none
/// longer than `FRAME`, whose concatenation is `b` itself.
pub proof fn lemma_body_chunks(b: Seq<u8>)
    ensures
        body_chunks(b).len() == (b.len() + FRAME - 1) / FRAME as int,
        concat(body_chunks(b)) == b,
        forall|i: int| 0 <= i < body_chunks(b).len() ==> 0 < #[trigger] body_chunks(b)[i].len() <= FRAME,
    decreases b.len(),
{
    if b.len() == 0 {
    } else if b.len() <= FRAME {
        assert(concat(seq![b]) == b + concat(seq![b].drop_first()));
        assert(seq![b].drop_first() =~= Seq::<Seq<u8>>::empty());
        assert(b + Seq::<u8>::empty() =~= b);
    } else {
        let head = b.subrange(0, FRAME as int);
        let tail = b.subrange(FRAME as int, b.len() as int);
        lemma_body_chunks(tail);
        let s = seq![head] + body_chunks(tail);
        assert(s.drop_first() =~= body_chunks(tail));
        assert(s[0] == head);
        assert(head + tail =~= b);
        assert forall|i: int| 0 <= i < s.len() implies 0 < #[trigger] s[i].len() <= FRAME by {
            if i > 0 {
                assert(s[i] == body_chunks(tail)[i - 1]);
            }
        }
    }
}

/// The UTF-8 encoding of a concatenation is the concatenation of encodings.
pub proof fn lemma_encode_concat(a: Seq<char>, b: Seq<char>)
    ensures
        encode_utf8(a + b) == encode_utf8(a) + encode_utf8(b),
    decreases a.len(),
{
    if a.len() > 0 {
        lemma_encode_concat(a.drop_first(), b);
        assert((a + b).drop_first() =~= a.drop_first() + b);
        assert((a + b)[0] == a[0]);
        assert(encode_scalar(a[0] as u32) + (encode_utf8(a.drop_first()) + encode_utf8(b))
            =~= encode_scalar(a[0] as u32) + encode_utf8(a.drop_first()) + encode_utf8(b));
    } else {
        assert(a + b =~= b);
        assert(encode_utf8(a) + encode_utf8(b) =~= encode_utf8(b));
    }
}

/// Rendering a buffer gives one header block, whose bytes begin with the
/// status line and `Content-Length: ` followed by the buffer's length in
/// decimal, then the buffer's frames, which put back together give the buffer.
pub proof fn lemma_render_streams_buffer(r: Response, body: Seq<u8>, hs: Entries)
    requires
        renders(r, body, hs),
    ensures
        r.remaining().len() == 1 + (body.len() + FRAME - 1) / FRAME as int,
        ({
            let prefix = encode_utf8("HTTP/1.1 200 Ok\r\nContent-Length: "@) + encode_utf8(decimal(body.len()))
                + encode_utf8("\r\nContent-Type: "@);
            &&& prefix.len() <= r.remaining()[0].len()
            &&& r.remaining()[0].subrange(0, prefix.len() as int) == prefix
        }),
        concat(r.remaining().drop_first()) == body,
{
    lemma_body_chunks(body);
    assert(r.remaining().drop_first() =~= body_chunks(body));
    let mime = match content_type_index(hs) {
        Some(i) => mime_of_content_type(hs[i].1),
        None => Mime::Plain,
    };
    let hs2 = match content_type_index(hs) {
        Some(i) => hs.remove(i),
        None => hs,
    };
    let l1 = "HTTP/1.1 200 Ok\r\nContent-Length: "@;
    let d = decimal(body.len());
    let l2 = "\r\nContent-Type: "@;
    let rest = content_type_of(mime) + "\r\n"@ + header_lines(hs2) + "\r\n"@;
    assert(head_text(body.len(), mime, hs2) =~= l1 + d + l2 + rest);
    lemma_encode_concat(l1 + d + l2, rest);
    lemma_encode_concat(l1 + d, l2);
    lemma_encode_concat(l1, d);
    let prefix = encode_utf8(l1) + encode_utf8(d) + encode_utf8(l2);
    assert(r.remaining()[0] == r.head_bytes());
    assert(r.head_bytes() == prefix + encode_utf8(rest));
    assert((prefix + encode_utf8(rest)).subrange(0, prefix.len() as int) =~= prefix);
}

} // verus!
