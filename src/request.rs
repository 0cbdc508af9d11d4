//! The request parser: a best-effort, single-pass decoder from raw bytes to a
//! `Request`. It never fails; malformed input gives default values.

use vstd::prelude::*;
use vstd::utf8::{valid_utf8, decode_utf8};
use crate::render::ascii_lower;
use crate::table::{Table, Entries, put, put_all, lookup};
use crate::text::{split_on, split_terminated, split_bytes, split_chars, slice_of, chars_of,
    string_of, chars_eq, find_char, index_of, before, after, trim, trim_start, is_ws,
    is_whitespace, trim_start_chars, trim_end_chars, lemma_split_nonempty, lemma_index_of_bounds};

verus! {

#[verifier::external_type_specification]
#[verifier::external_body]
pub struct ExValue(serde_json::Value);

/// What `str::to_lowercase` gives for a string.
pub uninterp spec fn lower_of(s: Seq<char>) -> Seq<char>;

/// Relies on `str::to_lowercase`: the result depends on the characters alone,
/// and on ASCII text it maps `A`-`Z` to `a`-`z` and keeps the rest.
#[verifier::external_body]
fn lowercase(c: &[char]) -> (r: Vec<char>)
    ensures
        r@ == lower_of(c@),
        (forall|i: int| 0 <= i < c@.len() ==> (c@[i] as u32) < 128) ==> r@ == c@.map_values(
            |x: char| ascii_lower(x),
        ),
{
    c.iter().collect::<String>().to_lowercase().chars().collect()
}

/// Relies on `std::str::from_utf8`: it accepts exactly the valid UTF-8 byte
/// sequences, and then holds the characters that they encode.
#[verifier::external_body]
fn decode_line(b: &[u8]) -> (r: Option<Vec<char>>)
    ensures
        r is Some <==> valid_utf8(b@),
        r matches Some(c) ==> c@ == decode_utf8(b@),
{
    std::str::from_utf8(b).ok().map(|s| s.chars().collect())
}

/// Relies on `serde_json::from_str` for a JSON document; where it reports an
/// error, the default value (null) stands in.
#[verifier::external_body]
fn parse_json(text: &[char]) -> (r: serde_json::Value) {
    serde_json::from_str(&text.iter().collect::<String>()).unwrap_or_default()
}

/// The bytes of a request line-ending character.
pub open spec fn strip_cr(l: Seq<u8>) -> Seq<u8> {
    if l.len() > 0 && l.last() == 13u8 {
        l.drop_last()
    } else {
        l
    }
}

/// The lines of `b`: split at `\n`, without a trailing empty piece, each
/// without a final `\r` (also on a last line that no `\n` ends).
pub open spec fn raw_lines(b: Seq<u8>) -> Seq<Seq<u8>> {
    split_terminated(b, 10u8).map_values(|l: Seq<u8>| strip_cr(l))
}

/// A line's text, if it is valid UTF-8.
pub open spec fn decoded(l: Seq<u8>) -> Option<Seq<char>> {
    if valid_utf8(l) {
        Some(decode_utf8(l))
    } else {
        None
    }
}

pub open spec fn text_lines(b: Seq<u8>) -> Seq<Option<Seq<char>>> {
    raw_lines(b).map_values(|l: Seq<u8>| decoded(l))
}

pub open spec fn lines_view(v: Seq<Option<Vec<char>>>) -> Seq<Option<Seq<char>>> {
    v.map_values(|o: Option<Vec<char>>| match o {
        Some(c) => Some(c@),
        None => None,
    })
}

/// Reads the lines of `b`.
pub fn read_lines(b: &[u8]) -> (r: Vec<Option<Vec<char>>>)
    ensures
        lines_view(r@) == text_lines(b@),
{
    let parts = split_bytes(b, 10u8);
    let ghost pv = parts@.map_values(|p: Vec<u8>| p@);
    proof { lemma_split_nonempty(b@, 10u8); }
    let mut n: usize = parts.len();
    if parts[n - 1].len() == 0 {
        n = n - 1;
    }
    let ghost t = split_terminated(b@, 10u8);
    assert(t =~= pv.subrange(0, n as int));
    let mut out: Vec<Option<Vec<char>>> = Vec::new();
    let mut i: usize = 0;
    while i < n
        invariant
            i <= n <= parts@.len(),
            pv == parts@.map_values(|p: Vec<u8>| p@),
            t == pv.subrange(0, n as int),
            lines_view(out@) == t.subrange(0, i as int).map_values(|l: Seq<u8>| strip_cr(l)).map_values(
                |l: Seq<u8>| decoded(l),
            ),
        decreases n - i,
    {
        let p = &parts[i];
        assert(p@ == t[i as int]);
        let len = p.len();
        let end: usize = if len > 0 && p[len - 1] == 13u8 { len - 1 } else { len };
        let l = slice_of(p, 0, end);
        assert(l@ =~= strip_cr(p@));
        let d = decode_line(&l);
        let ghost dv: Option<Seq<char>> = lines_view(seq![d])[0];
        assert(dv == decoded(l@));
        let ghost before_out = lines_view(out@);
        out.push(d);
        assert(lines_view(out@) =~= before_out.push(dv));
        assert(lines_view(out@) =~= t.subrange(0, i + 1).map_values(|l: Seq<u8>| strip_cr(l)).map_values(
            |l: Seq<u8>| decoded(l),
        ));
        i = i + 1;
    }
    assert(t.subrange(0, n as int) == t);
    assert(lines_view(out@) =~= text_lines(b@));
    out
}

/// The whitespace-separated words of `s`, as a fold: the finished words and
/// the word being read.
pub open spec fn words_acc(s: Seq<char>) -> (Seq<Seq<char>>, Seq<char>)
    decreases s.len(),
{
    if s.len() == 0 {
        (Seq::empty(), Seq::empty())
    } else {
        let (ws, cur) = words_acc(s.drop_last());
        if is_ws(s.last()) {
            if cur.len() == 0 {
                (ws, cur)
            } else {
                (ws.push(cur), Seq::empty())
            }
        } else {
            (ws, cur.push(s.last()))
        }
    }
}

/// The non-empty whitespace-separated words of `s`, in order.
pub open spec fn words(s: Seq<char>) -> Seq<Seq<char>> {
    let (ws, cur) = words_acc(s);
    if cur.len() == 0 {
        ws
    } else {
        ws.push(cur)
    }
}

fn split_words(s: &[char]) -> (r: Vec<Vec<char>>)
    ensures
        r@.map_values(|w: Vec<char>| w@) == words(s@),
{
    let mut done: Vec<Vec<char>> = Vec::new();
    let mut cur: Vec<char> = Vec::new();
    let mut i: usize = 0;
    while i < s.len()
        invariant
            i <= s@.len(),
            (done@.map_values(|w: Vec<char>| w@), cur@) == words_acc(s@.subrange(0, i as int)),
        decreases s@.len() - i,
    {
        assert(s@.subrange(0, i + 1).drop_last() == s@.subrange(0, i as int));
        if is_whitespace(s[i]) {
            if cur.len() > 0 {
                let w = cur;
                done.push(w);
                cur = Vec::new();
            }
        } else {
            cur.push(s[i]);
        }
        assert(done@.map_values(|w: Vec<char>| w@) =~= words_acc(s@.subrange(0, i + 1)).0);
        i = i + 1;
    }
    assert(s@.subrange(0, s@.len() as int) == s@);
    if cur.len() > 0 {
        done.push(cur);
    }
    assert(done@.map_values(|w: Vec<char>| w@) =~= words(s@));
    done
}

/// The request target and protocol named by the first line; "/" and
/// "HTTP/1.1" where it names none.
pub open spec fn request_line(lines: Seq<Option<Seq<char>>>) -> (Seq<char>, Seq<char>) {
    let ws = if lines.len() > 0 && lines[0] is Some {
        words(lines[0]->0)
    } else {
        Seq::empty()
    };
    (if ws.len() > 0 { ws[0] } else { "/"@ }, if ws.len() > 1 { ws[1] } else { "HTTP/1.1"@ })
}

/// A header line's name and value: split at the first `:`, the value without
/// leading whitespace; on a POST the name is trimmed and lower-cased.
pub open spec fn header_field(l: Seq<char>, post: bool) -> Option<(Seq<char>, Seq<char>)> {
    match index_of(l, ':') {
        Some(i) => {
            let k = l.subrange(0, i);
            let v = trim_start(l.subrange(i + 1, l.len() as int));
            Some((if post { lower_of(trim(k)) } else { k }, v))
        },
        None => None,
    }
}

/// The headers that the given lines declare, a later one replacing an
/// earlier one of the same name; lines that are not text or hold no `:` are
/// passed over.
pub open spec fn header_entries(ls: Seq<Option<Seq<char>>>, post: bool) -> Entries
    decreases ls.len(),
{
    if ls.len() == 0 {
        Seq::empty()
    } else {
        let prev = header_entries(ls.drop_last(), post);
        match ls.last() {
            Some(l) => match header_field(l, post) {
                Some(f) => put(prev, f.0, f.1),
                None => prev,
            },
            None => prev,
        }
    }
}

/// The lines after the request line.
pub open spec fn after_first(lines: Seq<Option<Seq<char>>>) -> Seq<Option<Seq<char>>> {
    if lines.len() == 0 {
        lines
    } else {
        lines.drop_first()
    }
}

/// Where the blank line that ends the headers stands among `hl`.
pub open spec fn blank_at(hl: Seq<Option<Seq<char>>>) -> Option<int> {
    index_of(hl, Some(Seq::<char>::empty()))
}

/// The header lines: those before the first blank line.
pub open spec fn header_part(hl: Seq<Option<Seq<char>>>) -> Seq<Option<Seq<char>>> {
    match blank_at(hl) {
        Some(e) => hl.subrange(0, e),
        None => hl,
    }
}

/// The body lines: those after the first blank line; none without one.
pub open spec fn body_part(hl: Seq<Option<Seq<char>>>) -> Seq<Option<Seq<char>>> {
    match blank_at(hl) {
        Some(e) => hl.subrange(e + 1, hl.len() as int),
        None => Seq::empty(),
    }
}

pub open spec fn headers_of(lines: Seq<Option<Seq<char>>>, post: bool) -> Entries {
    header_entries(header_part(after_first(lines)), post)
}

/// The first line that is text.
pub open spec fn first_text(ls: Seq<Option<Seq<char>>>) -> Option<int>
    decreases ls.len(),
{
    if ls.len() == 0 {
        None
    } else if ls[0] is Some {
        Some(0)
    } else {
        match first_text(ls.drop_first()) {
            Some(i) => Some(i + 1),
            None => None,
        }
    }
}

/// A form field: the name before the first `=`, the rest after it.
pub open spec fn form_field(x: Seq<char>) -> (Seq<char>, Seq<char>) {
    (before(x, '='), match after(x, '=') {
        Some(v) => v,
        None => Seq::empty(),
    })
}

pub open spec fn form_of(line: Seq<char>) -> Entries {
    put_all(Seq::empty(), split_on(line, '&').map_values(|x: Seq<char>| form_field(x)))
}

pub open spec fn text_or_empty(l: Option<Seq<char>>) -> Seq<char> {
    match l {
        Some(t) => t,
        None => Seq::empty(),
    }
}

/// The lines joined with CRLF, a line that is not text counting as empty.
pub open spec fn join_crlf(ls: Seq<Option<Seq<char>>>) -> Seq<char>
    decreases ls.len(),
{
    if ls.len() == 0 {
        Seq::empty()
    } else if ls.len() == 1 {
        text_or_empty(ls[0])
    } else {
        join_crlf(ls.drop_last()) + "\r\n"@ + text_or_empty(ls.last())
    }
}

/// The declared content type of a POST.
pub open spec fn content_type(lines: Seq<Option<Seq<char>>>) -> Option<Seq<char>> {
    lookup(headers_of(lines, true), "content-type"@)
}

/// The form fields of a POST whose content type is `text/plain`: those of its
/// first body line that is text.
pub open spec fn form_body(lines: Seq<Option<Seq<char>>>) -> Option<Entries> {
    let bl = body_part(after_first(lines));
    if content_type(lines) == Some("text/plain"@) {
        match first_text(bl) {
            Some(m) => Some(form_of(bl[m]->0)),
            None => None,
        }
    } else {
        None
    }
}

/// The JSON text of a POST whose content type is `application/json`: its
/// body from the first line that is text on.
pub open spec fn json_body(lines: Seq<Option<Seq<char>>>) -> Option<Seq<char>> {
    let bl = body_part(after_first(lines));
    if content_type(lines) == Some("application/json"@) {
        match first_text(bl) {
            Some(m) => Some(join_crlf(bl.subrange(m, bl.len() as int))),
            None => None,
        }
    } else {
        None
    }
}

pub open spec fn starts_get(b: Seq<u8>) -> bool {
    &&& b.len() >= 3
    &&& (b[0] == 0x47u8 || b[0] == 0x67u8)
    &&& (b[1] == 0x45u8 || b[1] == 0x65u8)
    &&& (b[2] == 0x54u8 || b[2] == 0x74u8)
}

pub open spec fn starts_post(b: Seq<u8>) -> bool {
    &&& b.len() >= 4
    &&& (b[0] == 0x50u8 || b[0] == 0x70u8)
    &&& (b[1] == 0x4Fu8 || b[1] == 0x6Fu8)
    &&& (b[2] == 0x53u8 || b[2] == 0x73u8)
    &&& (b[3] == 0x54u8 || b[3] == 0x74u8)
}

/// The bytes after the method and the space that follows it.
pub open spec fn after_method(b: Seq<u8>, n: int) -> Seq<u8> {
    if b.len() < n {
        Seq::empty()
    } else {
        b.subrange(n, b.len() as int)
    }
}

/// The request target that parsing `b` gives.
pub open spec fn target_of(b: Seq<u8>) -> Seq<char> {
    if starts_get(b) {
        request_line(get_lines(b)).0
    } else if starts_post(b) {
        request_line(post_lines(b)).0
    } else {
        "/"@
    }
}

/// The lines of a GET request, after its method.
pub open spec fn get_lines(b: Seq<u8>) -> Seq<Option<Seq<char>>> {
    text_lines(after_method(b, 4))
}

/// The lines of a POST request, after its method.
pub open spec fn post_lines(b: Seq<u8>) -> Seq<Option<Seq<char>>> {
    text_lines(after_method(b, 5))
}

fn header_field_of(l: &[char], post: bool) -> (r: Option<(Vec<char>, Vec<char>)>)
    ensures
        r matches Some(f) ==> header_field(l@, post) == Some((f.0@, f.1@)),
        r is None ==> header_field(l@, post) is None,
{
    proof { lemma_index_of_bounds(l@, ':'); }
    match find_char(l, ':') {
        Some(i) => {
            let len = l.len();
            assert(i < len);
            let k = slice_of(l, 0, i);
            let rest = slice_of(l, i + 1, len);
            let v = trim_start_chars(&rest);
            if post {
                let t = trim_end_chars(&trim_start_chars(&k));
                Some((lowercase(&t), v))
            } else {
                Some((k, v))
            }
        },
        None => None,
    }
}

/// Reads the header lines, which follow the request line, into a table, and
/// finds the blank line that ends them.
pub fn read_headers(lines: &Vec<Option<Vec<char>>>, post: bool) -> (r: (Table, Option<usize>))
    ensures
        r.0@ == headers_of(lines_view(lines@), post),
        r.1 matches Some(e) ==> blank_at(after_first(lines_view(lines@))) == Some(e as int),
        r.1 is None ==> blank_at(after_first(lines_view(lines@))) is None,
{
    let ghost lv = lines_view(lines@);
    let ghost hl = after_first(lv);
    let mut table = Table::new();
    if lines.len() == 0 {
        assert(header_part(hl) =~= Seq::<Option<Seq<char>>>::empty());
        proof { lemma_index_of_bounds(hl, Some(Seq::<char>::empty())); }
        return (table, None);
    }
    let mut i: usize = 1;
    while i < lines.len()
        invariant
            1 <= i <= lines@.len(),
            lv == lines_view(lines@),
            hl == lv.drop_first(),
            table@ == header_entries(hl.subrange(0, i - 1), post),
            forall|m: int| 0 <= m < i - 1 ==> hl[m] != Some(Seq::<char>::empty()),
        decreases lines@.len() - i,
    {
        let ghost j = i - 1;
        assert(hl[j] == lv[i as int]);
        assert(hl.subrange(0, j + 1).drop_last() == hl.subrange(0, j));
        match &lines[i] {
            Some(l) => {
                assert(hl[j] == Some(l@));
                if l.len() == 0 {
                    proof {
                        assert(l@ =~= Seq::<char>::empty());
                        crate::text::lemma_index_of_first(hl, Some(Seq::<char>::empty()), j);
                    }
                    return (table, Some(i - 1));
                }
                match header_field_of(l, post) {
                    Some(f) => {
                        let (k, v) = f;
                        table.insert(string_of(&k), string_of(&v));
                    },
                    None => {},
                }
            },
            None => {},
        }
        i = i + 1;
    }
    proof {
        lemma_index_of_bounds(hl, Some(Seq::<char>::empty()));
        if blank_at(hl) is Some {
            let e = blank_at(hl)->0;
            assert(hl[e] == Some(Seq::<char>::empty()));
        }
        assert(hl.subrange(0, hl.len() as int) == hl);
    }
    (table, None)
}

/// The index of the first line at or after `from` that is text.
fn next_text(lines: &Vec<Option<Vec<char>>>, from: usize) -> (r: Option<usize>)
    requires
        from <= lines@.len(),
    ensures
        ({
            let ls = lines_view(lines@).subrange(from as int, lines@.len() as int);
            &&& r matches Some(m) ==> from <= m < lines@.len() && first_text(ls) == Some(m - from)
            &&& r is None ==> first_text(ls) is None
        }),
{
    let ghost lv = lines_view(lines@);
    let mut k: usize = from;
    while k < lines.len()
        invariant
            from <= k <= lines@.len(),
            lv == lines_view(lines@),
            forall|m: int| from <= m < k ==> lv[m] is None,
        decreases lines@.len() - k,
    {
        let ghost ls = lv.subrange(from as int, lv.len() as int);
        assert forall|m: int| 0 <= m < k - from implies ls[m] is None by {
            assert(ls[m] == lv[m + from]);
        }
        assert(ls[k - from] == lv[k as int]);
        if lines[k].is_some() {
            proof { lemma_first_text(ls, k - from); }
            return Some(k);
        }
        k = k + 1;
    }
    proof {
        let ls = lv.subrange(from as int, lv.len() as int);
        assert forall|m: int| 0 <= m < ls.len() implies ls[m] is None by {
            assert(ls[m] == lv[m + from]);
        }
        lemma_first_text(ls, ls.len() as int);
    }
    None
}

proof fn lemma_first_text_some(ls: Seq<Option<Seq<char>>>)
    ensures
        first_text(ls) matches Some(i) ==> 0 <= i < ls.len() && ls[i] is Some,
    decreases ls.len(),
{
    if ls.len() > 0 {
        lemma_first_text_some(ls.drop_first());
    }
}

proof fn lemma_first_text(ls: Seq<Option<Seq<char>>>, i: int)
    requires
        0 <= i <= ls.len(),
        forall|j: int| 0 <= j < i ==> ls[j] is None,
    ensures
        i < ls.len() && ls[i] is Some ==> first_text(ls) == Some(i),
        i == ls.len() ==> first_text(ls) is None,
    decreases i,
{
    if i > 0 {
        let t = ls.drop_first();
        assert forall|j: int| 0 <= j < i - 1 implies t[j] is None by {
            assert(t[j] == ls[j + 1]);
        }
        lemma_first_text(t, i - 1);
    }
}

/// The body of a POST, by its declared content type.
#[derive(Debug)]
pub enum Data {
    Default(Table),
    Json(serde_json::Value),
    Xml(String),
    Unknown(String),
    Empty,
}

#[derive(Debug)]
pub enum Method {
    GET,
    POST(Data),
    UNDEFINIED,
}

#[derive(Debug)]
pub struct Request {
    method: Method,
    url: String,
    protocol: String,
    map: Table,
}

fn form_table(line: &[char]) -> (r: Table)
    ensures
        r@ == form_of(line@),
{
    let pieces = split_chars(line, '&');
    let ghost pv = pieces@.map_values(|p: Vec<char>| p@);
    let ghost fields = pv.map_values(|x: Seq<char>| form_field(x));
    let mut t = Table::new();
    let mut j: usize = 0;
    assert(fields.subrange(0, 0).len() == 0);
    while j < pieces.len()
        invariant
            j <= pieces@.len(),
            pv == pieces@.map_values(|p: Vec<char>| p@),
            fields == pv.map_values(|x: Seq<char>| form_field(x)),
            t@ == put_all(Seq::empty(), fields.subrange(0, j as int)),
        decreases pieces@.len() - j,
    {
        let field = &pieces[j];
        assert(field@ == pv[j as int]);
        proof { lemma_index_of_bounds(field@, '='); }
        let (k, v) = match find_char(field, '=') {
            Some(e) => {
                let len = field.len();
                assert(e < len);
                (slice_of(field, 0, e), slice_of(field, e + 1, len))
            },
            None => {
                assert(field@.subrange(0, field@.len() as int) == field@);
                (slice_of(field, 0, field.len()), Vec::new())
            },
        };
        assert((k@, v@) == form_field(field@));
        t.insert(string_of(&k), string_of(&v));
        assert(fields.subrange(0, j + 1).drop_last() == fields.subrange(0, j as int));
        j = j + 1;
    }
    assert(fields.subrange(0, fields.len() as int) == fields);
    t
}

/// Joins `lines[from..]` with CRLF; `lines[from]` is text.
fn join_lines(lines: &Vec<Option<Vec<char>>>, from: usize) -> (r: Vec<char>)
    requires
        from < lines@.len(),
    ensures
        r@ == join_crlf(lines_view(lines@).subrange(from as int, lines@.len() as int)),
{
    let ghost lv = lines_view(lines@);
    let mut out: Vec<char> = match &lines[from] {
        Some(l) => slice_of(l, 0, l.len()),
        None => Vec::new(),
    };
    proof {
        let s1 = lv.subrange(from as int, from + 1);
        assert(s1[0] == lv[from as int]);
        if let Some(l) = lines@[from as int] {
            assert(l@.subrange(0, l@.len() as int) == l@);
        }
    }
    let n = lines.len();
    let mut k: usize = from + 1;
    while k < lines.len()
        invariant
            from < k <= lines@.len(),
            lv == lines_view(lines@),
            out@ == join_crlf(lv.subrange(from as int, k as int)),
        decreases lines@.len() - k,
    {
        let ghost s = lv.subrange(from as int, k + 1);
        assert(s.drop_last() == lv.subrange(from as int, k as int));
        assert(s.last() == lv[k as int]);
        let mut crlf = chars_of("\r\n");
        out.append(&mut crlf);
        match &lines[k] {
            Some(l) => {
                let mut t = slice_of(l, 0, l.len());
                assert(l@.subrange(0, l@.len() as int) == l@);
                out.append(&mut t);
            },
            None => {},
        }
        assert(out@ =~= join_crlf(s));
        k = k + 1;
    }
    out
}

/// The body of a POST whose headers end at line `blank`.
/// Which of the body decodings applies to a POST whose headers end at line
/// `blank`, and the first body line that is text.
fn body_line(lines: &Vec<Option<Vec<char>>>, blank: Option<usize>, headers: &Table) -> (r: Option<(bool, usize)>)
    requires
        headers@ == headers_of(lines_view(lines@), true),
        blank matches Some(e) ==> blank_at(after_first(lines_view(lines@))) == Some(e as int),
        blank is None ==> blank_at(after_first(lines_view(lines@))) is None,
    ensures
        r is None ==> form_body(lines_view(lines@)) is None && json_body(lines_view(lines@)) is None,
        r matches Some(p) ==> {
            let lv = lines_view(lines@);
            &&& p.1 < lines@.len()
            &&& lv[p.1 as int] is Some
            &&& p.0 ==> form_body(lv) == Some(form_of(lv[p.1 as int]->0)) && json_body(lv) is None
            &&& !p.0 ==> json_body(lv) == Some(join_crlf(lv.subrange(p.1 as int, lv.len() as int))) && form_body(lv) is None
        },
{
    let ghost lv = lines_view(lines@);
    let ghost hl = after_first(lv);
    let e = match blank {
        Some(e) => e,
        None => {
            return None;
        },
    };
    proof { lemma_index_of_bounds(hl, Some(Seq::<char>::empty())); }
    let n = lines.len();
    assert(e + 1 < n);
    let ghost bl = body_part(hl);
    let start = e + 2;
    assert(bl =~= lv.subrange(start as int, lv.len() as int));
    let ct = match headers.get("content-type") {
        Some(c) => chars_of(c.as_str()),
        None => {
            return None;
        },
    };
    let is_form = chars_eq(&ct, &chars_of("text/plain"));
    let is_json = chars_eq(&ct, &chars_of("application/json"));
    if !is_form && !is_json {
        return None;
    }
    let m = match next_text(lines, start) {
        Some(m) => m,
        None => {
            return None;
        },
    };
    assert(bl[m - start] == lv[m as int]);
    assert(ct@ == content_type(lv).unwrap());
    assert(first_text(bl) == Some(m - start));
    proof {
        reveal_strlit("text/plain");
        reveal_strlit("application/json");
        assert("text/plain"@.len() != "application/json"@.len());
        lemma_first_text_some(bl);
    }
    if !is_form {
        assert(bl.subrange(m - start, bl.len() as int) =~= lv.subrange(m as int, lv.len() as int));
    }
    Some((is_form, m))
}

/// The JSON text of a POST whose headers end at line `blank`: the text that
/// the body's JSON document is read from.
pub fn json_text(lines: &Vec<Option<Vec<char>>>, blank: Option<usize>, headers: &Table) -> (r: Option<Vec<char>>)
    requires
        headers@ == headers_of(lines_view(lines@), true),
        blank matches Some(e) ==> blank_at(after_first(lines_view(lines@))) == Some(e as int),
        blank is None ==> blank_at(after_first(lines_view(lines@))) is None,
    ensures
        r matches Some(t) ==> json_body(lines_view(lines@)) == Some(t@),
        r is None ==> json_body(lines_view(lines@)) is None,
{
    match body_line(lines, blank, headers) {
        Some((false, m)) => Some(join_lines(lines, m)),
        _ => None,
    }
}

/// The body of a POST whose headers end at line `blank`.
pub fn post_body(lines: &Vec<Option<Vec<char>>>, blank: Option<usize>, headers: &Table) -> (r: Data)
    requires
        headers@ == headers_of(lines_view(lines@), true),
        blank matches Some(e) ==> blank_at(after_first(lines_view(lines@))) == Some(e as int),
        blank is None ==> blank_at(after_first(lines_view(lines@))) is None,
    ensures
        form_body(lines_view(lines@)) matches Some(f) ==> (r matches Data::Default(t) && t@ == f),
        json_body(lines_view(lines@)) is Some ==> r is Json,
        form_body(lines_view(lines@)) is None && json_body(lines_view(lines@)) is None ==> r is Empty,
{
    match body_line(lines, blank, headers) {
        Some((true, m)) => match &lines[m] {
            Some(l) => Data::Default(form_table(l)),
            None => Data::Empty,
        },
        Some((false, _)) => match json_text(lines, blank, headers) {
            Some(t) => Data::Json(parse_json(&t)),
            None => Data::Empty,
        },
        None => Data::Empty,
    }
}

impl Request {
    pub closed spec fn spec_method(&self) -> Method {
        self.method
    }

    pub closed spec fn spec_url(&self) -> Seq<char> {
        self.url@
    }

    pub closed spec fn spec_protocol(&self) -> Seq<char> {
        self.protocol@
    }

    pub closed spec fn spec_headers(&self) -> Entries {
        self.map@
    }

    /// Parses a raw request. Input that starts with neither `GET` nor `POST`
    /// (in any case) gives an undefined request for "/".
    pub fn parse(req: &[u8]) -> (r: Request)
        ensures
            r.spec_url() == target_of(req@),
            starts_get(req@) ==> {
                &&& r.spec_method() is GET
                &&& (r.spec_url(), r.spec_protocol()) == request_line(get_lines(req@))
                &&& r.spec_headers() == headers_of(get_lines(req@), false)
            },
            !starts_get(req@) && starts_post(req@) ==> {
                &&& r.spec_method() is POST
                &&& (r.spec_url(), r.spec_protocol()) == request_line(post_lines(req@))
                &&& r.spec_headers() == headers_of(post_lines(req@), true)
                &&& (form_body(post_lines(req@)) matches Some(f) ==> (r.spec_method() matches Method::POST(Data::Default(t)) && t@ == f))
                &&& (json_body(post_lines(req@)) is Some ==> (r.spec_method() matches Method::POST(Data::Json(_))))
                &&& (form_body(post_lines(req@)) is None && json_body(post_lines(req@)) is None
                    ==> (r.spec_method() matches Method::POST(Data::Empty)))
            },
            !starts_get(req@) && !starts_post(req@) ==> {
                &&& r.spec_method() is UNDEFINIED
                &&& r.spec_url() == "/"@
                &&& r.spec_protocol() == "HTTP/1.1"@
                &&& r.spec_headers() == Seq::<(Seq<char>, Seq<char>)>::empty()
            },
    {
        let len = req.len();
        let get = len >= 3 && (req[0] == 0x47u8 || req[0] == 0x67u8) && (req[1] == 0x45u8
            || req[1] == 0x65u8) && (req[2] == 0x54u8 || req[2] == 0x74u8);
        let post = !get && len >= 4 && (req[0] == 0x50u8 || req[0] == 0x70u8) && (req[1] == 0x4Fu8
            || req[1] == 0x6Fu8) && (req[2] == 0x53u8 || req[2] == 0x73u8) && (req[3] == 0x54u8
            || req[3] == 0x74u8);
        if !get && !post {
            return Request {
                method: Method::UNDEFINIED,
                url: string_of(&chars_of("/")),
                protocol: string_of(&chars_of("HTTP/1.1")),
                map: Table::new(),
            };
        }
        let skip: usize = if get { 4 } else { 5 };
        let rest = if len < skip { Vec::new() } else { slice_of(req, skip, len) };
        assert(rest@ == after_method(req@, skip as int));
        let lines = read_lines(&rest);
        let ghost lv = lines_view(lines@);
        let (url, protocol) = Self::read_request_line(&lines);
        let (map, blank) = read_headers(&lines, post);
        let method = if get {
            Method::GET
        } else {
            Method::POST(post_body(&lines, blank, &map))
        };
        Request { method, url, protocol, map }
    }

    fn read_request_line(lines: &Vec<Option<Vec<char>>>) -> (r: (String, String))
        ensures
            (r.0@, r.1@) == request_line(lines_view(lines@)),
    {
        let ghost lv = lines_view(lines@);
        let ws: Vec<Vec<char>> = if lines.len() > 0 {
            match &lines[0] {
                Some(l) => split_words(l),
                None => Vec::new(),
            }
        } else {
            Vec::new()
        };
        let ghost wv = ws@.map_values(|w: Vec<char>| w@);
        assert(lines@.len() > 0 ==> lv[0] == match lines@[0] { Some(c) => Some(c@), None => None });
        let url = if ws.len() > 0 { string_of(&ws[0]) } else { string_of(&chars_of("/")) };
        let protocol = if ws.len() > 1 { string_of(&ws[1]) } else { string_of(&chars_of("HTTP/1.1")) };
        (url, protocol)
    }

    pub fn method(&self) -> (r: &Method)
        ensures
            *r == self.spec_method(),
    {
        &self.method
    }

    pub fn url(&self) -> (r: &str)
        ensures
            r@ == self.spec_url(),
    {
        self.url.as_str()
    }

    pub fn protocol(&self) -> (r: &str)
        ensures
            r@ == self.spec_protocol(),
    {
        self.protocol.as_str()
    }

    /// The headers, as a table.
    pub fn headers(&self) -> (r: &Table)
        ensures
            r@ == self.spec_headers(),
    {
        &self.map
    }

    /// The value of header `key`.
    pub fn get(&self, key: &str) -> (r: Option<&String>)
        ensures
            r matches Some(v) ==> lookup(self.spec_headers(), key@) == Some(v@),
            r is None ==> lookup(self.spec_headers(), key@) is None,
    {
        self.map.get(key)
    }
}

impl std::ops::Deref for Request {
    type Target = Table;

    fn deref(&self) -> (r: &Table)
        ensures
            r@ == self.spec_headers(),
    {
        &self.map
    }
}

} // verus!
