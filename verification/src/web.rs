//! The HTTP side of the web page: request pieces, URL and form decoding, HTML
//! escaping and response framing. Reading and writing sockets happen outside
//! this library.
//!
//! Only `GET` and `POST` with `application/x-www-form-urlencoded` bodies are
//! understood; every connection carries one request (`Connection: close`).

use vstd::prelude::*;

use crate::text::{
    chars_of, decimal, eq_ignore_ascii_case, find_char, find_char_index, lemma_find_char_found,
    parse_unsigned, parse_unsigned_range, push_char, push_decimal, push_str,
    range_eq_ignore_ascii_case, string_from_range, trim, trim_end, trim_end_index,
    trim_start_index,
};
use vstd::utf8::{decode_utf8, encode_utf8, valid_utf8};

verus! {

// ---------------------------------------------------------------------------
// URL decoding
// ---------------------------------------------------------------------------

/// The value of an ASCII hexadecimal digit.
pub open spec fn hex_digit(b: u8) -> Option<nat> {
    if 48 <= b <= 57 {
        Some((b - 48) as nat)
    } else if 97 <= b <= 102 {
        Some((b - 87) as nat)
    } else if 65 <= b <= 70 {
        Some((b - 55) as nat)
    } else {
        None
    }
}

/// The byte written by two hexadecimal digits, if both are digits.
pub open spec fn hex_pair(b1: u8, b2: u8) -> Option<u8> {
    match (hex_digit(b1), hex_digit(b2)) {
        (Some(x), Some(y)) => Some((x * 16 + y) as u8),
        _ => None,
    }
}

/// The bytes of a URL-encoded text once `+` is read as a blank and `%XX` as
/// the byte `XX`; a `%` not followed by a valid pair is kept.
pub open spec fn decode_bytes(b: Seq<u8>) -> Seq<u8>
    decreases b.len(),
{
    if b.len() == 0 {
        Seq::empty()
    } else if b[0] == 43 {
        seq![32u8] + decode_bytes(b.drop_first())
    } else if b[0] == 37 && 2 < b.len() {
        match hex_pair(b[1], b[2]) {
            Some(v) => seq![v] + decode_bytes(b.skip(3)),
            None => seq![37u8] + decode_bytes(b.drop_first()),
        }
    } else {
        seq![b[0]] + decode_bytes(b.drop_first())
    }
}

/// What `String::from_utf8_lossy` makes of a byte sequence. Invalid sequences
/// become replacement characters; that mapping is not written out here.
pub uninterp spec fn lossy_utf8(b: Seq<u8>) -> Seq<char>;

/// `String::from_utf8_lossy`: the result is named, and for valid UTF-8 it is
/// the decoded text.
#[verifier::external_body]
fn lossy_string(bytes: &[u8]) -> (r: String)
    ensures
        r@ == lossy_utf8(bytes@),
        valid_utf8(bytes@) ==> r@ == decode_utf8(bytes@),
{
    String::from_utf8_lossy(bytes).to_string()
}

fn hex_digit_of(b: u8) -> (r: Option<u8>)
    ensures
        match hex_digit(b) {
            Some(d) => r == Some(d as u8),
            None => r is None,
        },
{
    if 48 <= b && b <= 57 {
        Some(b - 48)
    } else if 97 <= b && b <= 102 {
        Some(b - 87)
    } else if 65 <= b && b <= 70 {
        Some(b - 55)
    } else {
        None
    }
}

fn hex_pair_of(b1: u8, b2: u8) -> (r: Option<u8>)
    ensures
        r == hex_pair(b1, b2),
{
    match (hex_digit_of(b1), hex_digit_of(b2)) {
        (Some(x), Some(y)) => Some(x * 16 + y),
        _ => None,
    }
}

/// URL decoding: `%XX` with two hexadecimal digits becomes the byte `XX`, any
/// other `%` is kept, `+` becomes a blank, and the bytes are read as UTF-8 with
/// invalid sequences replaced.
pub fn url_decode(s: &str) -> (r: String)
    ensures
        r@ == lossy_utf8(decode_bytes(encode_utf8(s@))),
        valid_utf8(decode_bytes(encode_utf8(s@))) ==> r@ == decode_utf8(
            decode_bytes(encode_utf8(s@)),
        ),
{
    let bytes = s.as_bytes();
    let ghost b = bytes@;
    let mut out: Vec<u8> = Vec::new();
    let mut i: usize = 0;
    assert(b.skip(0) == b);
    while i < bytes.len()
        invariant
            b == bytes@,
            b == encode_utf8(s@),
            i <= bytes.len(),
            decode_bytes(b) == out@ + decode_bytes(b.skip(i as int)),
        decreases bytes.len() - i,
    {
        let ghost t = b.skip(i as int);
        let ghost before = out@;
        if bytes[i] == 43 {
            out.push(32);
            assert(t.drop_first() == b.skip(i + 1));
            assert(out@ + decode_bytes(b.skip(i + 1)) == before + (seq![32u8] + decode_bytes(
                t.drop_first(),
            )));
            i = i + 1;
        } else if bytes[i] == 37 && 2 < bytes.len() - i {
            assert(t[0] == 37 && t[1] == bytes[i + 1] && t[2] == bytes[i + 2]);
            match hex_pair_of(bytes[i + 1], bytes[i + 2]) {
                Some(v) => {
                    out.push(v);
                    assert(t.skip(3) == b.skip(i + 3));
                    assert(out@ + decode_bytes(b.skip(i + 3)) == before + (seq![v] + decode_bytes(
                        t.skip(3),
                    )));
                    i = i + 3;
                },
                None => {
                    out.push(37);
                    assert(t.drop_first() == b.skip(i + 1));
                    assert(out@ + decode_bytes(b.skip(i + 1)) == before + (seq![37u8]
                        + decode_bytes(t.drop_first())));
                    i = i + 1;
                },
            }
        } else {
            let c = bytes[i];
            out.push(c);
            assert(t[0] == c);
            assert(t.drop_first() == b.skip(i + 1));
            assert(out@ + decode_bytes(b.skip(i + 1)) == before + (seq![c] + decode_bytes(
                t.drop_first(),
            )));
            i = i + 1;
        }
    }
    assert(b.skip(i as int) == Seq::<u8>::empty());
    assert(out@ == decode_bytes(b));
    lossy_string(out.as_slice())
}

} // verus!

verus! {

// ---------------------------------------------------------------------------
// Forms and query strings
// ---------------------------------------------------------------------------

/// A URL-decoded text.
pub open spec fn decoded(x: Seq<char>) -> Seq<char> {
    lossy_utf8(decode_bytes(encode_utf8(x)))
}

/// One `name=value` field; without `=` the whole piece is the name and the value is empty.
pub open spec fn field_of(piece: Seq<char>) -> (Seq<char>, Seq<char>) {
    match find_char(piece, '=') {
        Some(p) => (decoded(piece.take(p as int)), decoded(piece.skip(p + 1int))),
        None => (decoded(piece), Seq::empty()),
    }
}

pub open spec fn piece_fields(piece: Seq<char>) -> Seq<(Seq<char>, Seq<char>)> {
    if piece.len() == 0 {
        Seq::empty()
    } else {
        seq![field_of(piece)]
    }
}

/// The decoded fields of `a=1&b=2`: pieces between `&`, empty pieces skipped.
pub open spec fn form_fields(s: Seq<char>) -> Seq<(Seq<char>, Seq<char>)>
    decreases s.len(),
{
    match find_char(s, '&') {
        None => piece_fields(s),
        Some(p) => {
            proof {
                lemma_find_char_found(s, '&');
            }
            piece_fields(s.take(p as int)) + form_fields(s.skip(p + 1int))
        },
    }
}

pub open spec fn pairs_view(v: Seq<(String, String)>) -> Seq<(Seq<char>, Seq<char>)> {
    v.map_values(|p: (String, String)| (p.0@, p.1@))
}

fn decode_piece(v: &Vec<char>, lo: usize, hi: usize) -> (r: (String, String))
    requires
        lo < hi <= v.len(),
    ensures
        (r.0@, r.1@) == field_of(v@.subrange(lo as int, hi as int)),
{
    let ghost piece = v@.subrange(lo as int, hi as int);
    match find_char_index(v, lo, hi, '=') {
        Some(e) => {
            assert(piece.take(e - lo) == v@.subrange(lo as int, e as int));
            assert(piece.skip(e - lo + 1) == v@.subrange(e + 1, hi as int));
            let name = string_from_range(v, lo, e);
            let value = string_from_range(v, e + 1, hi);
            (url_decode(name.as_str()), url_decode(value.as_str()))
        },
        None => {
            let all = string_from_range(v, lo, hi);
            (url_decode(all.as_str()), String::new())
        },
    }
}

/// The decoded fields of a form body or query string (`a=1&b=2`).
pub fn parse_form(body: &str) -> (r: Vec<(String, String)>)
    ensures
        pairs_view(r@) == form_fields(body@),
{
    let v = chars_of(body);
    let mut fields: Vec<(String, String)> = Vec::new();
    let mut pos: usize = 0;
    assert(v@.subrange(0, v@.len() as int) == v@);
    loop
        invariant
            v@ == body@,
            pos <= v.len(),
            form_fields(body@) == pairs_view(fields@) + form_fields(
                v@.subrange(pos as int, v.len() as int),
            ),
        decreases v.len() - pos,
    {
        let ghost rest = v@.subrange(pos as int, v.len() as int);
        let ghost before = pairs_view(fields@);
        let (end, next) = match find_char_index(&v, pos, v.len(), '&') {
            None => (v.len(), None),
            Some(e) => {
                assert(rest.take(e - pos) == v@.subrange(pos as int, e as int));
                assert(rest.skip(e - pos + 1) == v@.subrange(e + 1, v.len() as int));
                (e, Some(e + 1))
            },
        };
        if pos < end {
            let field = decode_piece(&v, pos, end);
            fields.push(field);
            assert(pairs_view(fields@) == before + piece_fields(v@.subrange(pos as int, end as int)));
        } else {
            assert(pairs_view(fields@) == before + piece_fields(v@.subrange(pos as int, end as int)));
        }
        match next {
            None => {
                assert(rest == v@.subrange(pos as int, end as int));
                assert(form_fields(body@) == pairs_view(fields@));
                return fields;
            },
            Some(n) => {
                pos = n;
            },
        }
    }
}

} // verus!

verus! {

// ---------------------------------------------------------------------------
// Requests
// ---------------------------------------------------------------------------

/// A parsed HTTP request.
#[derive(Debug, Clone)]
pub struct HttpRequest {
    /// "GET" / "POST"
    pub method: String,
    /// The path without the query string, such as "/" or "/get".
    pub path: String,
    /// Decoded query parameters: `/get?key=course` gives `[("key", "course")]`.
    pub query: Vec<(String, String)>,
    /// Decoded form fields of a POST body.
    pub body: Vec<(String, String)>,
}

pub struct RequestView {
    pub method: Seq<char>,
    pub path: Seq<char>,
    pub query: Seq<(Seq<char>, Seq<char>)>,
    pub body: Seq<(Seq<char>, Seq<char>)>,
}

impl View for HttpRequest {
    type V = RequestView;

    open spec fn view(&self) -> RequestView {
        RequestView {
            method: self.method@,
            path: self.path@,
            query: pairs_view(self.query@),
            body: pairs_view(self.body@),
        }
    }
}

/// The method and target of a request line (`GET /get?key=x HTTP/1.1`).
pub open spec fn request_head(line: Seq<char>) -> Option<(Seq<char>, Seq<char>)> {
    let l = trim_end(line);
    if l.len() == 0 {
        None
    } else {
        match crate::parser::first_word(l) {
            None => None,
            Some((method, rest)) => match crate::parser::first_word(rest) {
                None => None,
                Some((target, _)) => Some((method, target)),
            },
        }
    }
}

/// The path of a target and its query string, if it has one.
pub open spec fn target_parts(t: Seq<char>) -> (Seq<char>, Option<Seq<char>>) {
    match find_char(t, '?') {
        Some(p) => (t.take(p as int), Some(t.skip(p + 1int))),
        None => (t, None),
    }
}

/// The request made of a method, a target and a form body.
pub open spec fn request_of(method: Seq<char>, target: Seq<char>, body: Seq<char>) -> RequestView {
    RequestView {
        method,
        path: target_parts(target).0,
        query: match target_parts(target).1 {
            Some(q) => form_fields(q),
            None => Seq::empty(),
        },
        body: form_fields(body),
    }
}

/// The Content-Length after one header line, or `None` for the blank line that
/// ends the headers. Only a `Content-Length` header changes it; a value that is
/// not a number counts as 0.
pub open spec fn header_update(line: Seq<char>, current: usize) -> Option<usize> {
    let h = trim_end(line);
    if h.len() == 0 {
        None
    } else {
        match find_char(h, ':') {
            None => Some(current),
            Some(p) => if eq_ignore_ascii_case(trim(h.take(p as int)), "content-length"@) {
                match parse_unsigned(trim(h.skip(p + 1int)), usize::MAX as nat) {
                    Some(n) => Some(n as usize),
                    None => Some(0),
                }
            } else {
                Some(current)
            },
        }
    }
}

/// The method and target named by a request line.
pub fn request_target(line: &str) -> (r: Option<(String, String)>)
    ensures
        match request_head(line@) {
            Some((m, t)) => r matches Some((method, target)) && method@ == m && target@ == t,
            None => r is None,
        },
{
    let v = chars_of(line);
    assert(v@.subrange(0, v@.len() as int) == v@);
    let end = trim_end_index(&v, 0, v.len());
    if end == 0 {
        return None;
    }
    let (ms, me) = match crate::parser::take_word(&v, 0, end) {
        Some(p) => p,
        None => {
            return None;
        },
    };
    let (ts, te) = match crate::parser::take_word(&v, me, end) {
        Some(p) => p,
        None => {
            return None;
        },
    };
    Some((string_from_range(&v, ms, me), string_from_range(&v, ts, te)))
}

/// Reads one header line: `None` at the blank line that ends the headers,
/// otherwise the Content-Length so far.
pub fn header_step(line: &str, content_length: usize) -> (r: Option<usize>)
    ensures
        r == header_update(line@, content_length),
{
    let v = chars_of(line);
    assert(v@.subrange(0, v@.len() as int) == v@);
    let end = trim_end_index(&v, 0, v.len());
    if end == 0 {
        return None;
    }
    let ghost h = v@.subrange(0, end as int);
    let colon = match find_char_index(&v, 0, end, ':') {
        Some(c) => c,
        None => {
            return Some(content_length);
        },
    };
    assert(h.take(colon as int) == v@.subrange(0, colon as int));
    assert(h.skip(colon + 1) == v@.subrange(colon + 1, end as int));
    let n0 = trim_start_index(&v, 0, colon);
    let n1 = trim_end_index(&v, n0, colon);
    if !range_eq_ignore_ascii_case(&v, n0, n1, "content-length") {
        return Some(content_length);
    }
    let v0 = trim_start_index(&v, colon + 1, end);
    let v1 = trim_end_index(&v, v0, end);
    match parse_unsigned_range(&v, v0, v1, usize::MAX as u64) {
        Some(n) => Some(n as usize),
        None => Some(0),
    }
}

/// The text of a request body, read as UTF-8 with invalid sequences replaced.
pub fn body_text(bytes: &[u8]) -> (r: String)
    ensures
        r@ == lossy_utf8(bytes@),
{
    lossy_string(bytes)
}

/// The request with `method`, `target` (path and optional `?query`) and form `body`.
pub fn parse_request(method: &str, target: &str, body: &str) -> (r: HttpRequest)
    ensures
        r@ == request_of(method@, target@, body@),
{
    let t = chars_of(target);
    assert(t@.subrange(0, t@.len() as int) == t@);
    let (path, query) = match find_char_index(&t, 0, t.len(), '?') {
        Some(q) => {
            assert(t@.take(q as int) == t@.subrange(0, q as int));
            assert(t@.skip(q + 1) == t@.subrange(q + 1, t.len() as int));
            let qs = string_from_range(&t, q + 1, t.len());
            (string_from_range(&t, 0, q), parse_form(qs.as_str()))
        },
        None => {
            let empty: Vec<(String, String)> = Vec::new();
            assert(pairs_view(empty@) =~= Seq::<(Seq<char>, Seq<char>)>::empty());
            (String::from_str(target), empty)
        },
    };
    HttpRequest { method: String::from_str(method), path, query, body: parse_form(body) }
}

// ---------------------------------------------------------------------------
// Responses
// ---------------------------------------------------------------------------

/// How one character is written in HTML text.
pub open spec fn escape_char(c: char) -> Seq<char> {
    if c == '&' {
        "&amp;"@
    } else if c == '<' {
        "&lt;"@
    } else if c == '>' {
        "&gt;"@
    } else if c == '"' {
        "&quot;"@
    } else if c == '\'' {
        "&#39;"@
    } else {
        seq![c]
    }
}

/// `s` with `& < > " '` replaced by entities.
pub open spec fn html_escaped(s: Seq<char>) -> Seq<char>
    decreases s.len(),
{
    if s.len() == 0 {
        Seq::empty()
    } else {
        html_escaped(s.drop_last()) + escape_char(s.last())
    }
}

/// Escapes text for HTML, so that user data cannot inject markup.
pub fn html_escape(s: &str) -> (r: String)
    ensures
        r@ == html_escaped(s@),
{
    let v = chars_of(s);
    let mut out = String::new();
    let mut i: usize = 0;
    while i < v.len()
        invariant
            v@ == s@,
            i <= v.len(),
            out@ == html_escaped(v@.take(i as int)),
        decreases v.len() - i,
    {
        let c = v[i];
        if c == '&' {
            push_str(&mut out, "&amp;");
        } else if c == '<' {
            push_str(&mut out, "&lt;");
        } else if c == '>' {
            push_str(&mut out, "&gt;");
        } else if c == '"' {
            push_str(&mut out, "&quot;");
        } else if c == '\'' {
            push_str(&mut out, "&#39;");
        } else {
            push_char(&mut out, c);
        }
        assert(v@.take(i + 1).drop_last() == v@.take(i as int));
        i = i + 1;
    }
    assert(v@.take(v.len() as int) == v@);
    out
}

/// The reason phrase sent with a status code.
pub open spec fn reason_phrase(status: u16) -> Seq<char> {
    if status == 200 {
        "OK"@
    } else if status == 400 {
        "Bad Request"@
    } else if status == 404 {
        "Not Found"@
    } else if status == 501 {
        "Not Implemented"@
    } else {
        "Internal Server Error"@
    }
}

/// A complete response: status line, headers (the length counts UTF-8 bytes) and body.
pub open spec fn response_text(status: u16, content_type: Seq<char>, body: Seq<char>) -> Seq<char> {
    "HTTP/1.1 "@ + decimal(status as nat) + " "@ + reason_phrase(status) + "\r\nContent-Type: "@
        + content_type + "\r\nContent-Length: "@ + decimal(encode_utf8(body).len())
        + "\r\nCache-Control: no-store\r\nConnection: close\r\n\r\n"@ + body
}

/// Frames a response.
pub fn http_response(status: u16, content_type: &str, body: &str) -> (r: String)
    ensures
        r@ == response_text(status, content_type@, body@),
{
    let reason = if status == 200 {
        "OK"
    } else if status == 400 {
        "Bad Request"
    } else if status == 404 {
        "Not Found"
    } else if status == 501 {
        "Not Implemented"
    } else {
        "Internal Server Error"
    };
    let len = body.as_bytes().len();
    let mut s = String::from_str("HTTP/1.1 ");
    push_decimal(&mut s, status as u64);
    push_str(&mut s, " ");
    push_str(&mut s, reason);
    push_str(&mut s, "\r\nContent-Type: ");
    push_str(&mut s, content_type);
    push_str(&mut s, "\r\nContent-Length: ");
    push_decimal(&mut s, len as u64);
    push_str(&mut s, "\r\nCache-Control: no-store\r\nConnection: close\r\n\r\n");
    push_str(&mut s, body);
    s
}

} // verus!

verus! {

/// A character that would start or end markup, or a quoted attribute.
pub open spec fn is_markup(c: char) -> bool {
    c == '<' || c == '>' || c == '"' || c == '\''
}

/// Escaped text holds no character that could open markup or end a quoted
/// attribute.
pub proof fn law_escaped_text_has_no_markup(s: Seq<char>)
    ensures
        forall|i: int| 0 <= i < html_escaped(s).len() ==> !is_markup(#[trigger] html_escaped(s)[i]),
    decreases s.len(),
{
    reveal_strlit("&amp;");
    reveal_strlit("&lt;");
    reveal_strlit("&gt;");
    reveal_strlit("&quot;");
    reveal_strlit("&#39;");
    if s.len() > 0 {
        law_escaped_text_has_no_markup(s.drop_last());
        let a = html_escaped(s.drop_last());
        let b = escape_char(s.last());
        assert forall|i: int| 0 <= i < html_escaped(s).len() implies !is_markup(
            #[trigger] html_escaped(s)[i],
        ) by {
            if i < a.len() {
                assert(html_escaped(s)[i] == a[i]);
            } else {
                assert(html_escaped(s)[i] == b[i - a.len()]);
            }
        }
    }
}

/// Text without `& < > " '` is written as it is.
pub proof fn law_plain_text_is_not_escaped(s: Seq<char>)
    requires
        forall|i: int| 0 <= i < s.len() ==> !is_markup(#[trigger] s[i]) && s[i] != '&',
    ensures
        html_escaped(s) == s,
    decreases s.len(),
{
    if s.len() > 0 {
        law_plain_text_is_not_escaped(s.drop_last());
        assert(s.drop_last() + seq![s.last()] == s);
    }
}

/// No byte of `b` is `%` or `+`.
pub open spec fn plain_bytes(b: Seq<u8>) -> bool {
    forall|i: int| 0 <= i < b.len() ==> #[trigger] b[i] != 37 && b[i] != 43
}

proof fn lemma_plain_bytes_decode(b: Seq<u8>)
    requires
        plain_bytes(b),
    ensures
        decode_bytes(b) == b,
    decreases b.len(),
{
    if b.len() > 0 {
        assert(b[0] != 37 && b[0] != 43);
        assert(plain_bytes(b.drop_first())) by {
            assert forall|i: int| 0 <= i < b.drop_first().len() implies #[trigger] b.drop_first()[i]
                != 37 && b.drop_first()[i] != 43 by {
                assert(b.drop_first()[i] == b[i + 1]);
            }
        }
        lemma_plain_bytes_decode(b.drop_first());
        assert(seq![b[0]] + b.drop_first() == b);
    }
}

proof fn lemma_scalar_plain(c: char)
    requires
        c != '%',
        c != '+',
    ensures
        plain_bytes(vstd::utf8::encode_scalar(c as u32)),
{
    let u = c as u32;
    vstd::utf8::char_is_scalar(c);
    if vstd::utf8::has_width_1_encoding(u) {
        assert((u & 0x7F) as u8 == u) by (bit_vector)
            requires
                u <= 0x7F,
        ;
    } else {
        assert(0x80 | (u & 0x3F) as u8 >= 0x80) by (bit_vector);
        assert(0x80 | ((u >> 6) & 0x3F) as u8 >= 0x80) by (bit_vector);
        assert(0x80 | ((u >> 12) & 0x3F) as u8 >= 0x80) by (bit_vector);
        assert(0xC0 | ((u >> 6) & 0x1F) as u8 >= 0x80) by (bit_vector);
        assert(0xE0 | ((u >> 12) & 0x0F) as u8 >= 0x80) by (bit_vector);
        assert(0xF0 | ((u >> 18) & 0x7) as u8 >= 0x80) by (bit_vector);
    }
}

proof fn lemma_encode_plain(x: Seq<char>)
    requires
        !x.contains('%'),
        !x.contains('+'),
    ensures
        plain_bytes(encode_utf8(x)),
    decreases x.len(),
{
    if x.len() > 0 {
        let rest = x.drop_first();
        assert(!rest.contains('%')) by {
            if rest.contains('%') {
                let i = choose|i: int| 0 <= i < rest.len() && rest[i] == '%';
                assert(x[i + 1] == '%');
            }
        }
        assert(!rest.contains('+')) by {
            if rest.contains('+') {
                let i = choose|i: int| 0 <= i < rest.len() && rest[i] == '+';
                assert(x[i + 1] == '+');
            }
        }
        lemma_encode_plain(rest);
        assert(x[0] != '%' && x[0] != '+') by {
            assert(x.contains(x[0]));
        }
        lemma_scalar_plain(x[0]);
        let a = vstd::utf8::encode_scalar(x[0] as u32);
        let b = encode_utf8(rest);
        assert forall|i: int| 0 <= i < (a + b).len() implies #[trigger] (a + b)[i] != 37 && (a
            + b)[i] != 43 by {
            if i < a.len() {
                assert((a + b)[i] == a[i]);
            } else {
                assert((a + b)[i] == b[i - a.len()]);
            }
        }
    }
}

/// Decoding gives text without `%` and `+` back unchanged.
pub proof fn law_plain_text_decodes_to_itself(x: Seq<char>)
    requires
        !x.contains('%'),
        !x.contains('+'),
    ensures
        decode_bytes(encode_utf8(x)) == encode_utf8(x),
        valid_utf8(decode_bytes(encode_utf8(x))),
        decode_utf8(decode_bytes(encode_utf8(x))) == x,
{
    lemma_encode_plain(x);
    lemma_plain_bytes_decode(encode_utf8(x));
    vstd::utf8::encode_utf8_valid_utf8(x);
    vstd::utf8::encode_utf8_decode_utf8(x);
}

/// `t` begins with `p`.
pub open spec fn has_prefix(t: Seq<char>, p: Seq<char>) -> bool {
    t.len() >= p.len() && t.take(p.len() as int) == p
}

/// Reading escaped HTML text back: each entity `&amp;` `&lt;` `&gt;` `&quot;`
/// `&#39;` becomes its character, read from left to right.
pub open spec fn html_unescaped(t: Seq<char>) -> Seq<char>
    decreases t.len(),
{
    if t.len() == 0 {
        Seq::empty()
    } else if has_prefix(t, "&amp;"@) && "&amp;"@.len() > 0 {
        seq!['&'] + html_unescaped(t.skip("&amp;"@.len() as int))
    } else if has_prefix(t, "&lt;"@) && "&lt;"@.len() > 0 {
        seq!['<'] + html_unescaped(t.skip("&lt;"@.len() as int))
    } else if has_prefix(t, "&gt;"@) && "&gt;"@.len() > 0 {
        seq!['>'] + html_unescaped(t.skip("&gt;"@.len() as int))
    } else if has_prefix(t, "&quot;"@) && "&quot;"@.len() > 0 {
        seq!['"'] + html_unescaped(t.skip("&quot;"@.len() as int))
    } else if has_prefix(t, "&#39;"@) && "&#39;"@.len() > 0 {
        seq!['\''] + html_unescaped(t.skip("&#39;"@.len() as int))
    } else {
        seq![t[0]] + html_unescaped(t.drop_first())
    }
}

proof fn lemma_escaped_concat(a: Seq<char>, b: Seq<char>)
    ensures
        html_escaped(a + b) == html_escaped(a) + html_escaped(b),
    decreases b.len(),
{
    if b.len() == 0 {
        assert(a + b == a);
        assert(html_escaped(a) + Seq::<char>::empty() == html_escaped(a));
    } else {
        lemma_escaped_concat(a, b.drop_last());
        assert((a + b).drop_last() == a + b.drop_last());
        assert((a + b).last() == b.last());
        assert(html_escaped(a) + html_escaped(b.drop_last()) + escape_char(b.last())
            == html_escaped(a) + (html_escaped(b.drop_last()) + escape_char(b.last())));
    }
}

proof fn lemma_unescape_step(c: char, t: Seq<char>)
    ensures
        html_unescaped(escape_char(c) + t) == seq![c] + html_unescaped(t),
{
    reveal_strlit("&amp;");
    reveal_strlit("&lt;");
    reveal_strlit("&gt;");
    reveal_strlit("&quot;");
    reveal_strlit("&#39;");
    let e = escape_char(c);
    let x = e + t;
    assert(x.take(e.len() as int) == e);
    assert(x.skip(e.len() as int) == t);
    assert(x[0] == e[0]);
    if e.len() > 1 {
        assert(x[1] == e[1]);
    }
    if c != '&' && c != '<' && c != '>' && c != '"' && c != '\'' {
        assert(x.drop_first() == t);
        assert(x[0] != '&');
        assert(!has_prefix(x, "&amp;"@)) by {
            if has_prefix(x, "&amp;"@) {
                assert(x.take(5)[0] == x[0]);
            }
        }
        assert(!has_prefix(x, "&lt;"@)) by {
            if has_prefix(x, "&lt;"@) {
                assert(x.take(4)[0] == x[0]);
            }
        }
        assert(!has_prefix(x, "&gt;"@)) by {
            if has_prefix(x, "&gt;"@) {
                assert(x.take(4)[0] == x[0]);
            }
        }
        assert(!has_prefix(x, "&quot;"@)) by {
            if has_prefix(x, "&quot;"@) {
                assert(x.take(6)[0] == x[0]);
            }
        }
        assert(!has_prefix(x, "&#39;"@)) by {
            if has_prefix(x, "&#39;"@) {
                assert(x.take(5)[0] == x[0]);
            }
        }
    } else {
        assert(!has_prefix(x, "&amp;"@) || c == '&') by {
            if has_prefix(x, "&amp;"@) {
                assert(x.take(5)[1] == x[1]);
            }
        }
        assert(!has_prefix(x, "&lt;"@) || c == '<' || c == '&') by {
            if has_prefix(x, "&lt;"@) {
                assert(x.take(4)[1] == x[1]);
            }
        }
        assert(!has_prefix(x, "&gt;"@) || c == '>' || c == '&' || c == '<') by {
            if has_prefix(x, "&gt;"@) {
                assert(x.take(4)[1] == x[1]);
            }
        }
        assert(!has_prefix(x, "&quot;"@) || c == '"' || c == '&' || c == '<' || c == '>') by {
            if has_prefix(x, "&quot;"@) {
                assert(x.take(6)[1] == x[1]);
            }
        }
    }
}

/// Escaping loses nothing: reading the escaped text back gives the text.
pub proof fn law_html_escape_round_trip(s: Seq<char>)
    ensures
        html_unescaped(html_escaped(s)) == s,
    decreases s.len(),
{
    if s.len() > 0 {
        let rest = s.drop_first();
        law_html_escape_round_trip(rest);
        assert(seq![s[0]] + rest == s);
        lemma_escaped_concat(seq![s[0]], rest);
        assert(html_escaped(seq![s[0]]) == escape_char(s[0])) by {
            let one = seq![s[0]];
            assert(one.drop_last() == Seq::<char>::empty());
            assert(one.last() == s[0]);
            assert(html_escaped(Seq::<char>::empty()) == Seq::<char>::empty());
            assert(html_escaped(one) == html_escaped(one.drop_last()) + escape_char(one.last()));
            assert(Seq::<char>::empty() + escape_char(s[0]) == escape_char(s[0]));
        }
        lemma_unescape_step(s[0], html_escaped(rest));
    }
}

/// `t` with every occurrence of `p` replaced by `r`, scanning from the left
/// (`str::replace`).
pub open spec fn replace_all(t: Seq<char>, p: Seq<char>, r: Seq<char>) -> Seq<char>
    decreases t.len(),
{
    if t.len() == 0 {
        Seq::empty()
    } else if p.len() > 0 && has_prefix(t, p) {
        r + replace_all(t.skip(p.len() as int), p, r)
    } else {
        seq![t[0]] + replace_all(t.drop_first(), p, r)
    }
}

/// Reading escaped HTML text back by replacing, in turn, `&lt;`, `&gt;`,
/// `&quot;` and `&#39;` by their characters, and last `&amp;` by `&`.
pub open spec fn html_unescaped_by_replacing(t: Seq<char>) -> Seq<char> {
    replace_all(
        replace_all(
            replace_all(
                replace_all(replace_all(t, "&lt;"@, seq!['<']), "&gt;"@, seq!['>']),
                "&quot;"@,
                seq!['"'],
            ),
            "&#39;"@,
            seq!['\''],
        ),
        "&amp;"@,
        seq!['&'],
    )
}

/// The character the `k`-th replacement (from 1) brings back.
spec fn stage_char(k: int) -> char {
    if k == 1 {
        '<'
    } else if k == 2 {
        '>'
    } else if k == 3 {
        '"'
    } else if k == 4 {
        '\''
    } else {
        '&'
    }
}

/// Whether `c` has been brought back after the first `k` replacements.
spec fn restored_by(c: char, k: int) -> bool {
    ||| (k >= 1 && c == '<')
    ||| (k >= 2 && c == '>')
    ||| (k >= 3 && c == '"')
    ||| (k >= 4 && c == '\'')
    ||| (k >= 5 && c == '&')
}

/// How `c` stands after the first `k` replacements.
spec fn stage_token(c: char, k: int) -> Seq<char> {
    if restored_by(c, k) {
        seq![c]
    } else {
        escape_char(c)
    }
}

/// Escaped text after the first `k` replacements.
spec fn stage_text(s: Seq<char>, k: int) -> Seq<char>
    decreases s.len(),
{
    if s.len() == 0 {
        Seq::empty()
    } else {
        stage_token(s[0], k) + stage_text(s.drop_first(), k)
    }
}

proof fn lemma_replace_plain(u: Seq<char>, t: Seq<char>, p: Seq<char>, r: Seq<char>)
    requires
        p.len() > 0,
        p[0] == '&',
        forall|i: int| 0 <= i < u.len() ==> #[trigger] u[i] != '&',
    ensures
        replace_all(u + t, p, r) == u + replace_all(t, p, r),
    decreases u.len(),
{
    if u.len() == 0 {
        assert(u + t == t);
        assert(u + replace_all(t, p, r) == replace_all(t, p, r));
    } else {
        let x = u + t;
        assert(x[0] == u[0]);
        if has_prefix(x, p) {
            assert(x.take(p.len() as int)[0] == x[0]);
        }
        assert(x.drop_first() == u.drop_first() + t);
        lemma_replace_plain(u.drop_first(), t, p, r);
        assert(seq![u[0]] + (u.drop_first() + replace_all(t, p, r)) == u + replace_all(t, p, r));
    }
}

proof fn lemma_replace_token(tok: Seq<char>, t: Seq<char>, p: Seq<char>, r: Seq<char>)
    requires
        p.len() >= 2,
        p[0] == '&',
        tok.len() >= 1,
        forall|i: int| 1 <= i < tok.len() ==> #[trigger] tok[i] != '&',
        tok == p || tok[0] != '&' || (tok.len() >= 2 && tok[1] != p[1]),
    ensures
        replace_all(tok + t, p, r) == (if tok == p {
            r
        } else {
            tok
        }) + replace_all(t, p, r),
{
    let x = tok + t;
    if tok == p {
        assert(x.take(p.len() as int) == p);
        assert(x.skip(p.len() as int) == t);
    } else {
        if has_prefix(x, p) {
            assert(x.take(p.len() as int)[0] == x[0]);
            assert(x.take(p.len() as int)[1] == x[1]);
            assert(x[0] == tok[0]);
            if tok.len() >= 2 {
                assert(x[1] == tok[1]);
            }
        }
        assert(x[0] == tok[0]);
        let tail = tok.drop_first();
        assert forall|i: int| 0 <= i < tail.len() implies #[trigger] tail[i] != '&' by {
            assert(tail[i] == tok[i + 1]);
        }
        assert(x.drop_first() == tail + t);
        lemma_replace_plain(tail, t, p, r);
        assert(seq![tok[0]] + (tail + replace_all(t, p, r)) == tok + replace_all(t, p, r));
    }
}

proof fn lemma_stage_step(s: Seq<char>, k: int)
    requires
        0 <= k < 5,
    ensures
        replace_all(stage_text(s, k), escape_char(stage_char(k + 1)), seq![stage_char(k + 1)])
            == stage_text(s, k + 1),
    decreases s.len(),
{
    reveal_strlit("&amp;");
    reveal_strlit("&lt;");
    reveal_strlit("&gt;");
    reveal_strlit("&quot;");
    reveal_strlit("&#39;");
    if s.len() > 0 {
        let c = s[0];
        let p = escape_char(stage_char(k + 1));
        let tok = stage_token(c, k);
        lemma_stage_step(s.drop_first(), k);
        assert(p.len() >= 2 && p[0] == '&');
        assert(tok.len() >= 1);
        assert forall|i: int| 1 <= i < tok.len() implies #[trigger] tok[i] != '&' by {
        }
        assert(tok == p || tok[0] != '&' || (tok.len() >= 2 && tok[1] != p[1]));
        lemma_replace_token(tok, stage_text(s.drop_first(), k), p, seq![stage_char(k + 1)]);
        if restored_by(c, k) {
            assert(restored_by(c, k + 1));
            assert(tok.len() != p.len());
        } else if c == stage_char(k + 1) {
            assert(restored_by(c, k + 1));
            assert(tok == p);
        } else {
            assert(!restored_by(c, k + 1));
            assert(tok.len() != p.len() || tok[1] != p[1]);
            assert(tok != p);
        }
        assert((if tok == p {
            seq![stage_char(k + 1)]
        } else {
            tok
        }) == stage_token(c, k + 1));
    }
}

proof fn lemma_stage_start(s: Seq<char>)
    ensures
        stage_text(s, 0) == html_escaped(s),
    decreases s.len(),
{
    if s.len() > 0 {
        let rest = s.drop_first();
        lemma_stage_start(rest);
        assert(seq![s[0]] + rest == s);
        lemma_escaped_concat(seq![s[0]], rest);
        let one = seq![s[0]];
        assert(one.drop_last() == Seq::<char>::empty());
        assert(one.last() == s[0]);
        assert(html_escaped(Seq::<char>::empty()) == Seq::<char>::empty());
        assert(html_escaped(one) == html_escaped(one.drop_last()) + escape_char(one.last()));
        assert(Seq::<char>::empty() + escape_char(s[0]) == escape_char(s[0]));
    }
}

proof fn lemma_stage_end(s: Seq<char>)
    ensures
        stage_text(s, 5) == s,
    decreases s.len(),
{
    if s.len() > 0 {
        lemma_stage_end(s.drop_first());
        assert(stage_token(s[0], 5) == seq![s[0]]);
        assert(seq![s[0]] + s.drop_first() == s);
    }
}

/// Escaping loses nothing, read back by replacement too: replacing `&lt;`,
/// `&gt;`, `&quot;`, `&#39;` and then `&amp;` in the escaped text gives the
/// text back.
pub proof fn law_html_escape_undone_by_replacing(s: Seq<char>)
    ensures
        html_unescaped_by_replacing(html_escaped(s)) == s,
{
    lemma_stage_start(s);
    lemma_stage_step(s, 0);
    lemma_stage_step(s, 1);
    lemma_stage_step(s, 2);
    lemma_stage_step(s, 3);
    lemma_stage_step(s, 4);
    lemma_stage_end(s);
    assert(escape_char(stage_char(1)) == "&lt;"@);
    assert(escape_char(stage_char(2)) == "&gt;"@);
    assert(escape_char(stage_char(3)) == "&quot;"@);
    assert(escape_char(stage_char(4)) == "&#39;"@);
    assert(escape_char(stage_char(5)) == "&amp;"@);
}

} // verus!

verus! {

/// The ASCII code of hexadecimal digit `d` (0 to 15), in lower case.
pub open spec fn lower_hex(d: u8) -> u8 {
    if d < 10 {
        (48 + d) as u8
    } else {
        (87 + d) as u8
    }
}

/// The ASCII code of hexadecimal digit `d` (0 to 15), in upper case.
pub open spec fn upper_hex(d: u8) -> u8 {
    if d < 10 {
        (48 + d) as u8
    } else {
        (55 + d) as u8
    }
}

/// `%XX` decodes to the byte `XX`, whatever the case of each hex digit, and
/// decoding goes on with what follows.
pub proof fn law_percent_escape_decodes_any_case(x: u8, lower_first: bool, lower_second: bool, rest: Seq<u8>)
    ensures
        decode_bytes(
            seq![
                37u8,
                if lower_first { lower_hex(x / 16) } else { upper_hex(x / 16) },
                if lower_second { lower_hex(x % 16) } else { upper_hex(x % 16) },
            ] + rest,
        ) == seq![x] + decode_bytes(rest),
{
    let h = if lower_first { lower_hex(x / 16) } else { upper_hex(x / 16) };
    let l = if lower_second { lower_hex(x % 16) } else { upper_hex(x % 16) };
    let b = seq![37u8, h, l] + rest;
    assert(b[0] == 37u8 && b[1] == h && b[2] == l);
    assert(hex_digit(h) == Some((x / 16) as nat));
    assert(hex_digit(l) == Some((x % 16) as nat));
    assert((x / 16) * 16 + x % 16 == x);
    assert(hex_pair(h, l) == Some(x));
    assert(b.skip(3) == rest);
}

} // verus!
