//! HTTP/1.1 requests: direct construction, a parser over the raw bytes of a
//! message, and a text rendering for diagnostics.

use vstd::prelude::*;
use vstd::slice::slice_to_vec;
use vstd::string::*;
use vstd::utf8::*;

use crate::decimal::{decimal_value, parse_decimal};
use crate::headers::{header_lines, lookup, table_set, HeaderTable};
use crate::text::{
    after_word, decode_text, find_char, find_char_from, skip_spaces_from, trim, trim_str,
    utf8_text, word_at, word_end_from,
};

verus! {

/// Why a byte sequence is not a request.
#[derive(Debug, Clone, Copy, PartialEq, Eq, Structural)]
pub enum ParseError {
    /// The first line is not text, or lacks a method, a target or a version.
    InvalidStartLine,
    /// Fewer bytes follow the headers than `Content-Length` declares.
    BodyReadError,
}

/// What a request holds, as mathematical values.
pub struct RequestModel {
    pub method: Seq<char>,
    pub target: Seq<char>,
    pub version: Seq<char>,
    pub headers: Seq<(Seq<char>, Seq<char>)>,
    pub body: Seq<u8>,
}

/// The index just past the line that starts at `i`: past its `\n`, or the
/// end of `s` when no `\n` follows.
pub open spec fn line_end(s: Seq<u8>, i: int) -> int
    decreases s.len() - i,
{
    if i < 0 || i >= s.len() {
        i
    } else if s[i] == 10 {
        i + 1
    } else {
        line_end(s, i + 1)
    }
}

/// A line ends after it starts and no later than the input.
pub proof fn lemma_line_end_bounds(s: Seq<u8>, i: int)
    requires
        0 <= i <= s.len(),
    ensures
        i <= line_end(s, i) <= s.len(),
        i < s.len() ==> i < line_end(s, i),
    decreases s.len() - i,
{
    if i < s.len() && s[i] != 10 {
        lemma_line_end_bounds(s, i + 1);
    }
}

/// The bytes of the line that starts at `i`, terminator included.
pub open spec fn line_bytes(s: Seq<u8>, i: int) -> Seq<u8> {
    s.subrange(i, line_end(s, i))
}

/// The line at `i` carries content: it is longer than a bare CRLF and is text.
/// Any other line (a blank one, the end of input, or one that is not UTF-8)
/// ends the run of lines it stands in.
pub open spec fn is_content_line(s: Seq<u8>, i: int) -> bool {
    line_end(s, i) - i > 2 && valid_utf8(line_bytes(s, i))
}

/// `w` without a leading `HTTP/`, if it has one.
pub open spec fn strip_http(w: Seq<char>) -> Seq<char> {
    if w.len() >= 5 && w.subrange(0, 5) == seq!['H', 'T', 'T', 'P', '/'] {
        w.subrange(5, w.len() as int)
    } else {
        w
    }
}

/// Method, target and version of the first line of `s`, when it is text
/// whose first three words are present (the version once `HTTP/` is
/// stripped from the third one and still not empty).
pub open spec fn start_line(s: Seq<u8>) -> Option<(Seq<char>, Seq<char>, Seq<char>)> {
    match utf8_text(line_bytes(s, 0)) {
        None => None,
        Some(cs) => {
            let e1 = after_word(cs, 0);
            let e2 = after_word(cs, e1);
            let method = word_at(cs, 0);
            let target = word_at(cs, e1);
            let version = strip_http(word_at(cs, e2));
            if method.len() == 0 || target.len() == 0 || version.len() == 0 {
                None
            } else {
                Some((method, target, version))
            }
        },
    }
}

/// Name and value of a header line: split at the first `:`, both parts
/// trimmed; a line without `:` is all name and has an empty value.
pub open spec fn split_header(cs: Seq<char>) -> (Seq<char>, Seq<char>) {
    let c = find_char(cs, ':', 0);
    if c < cs.len() {
        (trim(cs.subrange(0, c)), trim(cs.subrange(c + 1, cs.len() as int)))
    } else {
        (trim(cs), Seq::empty())
    }
}

/// `es` once every header line of the run that starts at `i` has been set.
pub open spec fn parsed_headers(s: Seq<u8>, i: int, es: Seq<(Seq<char>, Seq<char>)>) -> Seq<
    (Seq<char>, Seq<char>),
>
    decreases s.len() - i via parsed_headers_decreases
{
    if 0 <= i < s.len() && is_content_line(s, i) {
        let f = split_header(decode_utf8(line_bytes(s, i)));
        parsed_headers(s, line_end(s, i), table_set(es, f.0, f.1))
    } else {
        es
    }
}

#[via_fn]
proof fn parsed_headers_decreases(s: Seq<u8>, i: int, es: Seq<(Seq<char>, Seq<char>)>) {
    if 0 <= i < s.len() {
        lemma_line_end_bounds(s, i);
    }
}

/// Where the body starts: past the run of header lines that starts at `i`
/// and past the line that ended it.
pub open spec fn headers_end(s: Seq<u8>, i: int) -> int
    decreases s.len() - i via headers_end_decreases
{
    if 0 <= i < s.len() && is_content_line(s, i) {
        headers_end(s, line_end(s, i))
    } else {
        line_end(s, i)
    }
}

#[via_fn]
proof fn headers_end_decreases(s: Seq<u8>, i: int) {
    if 0 <= i < s.len() {
        lemma_line_end_bounds(s, i);
    }
}

/// The run of content lines that starts at `i`, concatenated.
pub open spec fn line_body(s: Seq<u8>, i: int) -> Seq<u8>
    decreases s.len() - i via line_body_decreases
{
    if 0 <= i < s.len() && is_content_line(s, i) {
        line_bytes(s, i) + line_body(s, line_end(s, i))
    } else {
        Seq::empty()
    }
}

#[via_fn]
proof fn line_body_decreases(s: Seq<u8>, i: int) {
    if 0 <= i < s.len() {
        lemma_line_end_bounds(s, i);
    }
}

/// The body length that the headers declare, when `Content-Length` is set
/// to a number.
pub open spec fn content_length(es: Seq<(Seq<char>, Seq<char>)>) -> Option<nat> {
    match lookup(es, "Content-Length"@) {
        Some(v) => decimal_value(v),
        None => None,
    }
}

/// The request that the bytes `s` hold, or why they hold none.
pub open spec fn parse_model(s: Seq<u8>) -> Result<RequestModel, ParseError> {
    match start_line(s) {
        None => Err(ParseError::InvalidStartLine),
        Some((method, target, version)) => {
            let e0 = line_end(s, 0);
            let es = parsed_headers(s, e0, Seq::empty());
            let q = headers_end(s, e0);
            match content_length(es) {
                Some(n) => if q + n <= s.len() {
                    Ok(
                        RequestModel {
                            method,
                            target,
                            version,
                            headers: es,
                            body: s.subrange(q, q + n),
                        },
                    )
                } else {
                    Err(ParseError::BodyReadError)
                },
                None => Ok(
                    RequestModel { method, target, version, headers: es, body: line_body(s, q) },
                ),
            }
        },
    }
}

/// The body as diagnostic text: its UTF-8 text, or a placeholder when it is
/// not text, followed by CRLF; nothing for an empty body.
pub open spec fn body_text(b: Seq<u8>) -> Seq<char> {
    let t = match utf8_text(b) {
        Some(t) => t,
        None => "[Body is not string]"@,
    };
    if t.len() == 0 {
        Seq::empty()
    } else {
        t + "\r\n"@
    }
}

/// The diagnostic text of a request: start line, header lines, a blank line,
/// the body text and a final CRLF.
pub open spec fn request_text(m: RequestModel) -> Seq<char> {
    m.method + " "@ + m.target + " HTTP/"@ + m.version + "\r\n"@ + header_lines(m.headers)
        + "\r\n"@ + body_text(m.body) + "\r\n"@
}

/// An HTTP/1.1 request.
pub struct Request {
    pub method: String,
    pub target: String,
    pub version: String,
    pub headers: HeaderTable,
    pub body: Vec<u8>,
}

impl Request {
    /// The request's headers, in table order.
    pub open spec fn header_entries(&self) -> Seq<(Seq<char>, Seq<char>)> {
        self.headers@
    }

    pub open spec fn model(&self) -> RequestModel {
        RequestModel {
            method: self.method@,
            target: self.target@,
            version: self.version@,
            headers: self.headers@,
            body: self.body@,
        }
    }

    /// A request with no headers and an empty body.
    pub fn new(method: &str, target: &str, version: &str) -> (r: Request)
        ensures
            r.method@ == method@,
            r.target@ == target@,
            r.version@ == version@,
            r.header_entries() == Seq::<(Seq<char>, Seq<char>)>::empty(),
            r.body@ == Seq::<u8>::empty(),
    {
        Request {
            method: method.to_owned(),
            target: target.to_owned(),
            version: version.to_owned(),
            headers: HeaderTable::new(),
            body: Vec::new(),
        }
    }

    /// The value of header `name` (exact, case-sensitive match).
    pub fn get_header(&self, name: &str) -> (r: Option<&String>)
        ensures
            match r {
                Some(v) => lookup(self.header_entries(), name@) == Some(v@),
                None => lookup(self.header_entries(), name@) is None,
            },
    {
        self.headers.get(name)
    }

    /// Sets header `name` to `value`, overwriting an earlier value.
    pub fn set_header(&mut self, name: &str, value: &str) -> (r: &Request)
        ensures
            final(self).header_entries() == table_set(old(self).header_entries(), name@, value@),
            final(self).method == old(self).method,
            final(self).target == old(self).target,
            final(self).version == old(self).version,
            final(self).body == old(self).body,
            *r == *final(self),
    {
        self.headers.set(name.to_owned(), value.to_owned());
        self
    }

    /// The request as diagnostic text (see `request_text`).
    pub fn to_string(&self) -> (r: String)
        ensures
            r@ == request_text(self.model()),
    {
        let mut out = String::new();
        out.append(self.method.as_str());
        out.append(" ");
        out.append(self.target.as_str());
        out.append(" HTTP/");
        out.append(self.version.as_str());
        out.append("\r\n");
        self.headers.append_lines(&mut out);
        out.append("\r\n");
        let body = match decode_text(slice_to_vec(self.body.as_slice())) {
            Some(t) => t,
            None => "[Body is not string]".to_owned(),
        };
        if !body.as_str().is_empty() {
            out.append(body.as_str());
            out.append("\r\n");
        }
        out.append("\r\n");
        assert(out@ =~= request_text(self.model()));
        out
    }

    /// Parses the bytes of a whole message into a request.
    pub fn parse(source: &[u8]) -> (r: Result<Request, ParseError>)
        ensures
            match r {
                Ok(req) => parse_model(source@) == Ok::<RequestModel, ParseError>(req.model()),
                Err(e) => parse_model(source@) == Err::<RequestModel, ParseError>(e),
            },
    {
        let (mut req, pos) = match read_start_line(source) {
            Ok(found) => found,
            Err(e) => return Err(e),
        };
        let body_start = read_headers(source, pos, &mut req);
        read_body(source, body_start, req)
    }
}

/// The line `cs` holds at least three whitespace-separated words.
pub open spec fn has_three_words(cs: Seq<char>) -> bool {
    word_at(cs, after_word(cs, after_word(cs, 0))).len() > 0
}

/// An empty input, or one whose first line is text with fewer than three
/// words, is refused as an invalid start line.
pub proof fn lemma_short_start_line(s: Seq<u8>)
    requires
        s.len() == 0 || (utf8_text(line_bytes(s, 0)) matches Some(cs) && !has_three_words(cs)),
    ensures
        parse_model(s) == Err::<RequestModel, ParseError>(ParseError::InvalidStartLine),
{
    if s.len() == 0 {
        assert(line_bytes(s, 0) =~= Seq::<u8>::empty());
        let cs = decode_utf8(Seq::<u8>::empty());
        assert(cs =~= Seq::<char>::empty());
        assert(word_at(cs, 0) =~= Seq::<char>::empty());
    }
}

/// The end of the line that starts at `i`.
fn line_end_from(s: &[u8], i: usize) -> (r: usize)
    requires
        i <= s@.len(),
    ensures
        r == line_end(s@, i as int),
        i <= r <= s@.len(),
{
    let mut j = i;
    loop
        invariant
            i <= j <= s@.len(),
            line_end(s@, j as int) == line_end(s@, i as int),
        decreases s@.len() - j,
    {
        if j == s.len() {
            return j;
        }
        if s[j] == 10 {
            return j + 1;
        }
        j = j + 1;
    }
}

/// The bytes `s[i..e]` as text, if they are UTF-8.
fn line_text(s: &[u8], i: usize, e: usize) -> (r: Option<String>)
    requires
        i <= e <= s@.len(),
    ensures
        match r {
            Some(t) => utf8_text(s@.subrange(i as int, e as int)) == Some(t@),
            None => utf8_text(s@.subrange(i as int, e as int)) is None,
        },
{
    decode_text(slice_to_vec(&s[i..e]))
}

/// Reads the start line and makes the request it names; also gives where the
/// next line starts.
fn read_start_line(s: &[u8]) -> (r: Result<(Request, usize), ParseError>)
    ensures
        match r {
            Ok((req, e)) => {
                &&& start_line(s@) == Some((req.method@, req.target@, req.version@))
                &&& req.header_entries() == Seq::<(Seq<char>, Seq<char>)>::empty()
                &&& req.body@ == Seq::<u8>::empty()
                &&& e == line_end(s@, 0)
                &&& e <= s@.len()
            },
            Err(err) => start_line(s@) is None && err == ParseError::InvalidStartLine,
        },
{
    let e = line_end_from(s, 0);
    let line = match line_text(s, 0, e) {
        Some(t) => t,
        None => return Err(ParseError::InvalidStartLine),
    };
    let t = line.as_str();
    let ghost cs = t@;
    let a1 = skip_spaces_from(t, 0);
    let b1 = word_end_from(t, a1);
    let a2 = skip_spaces_from(t, b1);
    let b2 = word_end_from(t, a2);
    let a3 = skip_spaces_from(t, b2);
    let b3 = word_end_from(t, a3);
    let mut v_start = a3;
    if b3 - a3 >= 5 {
        if t.get_char(a3) == 'H' && t.get_char(a3 + 1) == 'T' && t.get_char(a3 + 2) == 'T'
            && t.get_char(a3 + 3) == 'P' && t.get_char(a3 + 4) == '/' {
            v_start = a3 + 5;
        }
    }
    proof {
        let w = cs.subrange(a3 as int, b3 as int);
        assert(w == word_at(cs, after_word(cs, after_word(cs, 0))));
        if w.len() >= 5 {
            if w.subrange(0, 5) == seq!['H', 'T', 'T', 'P', '/'] {
                assert(w[0] == 'H' && w[1] == 'T' && w[2] == 'T' && w[3] == 'P' && w[4] == '/');
            } else if v_start == a3 + 5 {
                assert(w.subrange(0, 5) =~= seq!['H', 'T', 'T', 'P', '/']);
            }
        }
        assert(strip_http(w) =~= cs.subrange(v_start as int, b3 as int));
    }
    if a1 == b1 || a2 == b2 || v_start == b3 {
        return Err(ParseError::InvalidStartLine);
    }
    let req = Request::new(
        t.substring_char(a1, b1),
        t.substring_char(a2, b2),
        t.substring_char(v_start, b3),
    );
    Ok((req, e))
}

/// Name and value of a header line.
fn header_fields(t: &str) -> (r: (String, String))
    ensures
        (r.0@, r.1@) == split_header(t@),
{
    let n = t.unicode_len();
    let c = find_char_from(t, ':', 0);
    if c < n {
        let name = trim_str(t.substring_char(0, c));
        let value = trim_str(t.substring_char(c + 1, n));
        (name.to_owned(), value.to_owned())
    } else {
        (trim_str(t).to_owned(), String::new())
    }
}

/// Sets every header of the run of lines that starts at `start`; gives where
/// the body starts.
fn read_headers(s: &[u8], start: usize, req: &mut Request) -> (end: usize)
    requires
        start <= s@.len(),
    ensures
        final(req).header_entries() == parsed_headers(s@, start as int, old(req).header_entries()),
        end == headers_end(s@, start as int),
        end <= s@.len(),
        final(req).method == old(req).method,
        final(req).target == old(req).target,
        final(req).version == old(req).version,
        final(req).body == old(req).body,
{
    let mut i = start;
    loop
        invariant
            start <= i <= s@.len(),
            parsed_headers(s@, i as int, req.header_entries()) == parsed_headers(
                s@,
                start as int,
                old(req).header_entries(),
            ),
            headers_end(s@, i as int) == headers_end(s@, start as int),
            req.method == old(req).method,
            req.target == old(req).target,
            req.version == old(req).version,
            req.body == old(req).body,
        decreases s@.len() - i,
    {
        let e = line_end_from(s, i);
        if e - i <= 2 {
            return e;
        }
        let line = match line_text(s, i, e) {
            Some(t) => t,
            None => return e,
        };
        let (name, value) = header_fields(line.as_str());
        req.headers.set(name, value);
        i = e;
    }
}

/// Reads the body that starts at `pos`: as many bytes as `Content-Length`
/// declares, or else the run of content lines there.
fn read_body(s: &[u8], pos: usize, req: Request) -> (r: Result<Request, ParseError>)
    requires
        pos <= s@.len(),
    ensures
        match content_length(req.header_entries()) {
            Some(n) => if pos + n <= s@.len() {
                r matches Ok(out) && out.model() == RequestModel {
                    body: req.body@ + s@.subrange(pos as int, pos + n),
                    ..req.model()
                }
            } else {
                r == Err::<Request, ParseError>(ParseError::BodyReadError)
            },
            None => r matches Ok(out) && out.model() == RequestModel {
                body: req.body@ + line_body(s@, pos as int),
                ..req.model()
            },
        },
{
    let mut out = req;
    let ghost m0 = out.model();
    let declared = match out.get_header("Content-Length") {
        Some(v) => parse_decimal(v.as_str()),
        None => None,
    };
    match declared {
        Some(n) => {
            if n > s.len() - pos {
                return Err(ParseError::BodyReadError);
            }
            let ghost before = out.body@;
            let end = pos + n;
            let mut i = pos;
            while i < end
                invariant
                    end == pos + n,
                    content_length(m0.headers) == Some(n as nat),
                    before == m0.body,
                    pos <= i <= pos + n <= s@.len(),
                    out.body@ == before + s@.subrange(pos as int, i as int),
                    out.model() == (RequestModel { body: out.body@, ..m0 }),
                    m0 == req.model(),
                decreases end - i,
            {
                out.body.push(s[i]);
                assert(s@.subrange(pos as int, i + 1) =~= s@.subrange(pos as int, i as int).push(
                    s@[i as int],
                ));
                i = i + 1;
            }
            Ok(out)
        },
        None => {
            let ghost before = out.body@;
            let mut i = pos;
            loop
                invariant
                    pos <= i <= s@.len(),
                    before + line_body(s@, pos as int) == out.body@ + line_body(s@, i as int),
                    content_length(m0.headers) is None,
                    before == m0.body,
                    out.model() == (RequestModel { body: out.body@, ..m0 }),
                    m0 == req.model(),
                decreases s@.len() - i,
            {
                let e = line_end_from(s, i);
                if e - i <= 2 {
                    assert(out.body@ =~= out.body@ + line_body(s@, i as int));
                    return Ok(out);
                }
                match line_text(s, i, e) {
                    Some(_) => {},
                    None => {
                        assert(out.body@ =~= out.body@ + line_body(s@, i as int));
                        return Ok(out);
                    },
                }
                let mut k = i;
                let ghost mid = out.body@;
                while k < e
                    invariant
                        i <= k <= e <= s@.len(),
                        out.body@ == mid + s@.subrange(i as int, k as int),
                        out.model() == (RequestModel { body: out.body@, ..m0 }),
                    m0 == req.model(),
                    decreases e - k,
                {
                    out.body.push(s[k]);
                    assert(s@.subrange(i as int, k + 1) =~= s@.subrange(i as int, k as int).push(
                        s@[k as int],
                    ));
                    k = k + 1;
                }
                assert(mid + line_body(s@, i as int) =~= out.body@ + line_body(s@, e as int));
                i = e;
            }
        },
    }
}

} // verus!
