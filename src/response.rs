//! HTTP/1.1 responses: fluent construction and byte-exact serialization.

use vstd::prelude::*;
use vstd::slice::slice_to_vec;
use vstd::string::*;
use vstd::utf8::*;

use crate::decimal::{append_int, int_text};
use crate::headers::{
    has_name, header_line, header_lines, lookup, name_index, table_set, HeaderTable,
};

verus! {

/// The reason phrase that goes with a status code: 200 is `OK`, 404 is
/// `NOT FOUND`, every other code has an empty phrase.
pub open spec fn phrase_of(code: int) -> Seq<char> {
    if code == 200 {
        "OK"@
    } else if code == 404 {
        "NOT FOUND"@
    } else {
        Seq::empty()
    }
}

/// Start line, header lines and the blank line of a response, as text.
pub open spec fn response_head(
    version: Seq<char>,
    code: int,
    phrase: Seq<char>,
    es: Seq<(Seq<char>, Seq<char>)>,
) -> Seq<char> {
    "HTTP/"@ + version + " "@ + int_text(code) + " "@ + phrase + "\r\n"@ + header_lines(es)
        + "\r\n"@
}

/// A response given two headers of different names carries, before its body,
/// its start line, the two header lines in the order they were set, and a
/// blank line.
pub proof fn lemma_two_header_head(
    version: Seq<char>,
    code: int,
    phrase: Seq<char>,
    n1: Seq<char>,
    v1: Seq<char>,
    n2: Seq<char>,
    v2: Seq<char>,
)
    requires
        n1 != n2,
    ensures
        response_head(
            version,
            code,
            phrase,
            table_set(table_set(Seq::empty(), n1, v1), n2, v2),
        ) == "HTTP/"@ + version + " "@ + int_text(code) + " "@ + phrase + "\r\n"@ + header_line(
            n1,
            v1,
        ) + header_line(n2, v2) + "\r\n"@,
{
    let e = Seq::<(Seq<char>, Seq<char>)>::empty();
    let t1 = table_set(e, n1, v1);
    assert(t1 == e.push((n1, v1)));
    assert(!has_name(t1, n2)) by {
        if has_name(t1, n2) {
            let i = name_index(t1, n2);
            assert(0 <= i < t1.len() && t1[i].0 == n2);
        }
    }
    let t2 = table_set(t1, n2, v2);
    assert(t2.drop_last() =~= t1);
    assert(t1.drop_last() =~= e);
    assert(header_lines(e) =~= Seq::<char>::empty());
    assert(t1.last() == (n1, v1));
    assert(header_lines(t1) =~= header_line(n1, v1));
    assert(header_lines(t2) =~= header_line(n1, v1) + header_line(n2, v2));
    assert(response_head(version, code, phrase, t2) =~= "HTTP/"@ + version + " "@ + int_text(code)
        + " "@ + phrase + "\r\n"@ + header_line(n1, v1) + header_line(n2, v2) + "\r\n"@);
}

/// An HTTP/1.1 response.
pub struct Response {
    pub version: String,
    pub response_phrase: String,
    pub response_code: i32,
    pub headers: HeaderTable,
    pub body: Vec<u8>,
}

impl Response {
    /// The response's headers, in table order.
    pub open spec fn header_entries(&self) -> Seq<(Seq<char>, Seq<char>)> {
        self.headers@
    }

    /// The text that precedes the body on the wire.
    pub open spec fn head_text(&self) -> Seq<char> {
        response_head(
            self.version@,
            self.response_code as int,
            self.response_phrase@,
            self.header_entries(),
        )
    }

    /// A response with no headers and an empty body, whose phrase is looked up
    /// from its code.
    pub fn new(version: &str, response_code: i32) -> (r: Response)
        ensures
            r.version@ == version@,
            r.response_code == response_code,
            r.response_phrase@ == phrase_of(response_code as int),
            r.header_entries() == Seq::<(Seq<char>, Seq<char>)>::empty(),
            r.body@ == Seq::<u8>::empty(),
    {
        Response {
            version: version.to_owned(),
            response_code: response_code,
            response_phrase: phrase_from_code(response_code),
            headers: HeaderTable::new(),
            body: Vec::new(),
        }
    }

    /// The value of header `name` (exact, case-sensitive match).
    pub fn get_header(&self, name: &str) -> (r: Option<&String>)
        ensures
            match r {
                Some(v) => lookup(self.header_entries(), name@) == Some(v@),
                None => lookup(self.header_entries(), name@) is None,
            },
    {
        self.headers.get(name)
    }

    /// Sets header `name` to `value`, overwriting an earlier value.
    pub fn set_header(self, name: &str, value: &str) -> (r: Response)
        ensures
            r.header_entries() == table_set(self.header_entries(), name@, value@),
            r.version == self.version,
            r.response_code == self.response_code,
            r.response_phrase == self.response_phrase,
            r.body == self.body,
    {
        let mut res = self;
        res.headers.set(name.to_owned(), value.to_owned());
        res
    }

    /// Replaces the body with a copy of `body`.
    pub fn set_body(self, body: &[u8]) -> (r: Response)
        ensures
            r.body@ == body@,
            r.header_entries() == self.header_entries(),
            r.version == self.version,
            r.response_code == self.response_code,
            r.response_phrase == self.response_phrase,
    {
        let mut res = self;
        res.body = slice_to_vec(body);
        res
    }

    /// The response on the wire: its head as UTF-8, then the body verbatim.
    pub fn serialize(&self) -> (r: Vec<u8>)
        ensures
            r@ == encode_utf8(self.head_text()) + self.body@,
    {
        let head = to_str_without_body(self);
        let mut out = slice_to_vec(head.as_str().as_bytes());
        let ghost start = out@;
        let mut i: usize = 0;
        while i < self.body.len()
            invariant
                i <= self.body@.len(),
                out@ == start + self.body@.subrange(0, i as int),
            decreases self.body@.len() - i,
        {
            out.push(self.body[i]);
            assert(self.body@.subrange(0, i + 1) =~= self.body@.subrange(0, i as int).push(
                self.body@[i as int],
            ));
            i = i + 1;
        }
        assert(self.body@.subrange(0, self.body@.len() as int) =~= self.body@);
        out
    }
}

/// The head of `res` as text: start line, header lines and the blank line,
/// without the body.
pub fn to_str_without_body(res: &Response) -> (r: String)
    ensures
        r@ == res.head_text(),
{
    let mut out = String::new();
    out.append("HTTP/");
    out.append(res.version.as_str());
    out.append(" ");
    append_int(&mut out, res.response_code);
    out.append(" ");
    out.append(res.response_phrase.as_str());
    out.append("\r\n");
    res.headers.append_lines(&mut out);
    out.append("\r\n");
    assert(out@ =~= res.head_text());
    out
}

/// The reason phrase for `code`.
pub fn phrase_from_code(code: i32) -> (r: String)
    ensures
        r@ == phrase_of(code as int),
{
    if code == 200 {
        "OK".to_owned()
    } else if code == 404 {
        "NOT FOUND".to_owned()
    } else {
        String::new()
    }
}

} // verus!
