//! Character-level helpers shared by the parser and the serializers.

use vstd::prelude::*;
use vstd::string::*;
use vstd::utf8::*;

verus! {

/// The characters with Unicode's `White_Space` property, which is what
/// `char::is_whitespace` tests.
pub open spec fn is_space(c: char) -> bool {
    let u = c as u32;
    (0x09 <= u <= 0x0d) || u == 0x20 || u == 0x85 || u == 0xa0 || u == 0x1680 || (0x2000 <= u
        <= 0x200a) || u == 0x2028 || u == 0x2029 || u == 0x202f || u == 0x205f || u == 0x3000
}

/// First index at or after `i` that does not hold whitespace.
pub open spec fn skip_spaces(cs: Seq<char>, i: int) -> int
    decreases cs.len() - i,
{
    if 0 <= i < cs.len() && is_space(cs[i]) {
        skip_spaces(cs, i + 1)
    } else {
        i
    }
}

/// First index at or after `i` that holds whitespace, or the end.
pub open spec fn word_end(cs: Seq<char>, i: int) -> int
    decreases cs.len() - i,
{
    if 0 <= i < cs.len() && !is_space(cs[i]) {
        word_end(cs, i + 1)
    } else {
        i
    }
}

/// The whitespace-delimited word that starts after position `i` (empty if none).
pub open spec fn word_at(cs: Seq<char>, i: int) -> Seq<char> {
    cs.subrange(skip_spaces(cs, i), word_end(cs, skip_spaces(cs, i)))
}

/// The position just past the word that `word_at(cs, i)` gives.
pub open spec fn after_word(cs: Seq<char>, i: int) -> int {
    word_end(cs, skip_spaces(cs, i))
}

/// End of `cs[lo..j]` once its trailing whitespace is dropped.
pub open spec fn trim_back(cs: Seq<char>, lo: int, j: int) -> int
    decreases j - lo,
{
    if lo < j && is_space(cs[j - 1]) {
        trim_back(cs, lo, j - 1)
    } else {
        j
    }
}

/// `cs` without leading and trailing whitespace.
pub open spec fn trim(cs: Seq<char>) -> Seq<char> {
    let a = skip_spaces(cs, 0);
    cs.subrange(a, trim_back(cs, a, cs.len() as int))
}

/// First index at or after `i` that holds `c`, or the end.
pub open spec fn find_char(cs: Seq<char>, c: char, i: int) -> int
    decreases cs.len() - i,
{
    if 0 <= i < cs.len() && cs[i] != c {
        find_char(cs, c, i + 1)
    } else {
        i
    }
}

/// The text that a byte sequence holds, when it is valid UTF-8.
pub open spec fn utf8_text(b: Seq<u8>) -> Option<Seq<char>> {
    if valid_utf8(b) {
        Some(decode_utf8(b))
    } else {
        None
    }
}

/// Relies on `String::from_utf8`: it succeeds exactly on valid UTF-8, and the
/// string it returns holds those same bytes.
#[verifier::external_body]
pub(crate) fn string_from_utf8(bytes: Vec<u8>) -> (r: Option<String>)
    ensures
        r is Some <==> valid_utf8(bytes@),
        r matches Some(t) ==> encode_utf8(t@) == bytes@,
{
    String::from_utf8(bytes).ok()
}

/// Decodes `bytes` as UTF-8 text, or gives `None` where they are not valid UTF-8.
pub fn decode_text(bytes: Vec<u8>) -> (r: Option<String>)
    ensures
        match r {
            Some(t) => utf8_text(bytes@) == Some(t@),
            None => utf8_text(bytes@) is None,
        },
{
    broadcast use encode_utf8_decode_utf8;

    string_from_utf8(bytes)
}

pub fn is_space_char(c: char) -> (r: bool)
    ensures
        r == is_space(c),
{
    let u = c as u32;
    (0x09 <= u && u <= 0x0d) || u == 0x20 || u == 0x85 || u == 0xa0 || u == 0x1680 || (0x2000 <= u
        && u <= 0x200a) || u == 0x2028 || u == 0x2029 || u == 0x202f || u == 0x205f || u == 0x3000
}

pub fn skip_spaces_from(t: &str, i: usize) -> (r: usize)
    requires
        i <= t@.len(),
    ensures
        r == skip_spaces(t@, i as int),
        i <= r <= t@.len(),
{
    let n = t.unicode_len();
    let mut j = i;
    loop
        invariant
            i <= j <= n,
            n == t@.len(),
            skip_spaces(t@, j as int) == skip_spaces(t@, i as int),
        decreases n - j,
    {
        if j == n || !is_space_char(t.get_char(j)) {
            return j;
        }
        j = j + 1;
    }
}

pub fn word_end_from(t: &str, i: usize) -> (r: usize)
    requires
        i <= t@.len(),
    ensures
        r == word_end(t@, i as int),
        i <= r <= t@.len(),
{
    let n = t.unicode_len();
    let mut j = i;
    loop
        invariant
            i <= j <= n,
            n == t@.len(),
            word_end(t@, j as int) == word_end(t@, i as int),
        decreases n - j,
    {
        if j == n || is_space_char(t.get_char(j)) {
            return j;
        }
        j = j + 1;
    }
}

pub fn find_char_from(t: &str, c: char, i: usize) -> (r: usize)
    requires
        i <= t@.len(),
    ensures
        r == find_char(t@, c, i as int),
        i <= r <= t@.len(),
{
    let n = t.unicode_len();
    let mut j = i;
    loop
        invariant
            i <= j <= n,
            n == t@.len(),
            find_char(t@, c, j as int) == find_char(t@, c, i as int),
        decreases n - j,
    {
        if j == n || t.get_char(j) == c {
            return j;
        }
        j = j + 1;
    }
}

/// `t` without leading and trailing whitespace.
pub fn trim_str(t: &str) -> (r: &str)
    ensures
        r@ == trim(t@),
{
    let n = t.unicode_len();
    let a = skip_spaces_from(t, 0);
    let mut j = n;
    loop
        invariant
            a <= j <= n,
            n == t@.len(),
            a == skip_spaces(t@, 0),
            trim_back(t@, a as int, j as int) == trim_back(t@, a as int, n as int),
        decreases j,
    {
        if j == a || !is_space_char(t.get_char(j - 1)) {
            return t.substring_char(a, j);
        }
        j = j - 1;
    }
}

} // verus!
