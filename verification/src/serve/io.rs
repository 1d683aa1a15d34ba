//! HTTP/1.1 framing over a byte stream: reading a request head and body,
//! and writing a response.
use vstd::multiset::Multiset;
use vstd::prelude::*;
use vstd::string::{StringExecFns, StringSliceAdditionalSpecFns};
use vstd::utf8::{decode_utf8, encode_utf8, encode_utf8_decode_utf8, valid_utf8};

use crate::text::{
    chars_of, decimal, push_decimal, copy_range, eq_ignore_ascii_case, first_two_words, split_whitespace, string_of,
    to_ascii_lower, trim, trim_chars,
};

verus! {

broadcast use vstd::string::group_string_axioms;

// ---------------------------------------------------------------------------
// The end of the head: the first "\r\n\r\n" in the stream
// ---------------------------------------------------------------------------

/// Whether `s[i..i + 4]` is the blank line `"\r\n\r\n"` that ends a request head.
pub open spec fn terminator_at(s: Seq<u8>, i: int) -> bool {
    &&& 0 <= i
    &&& i + 4 <= s.len()
    &&& s[i] == 13u8
    &&& s[i + 1] == 10u8
    &&& s[i + 2] == 13u8
    &&& s[i + 3] == 10u8
}

/// The first position at or after `i` where the terminator starts, if any.
pub open spec fn terminator_from(s: Seq<u8>, i: int) -> Option<int>
    decreases s.len() - i,
{
    if 0 <= i && i + 4 <= s.len() {
        if terminator_at(s, i) {
            Some(i)
        } else {
            terminator_from(s, i + 1)
        }
    } else {
        None
    }
}

/// Where the head ends in `s`: the first position of `"\r\n\r\n"`.
pub open spec fn header_end(s: Seq<u8>) -> Option<int> {
    terminator_from(s, 0)
}

proof fn lemma_terminator_from_found(s: Seq<u8>, i: int)
    requires
        0 <= i,
    ensures
        terminator_from(s, i) matches Some(h) ==> i <= h && terminator_at(s, h),
    decreases s.len() - i,
{
    if 0 <= i && i + 4 <= s.len() && !terminator_at(s, i) {
        lemma_terminator_from_found(s, i + 1);
    }
}

proof fn lemma_terminator_from_extend(s: Seq<u8>, t: Seq<u8>, i: int)
    requires
        0 <= i,
        terminator_from(s, i) is Some,
    ensures
        terminator_from(s + t, i) == terminator_from(s, i),
    decreases s.len() - i,
{
    if terminator_at(s, i) {
        assert(terminator_at(s + t, i));
    } else {
        assert(!terminator_at(s + t, i));
        lemma_terminator_from_extend(s, t, i + 1);
    }
}

/// Once the head's end is in the received bytes, more bytes do not move it.
pub proof fn lemma_header_end_extend(s: Seq<u8>, t: Seq<u8>)
    requires
        header_end(s) is Some,
    ensures
        header_end(s + t) == header_end(s),
{
    lemma_terminator_from_extend(s, t, 0);
}

/// The position of the first `"\r\n\r\n"` in `buf`.
pub fn find_header_end(buf: &[u8]) -> (r: Option<usize>)
    ensures
        match r {
            Some(h) => header_end(buf@) == Some(h as int),
            None => header_end(buf@) is None,
        },
{
    let n = buf.len();
    let mut i: usize = 0;
    while n - i >= 4
        invariant
            n == buf@.len(),
            i <= n,
            header_end(buf@) == terminator_from(buf@, i as int),
        decreases n - i,
    {
        if buf[i] == 13u8 && buf[i + 1] == 10u8 && buf[i + 2] == 13u8 && buf[i + 3] == 10u8 {
            return Some(i);
        }
        i = i + 1;
    }
    None
}

// ---------------------------------------------------------------------------
// UTF-8
// ---------------------------------------------------------------------------

/// Whether `k` is where a UTF-8 decoder of `bytes` stops: `bytes[..k]` is UTF-8 and
/// no longer prefix is.
pub open spec fn is_valid_up_to(bytes: Seq<u8>, k: int) -> bool {
    &&& 0 <= k <= bytes.len()
    &&& valid_utf8(bytes.take(k))
    &&& forall|j: int| k < j <= bytes.len() ==> !valid_utf8(#[trigger] bytes.take(j))
}

/// The length of the longest prefix of `bytes` that is UTF-8, as
/// `Utf8Error::valid_up_to` reports it.
pub open spec fn utf8_valid_up_to(bytes: Seq<u8>) -> int {
    choose|k: int| is_valid_up_to(bytes, k)
}

/// The length of the invalid sequence where decoding `bytes` stops, as
/// `Utf8Error::error_len` reports it (`None` where the bytes end in the middle of a
/// character).
pub uninterp spec fn utf8_error_len(bytes: Seq<u8>) -> Option<usize>;

/// Trusted: `std::str::from_utf8`, which std documents as returning the bytes as a
/// string slice when they are valid UTF-8 and an error when they are not. The error
/// is converted into what `Utf8Error::valid_up_to` (documented as the largest index
/// up to which the bytes are valid UTF-8) and `Utf8Error::error_len` report.
#[verifier::external_body]
fn str_from_utf8(v: &[u8]) -> (r: Result<&str, (usize, Option<usize>)>)
    ensures
        r is Ok <==> valid_utf8(v@),
        r matches Ok(s) ==> s.spec_bytes() == v@,
        r matches Err((k, n)) ==> is_valid_up_to(v@, k as int) && n == utf8_error_len(v@),
{
    match std::str::from_utf8(v) {
        Ok(s) => Ok(s),
        Err(e) => Err((e.valid_up_to(), e.error_len())),
    }
}

proof fn lemma_valid_up_to_unique(bytes: Seq<u8>, k: int)
    requires
        is_valid_up_to(bytes, k),
    ensures
        utf8_valid_up_to(bytes) == k,
{
    let c = utf8_valid_up_to(bytes);
    assert(is_valid_up_to(bytes, c));
    if c < k {
        assert(!valid_utf8(bytes.take(k)));
    } else if k < c {
        assert(!valid_utf8(bytes.take(c)));
    }
}

/// The characters that `bytes` encode in UTF-8; where they are not UTF-8, where
/// decoding stops and the length of the invalid sequence there.
pub fn decode_chars(bytes: &[u8]) -> (r: Result<Vec<char>, (usize, Option<usize>)>)
    ensures
        r is Ok <==> valid_utf8(bytes@),
        r matches Ok(cs) ==> cs@ == decode_utf8(bytes@),
        r matches Err((k, n)) ==> k == utf8_valid_up_to(bytes@) && n == utf8_error_len(bytes@),
{
    match str_from_utf8(bytes) {
        Ok(s) => {
            proof {
                encode_utf8_decode_utf8(s@);
            }
            Ok(chars_of(s))
        },
        Err((k, n)) => {
            proof {
                lemma_valid_up_to_unique(bytes@, k as int);
            }
            Err((k, n))
        },
    }
}

// ---------------------------------------------------------------------------
// Lines of the head
// ---------------------------------------------------------------------------

/// Whether `s[i..i + 2]` is `"\r\n"`.
pub open spec fn crlf_at(s: Seq<char>, i: int) -> bool {
    0 <= i && i + 2 <= s.len() && s[i] == '\r' && s[i + 1] == '\n'
}

/// The first position at or after `i` of `"\r\n"`, or `s.len()` where there is none.
pub open spec fn next_crlf(s: Seq<char>, i: int) -> int
    decreases s.len() - i,
{
    if 0 <= i && i + 2 <= s.len() {
        if crlf_at(s, i) {
            i
        } else {
            next_crlf(s, i + 1)
        }
    } else {
        s.len() as int
    }
}

pub proof fn lemma_next_crlf(s: Seq<char>, i: int)
    requires
        0 <= i <= s.len(),
    ensures
        i <= next_crlf(s, i) <= s.len(),
        next_crlf(s, i) < s.len() ==> crlf_at(s, next_crlf(s, i)),
    decreases s.len() - i,
{
    if i + 2 <= s.len() && !crlf_at(s, i) {
        lemma_next_crlf(s, i + 1);
    }
}

/// The pieces of `s[i..]` between the `"\r\n"` separators, as `str::split("\r\n")`
/// yields them (an empty text is one empty line).
pub open spec fn lines_from(s: Seq<char>, i: int) -> Seq<Seq<char>>
    decreases s.len() - i,
{
    if 0 <= i <= s.len() {
        let j = next_crlf(s, i);
        if j < s.len() {
            proof {
                lemma_next_crlf(s, i);
            }
            seq![s.subrange(i, j)] + lines_from(s, j + 2)
        } else {
            seq![s.subrange(i, s.len() as int)]
        }
    } else {
        Seq::empty()
    }
}

/// The lines of a request head.
pub open spec fn head_lines(s: Seq<char>) -> Seq<Seq<char>> {
    lines_from(s, 0)
}

/// The character sequences held by a sequence of character vectors.
pub open spec fn rows(v: Seq<Vec<char>>) -> Seq<Seq<char>> {
    v.map_values(|x: Vec<char>| x@)
}

/// `s` split at every `"\r\n"`.
pub fn split_lines(s: &Vec<char>) -> (r: Vec<Vec<char>>)
    ensures
        rows(r@) == head_lines(s@),
        r@.len() >= 1,
{
    let n = s.len();
    let mut out: Vec<Vec<char>> = Vec::new();
    let mut start: usize = 0;
    let mut j: usize = 0;
    while n - j >= 2
        invariant
            n == s@.len(),
            start <= j <= n,
            rows(out@) + lines_from(s@, start as int) == head_lines(s@),
            next_crlf(s@, start as int) == next_crlf(s@, j as int),
        decreases n - j,
    {
        if s[j] == '\r' && s[j + 1] == '\n' {
            let piece = copy_range(s, start, j);
            proof {
                lemma_next_crlf(s@, start as int);
                assert(lines_from(s@, start as int) == seq![s@.subrange(start as int, j as int)]
                    + lines_from(s@, j + 2));
                assert(rows(out@).push(piece@) + lines_from(s@, j + 2) == rows(out@)
                    + lines_from(s@, start as int));
            }
            let ghost before = rows(out@);
            out.push(piece);
            assert(rows(out@) =~= before.push(piece@));
            start = j + 2;
            j = j + 2;
        } else {
            j = j + 1;
        }
    }
    let last = copy_range(s, start, n);
    let ghost before = rows(out@);
    proof {
        lemma_next_crlf(s@, start as int);
        assert(lines_from(s@, start as int) == seq![s@.subrange(start as int, n as int)]);
    }
    out.push(last);
    assert(rows(out@) =~= before.push(last@));
    out
}

// ---------------------------------------------------------------------------
// Header fields and Content-Length
// ---------------------------------------------------------------------------

/// The first position at or after `i` of `':'`, or `s.len()` where there is none.
pub open spec fn next_colon(s: Seq<char>, i: int) -> int
    decreases s.len() - i,
{
    if 0 <= i < s.len() {
        if s[i] == ':' {
            i
        } else {
            next_colon(s, i + 1)
        }
    } else {
        s.len() as int
    }
}

/// A header line split at its first `':'`: the name as written and the value
/// trimmed of white space; `None` for a line without a colon.
pub open spec fn header_field(line: Seq<char>) -> Option<(Seq<char>, Seq<char>)> {
    let k = next_colon(line, 0);
    if k < line.len() {
        Some((line.subrange(0, k), trim(line.subrange(k + 1, line.len() as int))))
    } else {
        None
    }
}

/// The header fields of the given header lines, in order.
pub open spec fn header_fields(lines: Seq<Seq<char>>) -> Seq<(Seq<char>, Seq<char>)>
    decreases lines.len(),
{
    if lines.len() == 0 {
        Seq::empty()
    } else {
        let earlier = header_fields(lines.drop_last());
        match header_field(lines.last()) {
            Some(f) => earlier.push(f),
            None => earlier,
        }
    }
}

/// The header name `content-length`.
pub open spec fn content_length_name() -> Seq<char> {
    seq!['c', 'o', 'n', 't', 'e', 'n', 't', '-', 'l', 'e', 'n', 'g', 't', 'h']
}

/// Whether `c` is an ASCII decimal digit.
pub open spec fn is_digit(c: char) -> bool {
    '0' <= c && c <= '9'
}

/// The number that the digits `d` spell in decimal.
pub open spec fn digits_value(d: Seq<char>) -> nat
    decreases d.len(),
{
    if d.len() == 0 {
        0
    } else {
        digits_value(d.drop_last()) * 10 + ((d.last() as int) - 48) as nat
    }
}

/// `s` without one leading `'+'`, the sign that `usize::from_str` accepts.
pub open spec fn unsigned_digits(s: Seq<char>) -> Seq<char> {
    if s.len() > 0 && s[0] == '+' {
        s.drop_first()
    } else {
        s
    }
}

/// What `s.parse::<usize>()` gives: the value of an optional `'+'` followed by one
/// or more decimal digits, when it fits in `usize`.
pub open spec fn parse_usize(s: Seq<char>) -> Option<nat> {
    let d = unsigned_digits(s);
    if d.len() > 0 && (forall|i: int| 0 <= i < d.len() ==> is_digit(#[trigger] d[i]))
        && digits_value(d) <= usize::MAX {
        Some(digits_value(d))
    } else {
        None
    }
}

/// The body length that the header fields announce: the value of the last
/// `Content-Length` field (any ASCII case), or 0 when that value does not parse or
/// there is no such field.
pub open spec fn content_length(fields: Seq<(Seq<char>, Seq<char>)>) -> nat
    decreases fields.len(),
{
    if fields.len() == 0 {
        0
    } else if eq_ignore_ascii_case(fields.last().0, content_length_name()) {
        match parse_usize(fields.last().1) {
            Some(v) => v,
            None => 0,
        }
    } else {
        content_length(fields.drop_last())
    }
}

proof fn lemma_digits_value_prefix(d: Seq<char>, k: int)
    requires
        0 <= k <= d.len(),
        forall|i: int| 0 <= i < d.len() ==> is_digit(#[trigger] d[i]),
    ensures
        digits_value(d.take(k)) <= digits_value(d),
    decreases d.len(),
{
    if k < d.len() {
        assert(d.drop_last().take(k) == d.take(k));
        lemma_digits_value_prefix(d.drop_last(), k);
    } else {
        assert(d.take(k) == d);
    }
}

/// `s.parse::<usize>()`.
pub fn parse_usize_chars(s: &Vec<char>) -> (r: Option<usize>)
    ensures
        match r {
            Some(v) => parse_usize(s@) == Some(v as nat),
            None => parse_usize(s@) is None,
        },
{
    let n = s.len();
    let d = if n > 0 && s[0] == '+' {
        copy_range(s, 1, n)
    } else {
        copy_range(s, 0, n)
    };
    assert(d@ == unsigned_digits(s@));
    if d.len() == 0 {
        return None;
    }
    let mut acc: usize = 0;
    let mut i: usize = 0;
    while i < d.len()
        invariant
            i <= d@.len(),
            d@ == unsigned_digits(s@),
            acc as nat == digits_value(d@.take(i as int)),
            forall|j: int| 0 <= j < i ==> is_digit(#[trigger] d@[j]),
        decreases d@.len() - i,
    {
        let c = d[i];
        if !('0' <= c && c <= '9') {
            assert(!is_digit(d@[i as int]));
            return None;
        }
        let digit = ((c as u32) - 48) as usize;
        assert(d@.take(i + 1).drop_last() == d@.take(i as int));
        assert(d@.take(i + 1).last() == c);
        assert(digits_value(d@.take(i + 1)) == acc * 10 + digit);
        let m = acc.checked_mul(10);
        match m {
            None => {
                proof {
                    if forall|j: int| 0 <= j < d@.len() ==> is_digit(#[trigger] d@[j]) {
                        lemma_digits_value_prefix(d@, i + 1);
                    }
                }
                return None;
            },
            Some(m) => {
                match m.checked_add(digit) {
                    None => {
                        proof {
                            if forall|j: int| 0 <= j < d@.len() ==> is_digit(#[trigger] d@[j]) {
                                lemma_digits_value_prefix(d@, i + 1);
                            }
                        }
                        return None;
                    },
                    Some(v) => {
                        acc = v;
                    },
                }
            },
        }
        i = i + 1;
    }
    assert(d@.take(d@.len() as int) == d@);
    Some(acc)
}

/// Whether `name` is `content-length` in any ASCII case.
pub fn is_content_length_name(name: &Vec<char>) -> (b: bool)
    ensures
        b == eq_ignore_ascii_case(name@, content_length_name()),
{
    let target = chars_of("content-length");
    proof {
        reveal_strlit("content-length");
    }
    assert(target@ == content_length_name());
    if name.len() != target.len() {
        return false;
    }
    let mut i: usize = 0;
    while i < name.len()
        invariant
            i <= name@.len(),
            name@.len() == target@.len(),
            target@ == content_length_name(),
            forall|j: int|
                0 <= j < i ==> crate::text::ascii_lower(#[trigger] name@[j])
                    == crate::text::ascii_lower(target@[j]),
        decreases name@.len() - i,
    {
        if to_ascii_lower(name[i]) != to_ascii_lower(target[i]) {
            return false;
        }
        i = i + 1;
    }
    true
}


// ---------------------------------------------------------------------------
// The request head
// ---------------------------------------------------------------------------

/// Why a request is refused before it is handed to the `http` builder.
#[derive(Clone, Copy, Debug, PartialEq, Eq, Structural)]
pub enum HeadError {
    /// The stream ended before a blank line closed the head.
    Closed,
    /// The head is not UTF-8: decoding stops at `valid_up_to`, on an invalid
    /// sequence of `error_len` bytes (`None`: the head ends inside a character).
    NotUtf8 { valid_up_to: usize, error_len: Option<usize> },
    /// The request line holds no method.
    MissingMethod,
    /// The request line holds no URI.
    MissingUri,
}

/// The message for a refused request head; for a head that is not UTF-8, the
/// message of `std`'s `Utf8Error`.
pub open spec fn head_error_message(e: HeadError) -> Seq<char> {
    match e {
        HeadError::Closed => "connection closed before headers completed"@,
        HeadError::NotUtf8 { valid_up_to, error_len } => match error_len {
            Some(n) => "invalid utf-8 sequence of "@ + decimal(n as nat) + " bytes from index "@
                + decimal(valid_up_to as nat),
            None => "incomplete utf-8 byte sequence from index "@ + decimal(valid_up_to as nat),
        },
        HeadError::MissingMethod => "missing method"@,
        HeadError::MissingUri => "missing URI"@,
    }
}

impl HeadError {
    /// The message that reports this error.
    pub fn message(&self) -> (m: String)
        ensures
            m@ == head_error_message(*self),
    {
        let mut m = String::new();
        match self {
            HeadError::Closed => m.append("connection closed before headers completed"),
            HeadError::NotUtf8 { valid_up_to, error_len } => match error_len {
                Some(n) => {
                    m.append("invalid utf-8 sequence of ");
                    push_decimal(&mut m, *n as u64);
                    m.append(" bytes from index ");
                    push_decimal(&mut m, *valid_up_to as u64);
                },
                None => {
                    m.append("incomplete utf-8 byte sequence from index ");
                    push_decimal(&mut m, *valid_up_to as u64);
                },
            },
            HeadError::MissingMethod => m.append("missing method"),
            HeadError::MissingUri => m.append("missing URI"),
        }
        assert(m@ =~= head_error_message(*self));
        m
    }
}

/// The header fields held by a vector of name/value strings.
pub open spec fn fields(v: Seq<(String, String)>) -> Seq<(Seq<char>, Seq<char>)> {
    v.map_values(|p: (String, String)| (p.0@, p.1@))
}

/// A parsed request head: method, URI, header fields in order, and the body length
/// that they announce.
pub struct RequestHead {
    pub method: String,
    pub uri: String,
    pub headers: Vec<(String, String)>,
    pub content_length: usize,
}

/// The mathematical value of a request head.
pub struct HeadModel {
    pub method: Seq<char>,
    pub uri: Seq<char>,
    pub headers: Seq<(Seq<char>, Seq<char>)>,
    pub content_length: nat,
}

impl View for RequestHead {
    type V = HeadModel;

    open spec fn view(&self) -> HeadModel {
        HeadModel {
            method: self.method@,
            uri: self.uri@,
            headers: fields(self.headers@),
            content_length: self.content_length as nat,
        }
    }
}

/// What the head bytes `h` (without the closing blank line) parse to: the first
/// line gives the method and URI as its first two white-space separated words,
/// every later line with a `':'` gives a header field.
pub open spec fn parse_head(h: Seq<u8>) -> Result<HeadModel, HeadError> {
    if !valid_utf8(h) {
        Err(
            HeadError::NotUtf8 {
                valid_up_to: utf8_valid_up_to(h) as usize,
                error_len: utf8_error_len(h),
            },
        )
    } else {
        let lines = head_lines(decode_utf8(h));
        let words = split_whitespace(lines[0]);
        if words.len() == 0 {
            Err(HeadError::MissingMethod)
        } else if words.len() == 1 {
            Err(HeadError::MissingUri)
        } else {
            let fs = header_fields(lines.drop_first());
            Ok(
                HeadModel {
                    method: words[0],
                    uri: words[1],
                    headers: fs,
                    content_length: content_length(fs),
                },
            )
        }
    }
}

/// The position of the first `':'` in `s`, or `s.len()`.
fn find_colon(s: &Vec<char>) -> (k: usize)
    ensures
        k == next_colon(s@, 0),
        k <= s@.len(),
{
    let mut k: usize = 0;
    while k < s.len() && s[k] != ':'
        invariant
            k <= s@.len(),
            next_colon(s@, 0) == next_colon(s@, k as int),
        decreases s@.len() - k,
    {
        k = k + 1;
    }
    k
}

/// Parses a request head (the bytes before the blank line).
pub fn parse_request_head(head: &[u8]) -> (r: Result<RequestHead, HeadError>)
    ensures
        match r {
            Ok(h) => parse_head(head@) == Ok::<HeadModel, HeadError>(h@),
            Err(e) => parse_head(head@) == Err::<HeadModel, HeadError>(e),
        },
{
    let text = match decode_chars(head) {
        Ok(t) => t,
        Err((k, n)) => return Err(HeadError::NotUtf8 { valid_up_to: k, error_len: n }),
    };
    let lines = split_lines(&text);
    let ghost ls = rows(lines@);
    assert(ls[0] == lines@[0]@);
    let (method, uri) = match first_two_words(&lines[0]) {
        (None, _) => return Err(HeadError::MissingMethod),
        (Some(_), None) => return Err(HeadError::MissingUri),
        (Some(m), Some(u)) => (m, u),
    };
    let mut headers: Vec<(String, String)> = Vec::new();
    let mut cl: usize = 0;
    let mut idx: usize = 1;
    assert(ls.subrange(1, 1) =~= Seq::<Seq<char>>::empty());
    while idx < lines.len()
        invariant
            ls == rows(lines@),
            1 <= idx <= lines@.len(),
            fields(headers@) == header_fields(ls.subrange(1, idx as int)),
            cl as nat == content_length(fields(headers@)),
        decreases lines@.len() - idx,
    {
        let line = &lines[idx];
        assert(ls[idx as int] == line@);
        let k = find_colon(line);
        let ghost before = fields(headers@);
        assert(ls.subrange(1, idx + 1).drop_last() =~= ls.subrange(1, idx as int));
        assert(ls.subrange(1, idx + 1).last() == line@);
        if k < line.len() {
            let name = copy_range(line, 0, k);
            let raw = copy_range(line, k + 1, line.len());
            let value = trim_chars(&raw);
            if is_content_length_name(&name) {
                cl = match parse_usize_chars(&value) {
                    Some(v) => v,
                    None => 0,
                };
            }
            let entry = (string_of(name.as_slice()), string_of(value.as_slice()));
            headers.push(entry);
            assert(fields(headers@) =~= before.push((name@, value@)));
            assert(fields(headers@).drop_last() =~= before);
        }
        idx = idx + 1;
    }
    assert(ls.subrange(1, lines@.len() as int) =~= ls.drop_first());
    Ok(
        RequestHead {
            method: string_of(method.as_slice()),
            uri: string_of(uri.as_slice()),
            headers,
            content_length: cl,
        },
    )
}


// ---------------------------------------------------------------------------
// Reading a request from a stream
// ---------------------------------------------------------------------------

/// A request read off a stream: its head and, where the head announced a
/// positive `Content-Length`, the body bytes (at most that many).
pub struct ParsedRequest {
    pub method: String,
    pub uri: String,
    pub headers: Vec<(String, String)>,
    pub body: Option<Vec<u8>>,
}

/// The mathematical value of a read request.
pub struct RequestModel {
    pub method: Seq<char>,
    pub uri: Seq<char>,
    pub headers: Seq<(Seq<char>, Seq<char>)>,
    pub body: Option<Seq<u8>>,
}

impl View for ParsedRequest {
    type V = RequestModel;

    open spec fn view(&self) -> RequestModel {
        RequestModel {
            method: self.method@,
            uri: self.uri@,
            headers: fields(self.headers@),
            body: match self.body {
                Some(b) => Some(b@),
                None => None,
            },
        }
    }
}

/// A head together with a body.
pub open spec fn with_body(h: HeadModel, body: Option<Seq<u8>>) -> RequestModel {
    RequestModel { method: h.method, uri: h.uri, headers: h.headers, body }
}

/// What a reader decides once it has received the bytes `s`; `eof` tells whether
/// the stream has ended. `None`: it needs more bytes.
///
/// The head is everything before the first blank line. With no announced body the
/// request is complete at once; otherwise the body is the announced number of
/// bytes after the blank line, or whatever arrived before the stream ended.
pub open spec fn read_outcome(s: Seq<u8>, eof: bool) -> Option<Result<RequestModel, HeadError>> {
    match header_end(s) {
        None => if eof {
            Some(Err(HeadError::Closed))
        } else {
            None
        },
        Some(h) => match parse_head(s.subrange(0, h)) {
            Err(e) => Some(Err(e)),
            Ok(head) => {
                let rest = s.subrange(h + 4, s.len() as int);
                if head.content_length == 0 {
                    Some(Ok(with_body(head, None)))
                } else if head.content_length <= rest.len() {
                    Some(Ok(with_body(head, Some(rest.take(head.content_length as int)))))
                } else if eof {
                    Some(Ok(with_body(head, Some(rest))))
                } else {
                    None
                }
            },
        },
    }
}

/// A request is decided by a prefix of the stream: once the bytes received decide
/// it, further bytes (and the end of the stream) leave the outcome as it is.
pub proof fn lemma_outcome_settled(s: Seq<u8>, t: Seq<u8>, eof: bool)
    requires
        read_outcome(s, false) is Some,
    ensures
        read_outcome(s + t, eof) == read_outcome(s, false),
{
    let h = header_end(s)->0;
    lemma_header_end_extend(s, t);
    lemma_terminator_from_found(s, 0);
    assert((s + t).subrange(0, h) =~= s.subrange(0, h));
    let rest = s.subrange(h + 4, s.len() as int);
    let rest2 = (s + t).subrange(h + 4, (s + t).len() as int);
    assert(rest2 =~= rest + t);
    if let Ok(head) = parse_head(s.subrange(0, h)) {
        if head.content_length > 0 {
            assert(rest2.take(head.content_length as int) =~= rest.take(head.content_length as int));
        }
    }
}

/// What a reader decides when it is fed `chunks` one after another, having
/// received `received` before: the outcome after the first chunk that decides, as
/// `RequestReader::feed` gives it (an empty chunk is the end of the stream).
pub open spec fn outcome_of_chunks(received: Seq<u8>, chunks: Seq<Seq<u8>>) -> Option<
    Result<RequestModel, HeadError>,
>
    decreases chunks.len(),
{
    if chunks.len() == 0 {
        None
    } else {
        let s = received + chunks[0];
        match read_outcome(s, chunks[0].len() == 0) {
            Some(o) => Some(o),
            None => outcome_of_chunks(s, chunks.drop_first()),
        }
    }
}

/// Whether `chunks` are reads of a stream up to its end: non-empty chunks, then
/// one empty chunk.
pub open spec fn reads_to_end(chunks: Seq<Seq<u8>>) -> bool {
    &&& chunks.len() > 0
    &&& chunks.last().len() == 0
    &&& forall|i: int| 0 <= i < chunks.len() - 1 ==> #[trigger] chunks[i].len() > 0
}

/// However a stream is split into reads, the request read off it is the same: the
/// outcome of reading it chunk by chunk to its end is what the whole stream decides.
pub proof fn lemma_chunking_irrelevant(received: Seq<u8>, chunks: Seq<Seq<u8>>)
    requires
        read_outcome(received, false) is None,
        reads_to_end(chunks),
    ensures
        outcome_of_chunks(received, chunks) == read_outcome(received + chunks.flatten(), true),
    decreases chunks.len(),
{
    let s = received + chunks[0];
    let rest = chunks.drop_first();
    assert(received + chunks.flatten() =~= s + rest.flatten());
    if chunks.len() == 1 {
        assert(rest.flatten() =~= Seq::<u8>::empty());
        assert(s =~= s + rest.flatten());
        assert(chunks[0] =~= Seq::<u8>::empty());
        assert(s =~= received);
    } else {
        assert(chunks[0].len() > 0);
        if read_outcome(s, false) is Some {
            lemma_outcome_settled(s, rest.flatten(), true);
        } else {
            assert forall|i: int| 0 <= i < rest.len() - 1 implies #[trigger] rest[i].len() > 0 by {
                assert(rest[i] == chunks[i + 1]);
            }
            lemma_chunking_irrelevant(s, rest);
        }
    }
}

/// Two ways of splitting the same stream into reads give the same request.
pub proof fn lemma_same_stream_same_request(a: Seq<Seq<u8>>, b: Seq<Seq<u8>>)
    requires
        reads_to_end(a),
        reads_to_end(b),
        a.flatten() == b.flatten(),
    ensures
        outcome_of_chunks(Seq::empty(), a) == outcome_of_chunks(Seq::empty(), b),
{
    assert(read_outcome(Seq::<u8>::empty(), false) is None);
    lemma_chunking_irrelevant(Seq::empty(), a);
    lemma_chunking_irrelevant(Seq::empty(), b);
    assert(Seq::<u8>::empty() + a.flatten() =~= a.flatten());
    assert(Seq::<u8>::empty() + b.flatten() =~= b.flatten());
}

/// A request whose announced body has fully arrived is complete without waiting
/// for the end of the stream: its body is exactly the announced number of bytes
/// after the blank line, and any further bytes are left out.
pub proof fn lemma_announced_body_completes(s: Seq<u8>, h: int, head: HeadModel)
    requires
        header_end(s) == Some(h),
        parse_head(s.subrange(0, h)) == Ok::<HeadModel, HeadError>(head),
        head.content_length > 0,
        h + 4 + head.content_length <= s.len(),
    ensures
        read_outcome(s, false) == Some(
            Ok::<RequestModel, HeadError>(
                RequestModel {
                    method: head.method,
                    uri: head.uri,
                    headers: head.headers,
                    body: Some(s.subrange(h + 4, h + 4 + head.content_length)),
                },
            ),
        ),
{
    lemma_terminator_from_found(s, 0);
    let rest = s.subrange(h + 4, s.len() as int);
    assert(rest.take(head.content_length as int) =~= s.subrange(h + 4, h + 4 + head.content_length));
}

/// A request that announces no body is complete as soon as its head has arrived,
/// with no body.
pub proof fn lemma_bodiless_request_completes(s: Seq<u8>, h: int, head: HeadModel, eof: bool)
    requires
        header_end(s) == Some(h),
        parse_head(s.subrange(0, h)) == Ok::<HeadModel, HeadError>(head),
        head.content_length == 0,
    ensures
        read_outcome(s, eof) == Some(
            Ok::<RequestModel, HeadError>(
                RequestModel { method: head.method, uri: head.uri, headers: head.headers, body: None },
            ),
        ),
{
}

/// A request whose stream ends before the announced body has fully arrived gets
/// the bytes that did arrive after the blank line; one whose stream ends before the
/// blank line is refused as closed.
pub proof fn lemma_end_of_stream(s: Seq<u8>)
    ensures
        header_end(s) is None ==> read_outcome(s, true) == Some(
            Err::<RequestModel, HeadError>(HeadError::Closed),
        ),
        forall|h: int, head: HeadModel|
            header_end(s) == Some(h) && parse_head(s.subrange(0, h)) == Ok::<HeadModel, HeadError>(
                head,
            ) && head.content_length > 0 && s.len() < h + 4 + head.content_length ==> read_outcome(
                s,
                true,
            ) == Some(
                Ok::<RequestModel, HeadError>(
                    RequestModel {
                        method: head.method,
                        uri: head.uri,
                        headers: head.headers,
                        body: Some(s.subrange(h + 4, s.len() as int)),
                    },
                ),
            ),
{
    lemma_terminator_from_found(s, 0);
}

/// One step of reading a request.
pub enum ReadStep {
    /// More bytes are needed; the reader to feed them to.
    NeedMore(RequestReader),
    /// The request has been read.
    Complete(ParsedRequest),
    /// The request is refused.
    Failed(HeadError),
}

/// Reads an HTTP/1.1 request off a stream, chunk by chunk.
pub struct RequestReader {
    received: Vec<u8>,
    head: Option<(RequestHead, usize)>,
}

impl View for RequestReader {
    type V = Seq<u8>;

    /// The bytes received so far.
    closed spec fn view(&self) -> Seq<u8> {
        self.received@
    }
}

impl RequestReader {
    /// The reader's own bookkeeping is consistent with the bytes it received.
    pub closed spec fn inv(&self) -> bool {
        match self.head {
            None => header_end(self.received@) is None,
            Some((h, e)) => {
                &&& header_end(self.received@) == Some(e as int)
                &&& e + 4 <= self.received@.len()
                &&& parse_head(self.received@.subrange(0, e as int)) == Ok::<HeadModel, HeadError>(h@)
                &&& h@.content_length > 0
            },
        }
    }

    /// The bytes received so far do not decide the request yet.
    pub open spec fn pending(&self) -> bool {
        read_outcome(self@, false) is None
    }

    /// A reader that has received nothing.
    pub fn new() -> (r: RequestReader)
        ensures
            r@ == Seq::<u8>::empty(),
            r.inv(),
            r.pending(),
    {
        RequestReader { received: Vec::new(), head: None }
    }

    /// The step once the head (ending at `e`) announced a body: complete when the
    /// announced bytes are there or the stream has ended, else waiting for more.
    fn body_step(h: RequestHead, e: usize, received: Vec<u8>, eof: bool) -> (step: ReadStep)
        requires
            header_end(received@) == Some(e as int),
            e + 4 <= received@.len(),
            parse_head(received@.subrange(0, e as int)) == Ok::<HeadModel, HeadError>(h@),
            h@.content_length > 0,
        ensures
            match step {
                ReadStep::NeedMore(next) => {
                    &&& !eof
                    &&& next@ == received@
                    &&& next.inv()
                    &&& read_outcome(received@, false) is None
                },
                ReadStep::Complete(p) => read_outcome(received@, eof) == Some(
                    Ok::<RequestModel, HeadError>(p@),
                ),
                ReadStep::Failed(_) => false,
            },
    {
        let total = received.len();
        let start: usize = e + 4;
        let avail: usize = total - start;
        if avail >= h.content_length || eof {
            let stop = if avail >= h.content_length {
                start + h.content_length
            } else {
                total
            };
            let body = copy_range(&received, start, stop);
            proof {
                let rest = received@.subrange(start as int, received@.len() as int);
                assert(body@ =~= if h@.content_length <= rest.len() {
                    rest.take(h@.content_length as int)
                } else {
                    rest
                });
            }
            ReadStep::Complete(
                ParsedRequest { method: h.method, uri: h.uri, headers: h.headers, body: Some(body) },
            )
        } else {
            ReadStep::NeedMore(RequestReader { received, head: Some((h, e)) })
        }
    }

    /// Takes the next chunk read off the stream; an empty chunk is the end of the
    /// stream. The step says what the bytes received so far decide.
    pub fn feed(self, chunk: &[u8]) -> (step: ReadStep)
        requires
            self.inv(),
            self.pending(),
        ensures
            match step {
                ReadStep::NeedMore(next) => {
                    &&& chunk@.len() > 0
                    &&& next@ == self@ + chunk@
                    &&& next.inv()
                    &&& next.pending()
                },
                ReadStep::Complete(p) => read_outcome(self@ + chunk@, chunk@.len() == 0) == Some(
                    Ok::<RequestModel, HeadError>(p@),
                ),
                ReadStep::Failed(e) => read_outcome(self@ + chunk@, chunk@.len() == 0) == Some(
                    Err::<RequestModel, HeadError>(e),
                ),
            },
    {
        let ghost old_bytes = self.received@;
        let RequestReader { received, head } = self;
        let mut received = received;
        let eof = chunk.len() == 0;
        received.extend_from_slice(chunk);
        assert(received@ == old_bytes + chunk@);
        let total = received.len();
        match head {
            Some((h, e)) => {
                proof {
                    lemma_header_end_extend(old_bytes, chunk@);
                    assert(received@.subrange(0, e as int) =~= old_bytes.subrange(0, e as int));
                }
                Self::body_step(h, e, received, eof)
            },
            None => match find_header_end(received.as_slice()) {
                None => {
                    if eof {
                        ReadStep::Failed(HeadError::Closed)
                    } else {
                        ReadStep::NeedMore(RequestReader { received, head: None })
                    }
                },
                Some(e) => {
                    proof {
                        lemma_terminator_from_found(received@, 0);
                    }
                    let head_bytes = copy_range(&received, 0, e);
                    match parse_request_head(head_bytes.as_slice()) {
                        Err(err) => ReadStep::Failed(err),
                        Ok(h) => {
                            if h.content_length == 0 {
                                ReadStep::Complete(
                                    ParsedRequest {
                                        method: h.method,
                                        uri: h.uri,
                                        headers: h.headers,
                                        body: None,
                                    },
                                )
                            } else {
                                Self::body_step(h, e, received, eof)
                            }
                        },
                    }
                },
            },
        }
    }
}


// ---------------------------------------------------------------------------
// Handing a read request to the `http` builder
// ---------------------------------------------------------------------------

#[verifier::external_type_specification]
#[verifier::external_body]
#[verifier::reject_recursive_types(T)]
pub struct ExRequest<T>(wstd::http::Request<T>);

#[verifier::external_type_specification]
#[verifier::external_body]
pub struct ExBody(wstd::http::Body);

#[verifier::external_type_specification]
#[verifier::external_body]
pub struct ExHttpError(http::Error);

/// Whether `c` is a `tchar` of RFC 9110: a digit, a letter, or one of
/// ``!#$%&'*+-.^_`|~``.
pub open spec fn is_tchar(c: char) -> bool {
    ||| ('0' <= c && c <= '9')
    ||| ('a' <= c && c <= 'z')
    ||| ('A' <= c && c <= 'Z')
    ||| c == '!' || c == '#' || c == '$' || c == '%' || c == '&' || c == '\''
    ||| c == '*' || c == '+' || c == '-' || c == '.' || c == '^' || c == '_'
    ||| c == '`' || c == '|' || c == '~'
}

/// What `http` accepts as a method: one or more `tchar`s.
pub open spec fn is_method_token(m: Seq<char>) -> bool {
    m.len() > 0 && forall|i: int| 0 <= i < m.len() ==> is_tchar(#[trigger] m[i])
}

/// What `http` accepts as a header name: 1 to 65535 `tchar`s (in any case).
pub open spec fn is_header_name(n: Seq<char>) -> bool {
    &&& 0 < n.len() <= 65535
    &&& forall|i: int| 0 <= i < n.len() ==> is_tchar(#[trigger] n[i])
}

/// Whether `c` may stand in a header value: not an ASCII control character
/// other than tab (every byte of a non-ASCII character is accepted).
pub open spec fn is_header_value_char(c: char) -> bool {
    ((c as u32) >= 32 && (c as u32) != 127) || c == '\t'
}

/// What `http` accepts as a header value given as a string.
pub open spec fn is_header_value(v: Seq<char>) -> bool {
    forall|i: int| 0 <= i < v.len() ==> is_header_value_char(#[trigger] v[i])
}

/// The text that `Uri::try_from(u)` of `http` gives as a URI (as its `Display`
/// writes it), or `None` where `u` does not parse.
pub uninterp spec fn uri_display(u: Seq<char>) -> Option<Seq<char>>;

/// The method of a request, as `Method::as_str` gives it.
pub uninterp spec fn req_method(r: wstd::http::Request<wstd::http::Body>) -> Seq<char>;

/// The URI of a request, as its `Display` writes it.
pub uninterp spec fn req_uri(r: wstd::http::Request<wstd::http::Body>) -> Seq<char>;

/// The header fields of a request: each name (as `HeaderName::as_str` gives it)
/// with the bytes of its value, as many times as the header map holds the pair.
pub uninterp spec fn req_fields(r: wstd::http::Request<wstd::http::Body>) -> Multiset<
    (Seq<char>, Seq<u8>),
>;

/// The bytes that the body of a request holds.
pub uninterp spec fn req_body(r: wstd::http::Request<wstd::http::Body>) -> Seq<u8>;

/// The bytes that a body holds.
pub uninterp spec fn body_data(b: wstd::http::Body) -> Seq<u8>;

/// Trusted: `Body::empty` of `wstd`, a body that holds no bytes.
#[verifier::external_body]
fn empty_body() -> (b: wstd::http::Body)
    ensures
        body_data(b) == Seq::<u8>::empty(),
{
    wstd::http::Body::empty()
}

/// Trusted: `Body::from(Vec<u8>)` of `wstd`, a body that holds the given bytes.
#[verifier::external_body]
fn body_from_bytes(bytes: Vec<u8>) -> (b: wstd::http::Body)
    ensures
        body_data(b) == bytes@,
{
    wstd::http::Body::from(bytes)
}

/// Trusted: `Request::new` of `http` (re-exported by `wstd`): a request with the
/// given body, the default method `GET`, the default URI `/` and no header field.
#[verifier::external_body]
fn new_request(body: wstd::http::Body) -> (r: wstd::http::Request<wstd::http::Body>)
    ensures
        req_method(r) == "GET"@,
        req_uri(r) == "/"@,
        req_fields(r) == Multiset::<(Seq<char>, Seq<u8>)>::empty(),
        req_body(r) == body_data(body),
{
    wstd::http::Request::new(body)
}

/// Trusted: `Method::try_from(&str)` of `http`, stored through `Request::method_mut`
/// (what `Builder::method` does). The text is accepted exactly when it is one or
/// more `tchar`s (the table `METHOD_CHARS`), and the method then reads back as the
/// same text; the error is converted into `http::Error` and leaves the request as
/// it was.
#[verifier::external_body]
fn set_method(r: &mut wstd::http::Request<wstd::http::Body>, m: &str) -> (res: Result<(), http::Error>)
    ensures
        res is Ok <==> is_method_token(m@),
        req_method(*final(r)) == if res is Ok { m@ } else { req_method(*old(r)) },
        req_uri(*final(r)) == req_uri(*old(r)),
        req_fields(*final(r)) == req_fields(*old(r)),
        req_body(*final(r)) == req_body(*old(r)),
{
    match wstd::http::Method::try_from(m) {
        Ok(v) => {
            *r.method_mut() = v;
            Ok(())
        },
        Err(e) => Err(e.into()),
    }
}

/// Trusted: `Uri::try_from(&str)` of `http`, stored through `Request::uri_mut` (what
/// `Builder::uri` does); the error is converted into `http::Error` and leaves the
/// request as it was.
#[verifier::external_body]
fn set_uri(r: &mut wstd::http::Request<wstd::http::Body>, u: &str) -> (res: Result<(), http::Error>)
    ensures
        res is Ok <==> uri_display(u@) is Some,
        req_uri(*final(r)) == match uri_display(u@) {
            Some(t) => t,
            None => req_uri(*old(r)),
        },
        req_method(*final(r)) == req_method(*old(r)),
        req_fields(*final(r)) == req_fields(*old(r)),
        req_body(*final(r)) == req_body(*old(r)),
{
    match wstd::http::Uri::try_from(u) {
        Ok(v) => {
            *r.uri_mut() = v;
            Ok(())
        },
        Err(e) => Err(e.into()),
    }
}

/// The characters of `s` with ASCII letters in lower case.
pub open spec fn lower_ascii(s: Seq<char>) -> Seq<char> {
    s.map_values(|c: char| crate::text::ascii_lower(c))
}

/// The distinct names among a request's header fields.
pub open spec fn field_names(m: Multiset<(Seq<char>, Seq<u8>)>) -> Set<Seq<char>> {
    m.dom().map(|p: (Seq<char>, Seq<u8>)| p.0)
}

/// Trusted: `HeaderName::try_from(&str)`, `HeaderValue::try_from(&str)` and
/// `HeaderMap::try_append` of `http`, through `Request::headers_mut` (what
/// `Builder::header` does), each error converted into `http::Error`.
///
/// The name is accepted exactly when it is 1 to 65535 `tchar`s and is stored in
/// lower case (the table `HEADER_CHARS`); the value is accepted exactly when no byte
/// is an ASCII control character other than tab, and is stored as its bytes. The map
/// refuses a field only when it would have to grow past its limit of `1 << 15`
/// slots, which a map holding fewer than 6554 distinct names never does, whatever
/// the name appended (it grows past `1 << 15` only from 6554 distinct names on,
/// `LOAD_FACTOR_THRESHOLD` being 5).
/// A refused field leaves the request as it was.
#[verifier::external_body]
fn append_header(r: &mut wstd::http::Request<wstd::http::Body>, n: &str, v: &str) -> (res: Result<
    (),
    http::Error,
>)
    ensures
        res is Ok ==> is_header_name(n@) && is_header_value(v@),
        is_header_name(n@) && is_header_value(v@) && field_names(req_fields(*old(r))).len() < 6554
            ==> res is Ok,
        req_fields(*final(r)) == if res is Ok {
            req_fields(*old(r)).insert((lower_ascii(n@), encode_utf8(v@)))
        } else {
            req_fields(*old(r))
        },
        req_method(*final(r)) == req_method(*old(r)),
        req_uri(*final(r)) == req_uri(*old(r)),
        req_body(*final(r)) == req_body(*old(r)),
{
    let name = match wstd::http::HeaderName::try_from(n) {
        Ok(x) => x,
        Err(e) => return Err(e.into()),
    };
    let value = match wstd::http::HeaderValue::try_from(v) {
        Ok(x) => x,
        Err(e) => return Err(e.into()),
    };
    match r.headers_mut().try_append(name, value) {
        Ok(_) => Ok(()),
        Err(e) => Err(e.into()),
    }
}

/// Whether every part of a read request is one that `http` accepts: the method,
/// the URI, and each header field's name and value.
pub open spec fn parts_accepted(p: RequestModel) -> bool {
    &&& is_method_token(p.method)
    &&& uri_display(p.uri) is Some
    &&& forall|i: int|
        0 <= i < p.headers.len() ==> is_header_name(#[trigger] p.headers[i].0) && is_header_value(
            p.headers[i].1,
        )
}

/// The header fields as the request's header map holds them: names in lower case,
/// values as bytes.
pub open spec fn field_multiset(hs: Seq<(Seq<char>, Seq<char>)>) -> Multiset<(Seq<char>, Seq<u8>)>
    decreases hs.len(),
{
    if hs.len() == 0 {
        Multiset::empty()
    } else {
        field_multiset(hs.drop_last()).insert((lower_ascii(hs.last().0), encode_utf8(hs.last().1)))
    }
}

/// The distinct header names of the fields, in lower case.
pub open spec fn header_names(hs: Seq<(Seq<char>, Seq<char>)>) -> Set<Seq<char>>
    decreases hs.len(),
{
    if hs.len() == 0 {
        Set::empty()
    } else {
        header_names(hs.drop_last()).insert(lower_ascii(hs.last().0))
    }
}

proof fn lemma_header_names(hs: Seq<(Seq<char>, Seq<char>)>)
    ensures
        header_names(hs).finite(),
        forall|n: Seq<char>|
            #[trigger] header_names(hs).contains(n) <==> exists|j: int|
                0 <= j < hs.len() && lower_ascii(#[trigger] hs[j].0) == n,
    decreases hs.len(),
{
    if hs.len() > 0 {
        lemma_header_names(hs.drop_last());
        assert forall|n: Seq<char>| #[trigger] header_names(hs).contains(n) <==> exists|j: int|
            0 <= j < hs.len() && lower_ascii(#[trigger] hs[j].0) == n by {
            if header_names(hs).contains(n) && n != lower_ascii(hs.last().0) {
                let j = choose|j: int|
                    0 <= j < hs.drop_last().len() && lower_ascii(#[trigger] hs.drop_last()[j].0)
                        == n;
                assert(hs[j] == hs.drop_last()[j]);
            }
            if header_names(hs).contains(n) && n == lower_ascii(hs.last().0) {
                assert(hs[hs.len() - 1] == hs.last());
            }
            if exists|j: int| 0 <= j < hs.len() && lower_ascii(#[trigger] hs[j].0) == n {
                let j = choose|j: int| 0 <= j < hs.len() && lower_ascii(#[trigger] hs[j].0) == n;
                if j < hs.len() - 1 {
                    assert(hs.drop_last()[j] == hs[j]);
                }
            }
        }
    }
}

/// The names of a prefix of the fields are no more than the names of all of them.
proof fn lemma_header_names_prefix(hs: Seq<(Seq<char>, Seq<char>)>, i: int)
    requires
        0 <= i <= hs.len(),
    ensures
        header_names(hs.take(i)).len() <= header_names(hs).len(),
{
    lemma_header_names(hs);
    lemma_header_names(hs.take(i));
    assert forall|n: Seq<char>| header_names(hs.take(i)).contains(n) implies header_names(
        hs,
    ).contains(n) by {
        let j = choose|j: int|
            0 <= j < hs.take(i).len() && lower_ascii(#[trigger] hs.take(i)[j].0) == n;
        assert(hs[j] == hs.take(i)[j]);
    }
    vstd::set_lib::lemma_len_subset(header_names(hs.take(i)), header_names(hs));
}

/// Appending a field adds its name to the distinct names.
proof fn lemma_field_names_insert(m: Multiset<(Seq<char>, Seq<u8>)>, p: (Seq<char>, Seq<u8>))
    ensures
        field_names(m.insert(p)) == field_names(m).insert(p.0),
{
    broadcast use vstd::multiset::group_multiset_axioms;

    assert forall|n: Seq<char>| #[trigger] field_names(m.insert(p)).contains(n) <==> field_names(
        m,
    ).insert(p.0).contains(n) by {
        if field_names(m.insert(p)).contains(n) {
            let q = choose|q: (Seq<char>, Seq<u8>)| m.insert(p).dom().contains(q) && q.0 == n;
            if q != p {
                assert(m.dom().contains(q));
            }
        }
        if field_names(m).contains(n) {
            let q = choose|q: (Seq<char>, Seq<u8>)| m.dom().contains(q) && q.0 == n;
            assert(m.insert(p).dom().contains(q));
        }
        if n == p.0 {
            assert(m.insert(p).dom().contains(p));
        }
    }
    assert(field_names(m.insert(p)) =~= field_names(m).insert(p.0));
}

/// The bytes of a read request's body (none where no body was announced).
pub open spec fn body_bytes(b: Option<Seq<u8>>) -> Seq<u8> {
    match b {
        Some(bytes) => bytes,
        None => Seq::empty(),
    }
}

/// Why a read request could not be built.
pub enum RequestError {
    /// `http` refused the method, the URI or a header field (the first of them that
    /// it refused), or its header map was full.
    Rejected(http::Error),
}

/// Builds the `http` request from the method, the URI, the header fields in order,
/// and the body (the empty body where none was announced).
///
/// A request with a part that `http` refuses is refused, with the error for the
/// first such part in that order. A request whose parts are all accepted is built
/// when its header fields have fewer than 6554 distinct names (in any case); the built request holds the method,
/// the URI as `http` parsed it, the fields and the body.
pub fn build_request(p: ParsedRequest) -> (r: Result<wstd::http::Request<wstd::http::Body>, RequestError>)
    ensures
        r is Ok ==> parts_accepted(p@),
        !parts_accepted(p@) ==> r is Err,
        parts_accepted(p@) && header_names(p@.headers).len() < 6554 ==> r is Ok,
        r matches Ok(req) ==> {
            &&& req_method(req) == p@.method
            &&& uri_display(p@.uri) == Some(req_uri(req))
            &&& req_fields(req) == field_multiset(p@.headers)
            &&& req_body(req) == body_bytes(p@.body)
        },
        r matches Ok(req) ==> match p.body {
            Some(b) => req_body(req) == b@,
            None => req_body(req) == Seq::<u8>::empty(),
        },
{
    let ghost model = p@;
    let ParsedRequest { method, uri, headers, body } = p;
    let body = match body {
        Some(bytes) => body_from_bytes(bytes),
        None => empty_body(),
    };
    let mut req = new_request(body);
    match set_method(&mut req, method.as_str()) {
        Ok(()) => {},
        Err(e) => return Err(RequestError::Rejected(e)),
    }
    match set_uri(&mut req, uri.as_str()) {
        Ok(()) => {},
        Err(e) => return Err(RequestError::Rejected(e)),
    }
    let mut i: usize = 0;
    assert(model.headers.take(0) =~= Seq::<(Seq<char>, Seq<char>)>::empty());
    while i < headers.len()
        invariant
            i <= headers@.len(),
            model == p@,
            model.headers == fields(headers@),
            is_method_token(model.method),
            uri_display(model.uri) is Some,
            req_method(req) == model.method,
            uri_display(model.uri) == Some(req_uri(req)),
            req_body(req) == body_bytes(model.body),
            req_fields(req) == field_multiset(model.headers.take(i as int)),
            field_names(req_fields(req)) == header_names(model.headers.take(i as int)),
            forall|j: int|
                0 <= j < i ==> is_header_name(#[trigger] model.headers[j].0) && is_header_value(
                    model.headers[j].1,
                ),
        decreases headers@.len() - i,
    {
        let (name, value) = &headers[i];
        assert(model.headers[i as int] == (name@, value@));
        assert(model.headers.take(i + 1).drop_last() =~= model.headers.take(i as int));
        match append_header(&mut req, name.as_str(), value.as_str()) {
            Ok(()) => {},
            Err(e) => {
                proof {
                    lemma_header_names_prefix(model.headers, i as int);
                    if header_names(model.headers).len() < 6554 {
                        assert(!(is_header_name(model.headers[i as int].0) && is_header_value(
                            model.headers[i as int].1,
                        )));
                    }
                }
                return Err(RequestError::Rejected(e));
            },
        }
        proof {
            lemma_field_names_insert(
                field_multiset(model.headers.take(i as int)),
                (lower_ascii(name@), encode_utf8(value@)),
            );
        }
        assert forall|j: int| 0 <= j < i + 1 implies is_header_name(
            #[trigger] model.headers[j].0,
        ) && is_header_value(model.headers[j].1) by {
            if j < i {
                assert(is_header_name(model.headers[j].0));
            }
        }
        i = i + 1;
    }
    assert(model.headers.take(headers@.len() as int) =~= model.headers);
    Ok(req)
}

// ---------------------------------------------------------------------------
// Writing a response
// ---------------------------------------------------------------------------

/// The reason phrase that `http` knows for a status code (`"OK"` for 200, ...), if any.
pub uninterp spec fn canonical_reason_of(code: u16) -> Option<Seq<char>>;

/// Trusted: `StatusCode::from_u16` and `StatusCode::canonical_reason` of `http`
/// (re-exported by `wstd`): the reason phrase that `http`'s table holds for the
/// code. The code must be one that a `StatusCode` holds (`from_u16` refuses the
/// others).
#[verifier::external_body]
fn canonical_reason(code: u16) -> (r: Option<&'static str>)
    requires
        100 <= code <= 999,
    ensures
        match r {
            Some(t) => canonical_reason_of(code) == Some(t@),
            None => canonical_reason_of(code) is None,
        },
{
    match wstd::http::StatusCode::from_u16(code) {
        Ok(status) => status.canonical_reason(),
        Err(_) => None,
    }
}

/// Whether `b` is a byte that `HeaderValue::to_str` accepts: visible ASCII or tab.
pub open spec fn is_visible_ascii(b: u8) -> bool {
    (32 <= b && b < 127) || b == 9
}

/// The text of a header value as `value.to_str().unwrap_or("")` gives it: the value
/// itself when every byte is visible ASCII or tab, else the empty text.
pub open spec fn header_value_text(v: Seq<u8>) -> Seq<char> {
    if forall|i: int| 0 <= i < v.len() ==> is_visible_ascii(#[trigger] v[i]) {
        v.map_values(|b: u8| b as char)
    } else {
        Seq::empty()
    }
}

/// A header value made only of visible ASCII bytes (space included) and tabs is
/// written as it is; one with any other byte is written empty.
pub proof fn lemma_header_value_written(v: Seq<u8>)
    ensures
        (forall|i: int| 0 <= i < v.len() ==> (0x20 <= #[trigger] v[i] <= 0x7e || v[i] == 9))
            ==> header_value_text(v).len() == v.len() && forall|i: int|
            0 <= i < v.len() ==> #[trigger] header_value_text(v)[i] == v[i] as char,
        (exists|i: int| 0 <= i < v.len() && !(0x20 <= #[trigger] v[i] <= 0x7e || v[i] == 9))
            ==> header_value_text(v) == Seq::<char>::empty(),
{
}

/// One more header field adds exactly its line `name: value\r\n` to the header
/// lines, the value verbatim when it is visible ASCII (space included) or tab.
pub proof fn lemma_header_line_written(hs: Seq<(Seq<char>, Seq<u8>)>, name: Seq<char>, v: Seq<u8>)
    requires
        forall|i: int| 0 <= i < v.len() ==> (0x20 <= #[trigger] v[i] <= 0x7e || v[i] == 9),
    ensures
        header_lines_text(hs.push((name, v))) == header_lines_text(hs) + name + ": "@ + v.map_values(
            |b: u8| b as char,
        ) + "\r\n"@,
{
    assert(hs.push((name, v)).drop_last() =~= hs);
}

/// The header lines of a response, one `name: value\r\n` per field, in order.
pub open spec fn header_lines_text(headers: Seq<(Seq<char>, Seq<u8>)>) -> Seq<char>
    decreases headers.len(),
{
    if headers.len() == 0 {
        Seq::empty()
    } else {
        header_lines_text(headers.drop_last()) + headers.last().0 + ": "@ + header_value_text(
            headers.last().1,
        ) + "\r\n"@
    }
}

/// Whether one of the fields is named `content-length`.
pub open spec fn has_content_length(headers: Seq<(Seq<char>, Seq<u8>)>) -> bool {
    exists|i: int| 0 <= i < headers.len() && #[trigger] headers[i].0 == content_length_name()
}

/// The head of a response: the status line (with `"OK"` where no reason phrase is
/// known), the header lines, a `Content-Length` line with the body's length where the
/// fields hold none, and the blank line.
pub open spec fn response_head(
    status: u16,
    reason: Option<Seq<char>>,
    headers: Seq<(Seq<char>, Seq<u8>)>,
    body_len: nat,
) -> Seq<char> {
    let status_line = "HTTP/1.1 "@ + crate::text::decimal(status as nat) + " "@ + match reason {
        Some(r) => r,
        None => "OK"@,
    } + "\r\n"@;
    let length_line = if has_content_length(headers) {
        Seq::empty()
    } else {
        "Content-Length: "@ + crate::text::decimal(body_len) + "\r\n"@
    };
    status_line + header_lines_text(headers) + length_line + "\r\n"@
}

/// The header fields held by a vector of names and raw values.
pub open spec fn raw_fields(v: Seq<(String, Vec<u8>)>) -> Seq<(Seq<char>, Seq<u8>)> {
    v.map_values(|p: (String, Vec<u8>)| (p.0@, p.1@))
}

/// The bytes of an HTTP/1.1 response: its head in UTF-8, then the body.
pub open spec fn response_bytes_spec(
    status: u16,
    headers: Seq<(Seq<char>, Seq<u8>)>,
    body: Seq<u8>,
) -> Seq<u8> {
    encode_utf8(response_head(status, canonical_reason_of(status), headers, body.len())) + body
}

/// Appends `header_value_text(v)` to `s`.
fn push_header_value(s: &mut String, v: &Vec<u8>)
    ensures
        final(s)@ == old(s)@ + header_value_text(v@),
{
    let mut i: usize = 0;
    while i < v.len()
        invariant
            i <= v@.len(),
            forall|j: int| 0 <= j < i ==> is_visible_ascii(#[trigger] v@[j]),
        decreases v@.len() - i,
    {
        let b = v[i];
        if !((32u8 <= b && b < 127u8) || b == 9u8) {
            assert(!is_visible_ascii(v@[i as int]));
            return;
        }
        i = i + 1;
    }
    let mut k: usize = 0;
    while k < v.len()
        invariant
            k <= v@.len(),
            forall|j: int| 0 <= j < v@.len() ==> is_visible_ascii(#[trigger] v@[j]),
            s@ == old(s)@ + v@.take(k as int).map_values(|b: u8| b as char),
        decreases v@.len() - k,
    {
        crate::text::push_char(s, v[k] as char);
        k = k + 1;
        assert(v@.take(k as int).map_values(|b: u8| b as char) =~= v@.take(k - 1).map_values(
            |b: u8| b as char,
        ).push(v@[k - 1] as char));
    }
    assert(v@.take(v@.len() as int) =~= v@);
}

/// The response as HTTP/1.1 bytes, as `write_response` writes it: `status` is the
/// status code, `headers` the fields in the order the header map yields them (names
/// in lower case, values as raw bytes), `body` the body.
pub fn response_bytes(status: u16, headers: &Vec<(String, Vec<u8>)>, body: &[u8]) -> (out: Vec<u8>)
    requires
        100 <= status <= 999,
    ensures
        out@ == response_bytes_spec(status, raw_fields(headers@), body@),
{
    let ghost hs = raw_fields(headers@);
    let mut text = String::new();
    text.append("HTTP/1.1 ");
    crate::text::push_decimal(&mut text, status as u64);
    text.append(" ");
    match canonical_reason(status) {
        Some(r) => text.append(r),
        None => text.append("OK"),
    }
    text.append("\r\n");
    let ghost status_line = text@;
    assert(status_line =~= "HTTP/1.1 "@ + crate::text::decimal(status as nat) + " "@ + match canonical_reason_of(status) {
        Some(r) => r,
        None => "OK"@,
    } + "\r\n"@);
    let cl_name = chars_of("content-length");
    proof {
        reveal_strlit("content-length");
    }
    assert(cl_name@ == content_length_name());
    let mut has_cl = false;
    let mut i: usize = 0;
    while i < headers.len()
        invariant
            i <= headers@.len(),
            hs == raw_fields(headers@),
            cl_name@ == content_length_name(),
            text@ == status_line + header_lines_text(hs.take(i as int)),
            has_cl == exists|j: int| 0 <= j < i && #[trigger] hs[j].0 == content_length_name(),
        decreases headers@.len() - i,
    {
        let (name, value) = &headers[i];
        assert(hs[i as int] == (name@, value@));
        text.append(name.as_str());
        text.append(": ");
        push_header_value(&mut text, value);
        text.append("\r\n");
        let name_chars = chars_of(name.as_str());
        let is_cl = crate::text::chars_equal(&name_chars, &cl_name);
        proof {
            let before = exists|j: int| 0 <= j < i && #[trigger] hs[j].0 == content_length_name();
            let after = exists|j: int|
                0 <= j < i + 1 && #[trigger] hs[j].0 == content_length_name();
            if before {
                let j = choose|j: int| 0 <= j < i && #[trigger] hs[j].0 == content_length_name();
                assert(0 <= j < i + 1 && hs[j].0 == content_length_name());
            }
            if is_cl {
                assert(hs[i as int].0 == content_length_name());
            }
            assert(after == (before || is_cl));
        }
        has_cl = has_cl || is_cl;
        assert(hs.take(i + 1).drop_last() =~= hs.take(i as int));
        i = i + 1;
    }
    assert(hs.take(headers@.len() as int) =~= hs);
    assert(has_cl == has_content_length(hs));
    if !has_cl {
        text.append("Content-Length: ");
        crate::text::push_decimal(&mut text, body.len() as u64);
        text.append("\r\n");
    }
    text.append("\r\n");
    assert(text@ =~= response_head(status, canonical_reason_of(status), hs, body@.len()));
    let mut out = vstd::slice::slice_to_vec(text.as_str().as_bytes());
    out.extend_from_slice(body);
    assert(out@ =~= encode_utf8(text@) + body@);
    out
}

} // verus!
