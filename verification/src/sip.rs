//! Parsers for whole SIP messages: the message head (start line and header
//! lines) read from bytes, and the start line itself, read as a request line
//! or a status line.
//!
//! The byte parsers read a stream that may go on: where the bytes end before
//! they can decide, they answer `ParseError::Incomplete`.
use vstd::prelude::*;
use vstd::utf8::{valid_utf8, decode_utf8};
use std::collections::VecDeque;
use indexmap::IndexMap;

use crate::scan::{
    ParseError, ErrorKind, TagMatch, ByteClass, CharClass, tag_match, stream_tag_error,
    byte_span, lemma_byte_span, byte_span_end, find_crlf, lemma_find_crlf, find_crlf_from,
    utf8_slice, tag_byte_pair, span, find, bounded_value, span_end, find_char, chars_of,
    slice_chars, unsigned_at, lemma_span, lemma_find, agrees,
};

verus! {

/// The bytes that may stand in a header name: visible ASCII other than `:`.
pub open spec fn spec_valid_header_name_char(c: u8) -> bool {
    c != 58 && 32 < c <= 126
}

/// Whether `c` may stand in a header name.
pub fn valid_header_name_char(c: u8) -> (r: bool)
    ensures
        r == spec_valid_header_name_char(c),
{
    c != 58 && c > 32 && c <= 126
}

/// Space or horizontal tab.
pub fn is_space(chr: u8) -> (r: bool)
    ensures
        r == (chr == 32 || chr == 9),
{
    chr == 32 || chr == 9
}

/// A byte parser's result agrees with what the grammar gives for the bytes
/// `s`: the same value (by view) and the bytes after the consumed prefix as
/// what is left, or the same error.
pub open spec fn agrees_bytes<T: DeepView>(
    r: Result<(&[u8], T), ParseError>,
    s: Seq<u8>,
    expected: Result<(int, T::V), ParseError>,
) -> bool {
    match (r, expected) {
        (Ok((rest, v)), Ok((n, w))) => rest@ == s.skip(n) && v.deep_view() == w,
        (Err(e), Err(f)) => e == f,
        _ => false,
    }
}

/// One header line, as text: `(name, value)`.
pub type SpecHeader = (Seq<char>, Seq<char>);

/// The grammar of a header line at position `p`: a name of visible ASCII
/// other than `:`, then `:`, spaces and tabs, and the value up to the first
/// `CR LF`, which is consumed. Name and value must be UTF-8.
pub open spec fn spec_header_at(s: Seq<u8>, p: int) -> Result<(int, SpecHeader), ParseError> {
    let e1 = byte_span(s, p, ByteClass::HeaderName);
    if e1 >= s.len() {
        Err(ParseError::Incomplete)
    } else if !valid_utf8(s.subrange(p, e1)) {
        Err(ParseError::Error(ErrorKind::MapRes))
    } else if s[e1] != 58 {
        Err(ParseError::Error(ErrorKind::Tag))
    } else {
        let e2 = byte_span(s, e1 + 1, ByteClass::Space);
        if e2 >= s.len() {
            Err(ParseError::Incomplete)
        } else {
            match find_crlf(s, e2) {
                None => Err(ParseError::Incomplete),
                Some(e3) => if !valid_utf8(s.subrange(e2, e3)) {
                    Err(ParseError::Error(ErrorKind::MapRes))
                } else {
                    Ok(
                        (
                            e3 + 2,
                            (decode_utf8(s.subrange(p, e1)), decode_utf8(s.subrange(e2, e3))),
                        ),
                    )
                },
            }
        }
    }
}

/// A header line always consumes something, and no more than the bytes.
pub proof fn lemma_header_advances(s: Seq<u8>, p: int)
    ensures
        spec_header_at(s, p) matches Ok((q, _)) ==> p < q <= s.len(),
{
    if spec_header_at(s, p) is Ok {
        lemma_byte_span(s, p, ByteClass::HeaderName);
        let e1 = byte_span(s, p, ByteClass::HeaderName);
        lemma_byte_span(s, e1 + 1, ByteClass::Space);
        let e2 = byte_span(s, e1 + 1, ByteClass::Space);
        lemma_find_crlf(s, e2);
    }
}

fn header_at<'a>(s: &'a [u8], p: usize) -> (r: Result<(usize, (&'a str, &'a str)), ParseError>)
    requires
        p <= s@.len(),
    ensures
        match (r, spec_header_at(s@, p as int)) {
            (Ok((q, (n, v))), Ok((q2, (n2, v2)))) => q == q2 && n@ == n2 && v@ == v2,
            (Err(e), Err(f)) => e == f,
            _ => false,
        },
{
    let e1 = byte_span_end(s, p, ByteClass::HeaderName);
    proof {
        lemma_byte_span(s@, p as int, ByteClass::HeaderName);
    }
    if e1 >= s.len() {
        return Err(ParseError::Incomplete);
    }
    let name = match utf8_slice(s, p, e1) {
        Some(t) => t,
        None => {
            return Err(ParseError::Error(ErrorKind::MapRes));
        },
    };
    if s[e1] != 58 {
        return Err(ParseError::Error(ErrorKind::Tag));
    }
    let e2 = byte_span_end(s, e1 + 1, ByteClass::Space);
    proof {
        lemma_byte_span(s@, e1 + 1, ByteClass::Space);
    }
    if e2 >= s.len() {
        return Err(ParseError::Incomplete);
    }
    let e3 = match find_crlf_from(s, e2) {
        Some(e3) => e3,
        None => {
            return Err(ParseError::Incomplete);
        },
    };
    proof {
        lemma_find_crlf(s@, e2 as int);
    }
    let value = match utf8_slice(s, e2, e3) {
        Some(t) => t,
        None => {
            return Err(ParseError::Error(ErrorKind::MapRes));
        },
    };
    Ok((e3 + 2, (name, value)))
}

/// Parses one header line `Name: value CR LF`.
pub fn parse_header<'a>(i: &'a [u8]) -> (r: Result<(&'a [u8], (&'a str, &'a str)), ParseError>)
    ensures
        agrees_bytes(r, i@, spec_header_at(i@, 0)),
{
    match header_at(i, 0) {
        Ok((q, h)) => {
            proof {
                lemma_header_advances(i@, 0);
            }
            Ok((&i[q..i.len()], h))
        },
        Err(e) => Err(e),
    }
}

/// The header lines from position `p` on: as many as parse, one after
/// another. A line that cannot parse ends the list; one that needs more bytes
/// makes the whole answer `Incomplete`.
pub open spec fn spec_header_lines(s: Seq<u8>, p: int) -> Result<(int, Seq<SpecHeader>), ParseError>
    decreases s.len() - p,
{
    match spec_header_at(s, p) {
        Ok((q, h)) => {
            proof {
                lemma_header_advances(s, p);
            }
            match spec_header_lines(s, q) {
                Ok((r, hs)) => Ok((r, seq![h] + hs)),
                Err(e) => Err(e),
            }
        },
        Err(ParseError::Incomplete) => Err(ParseError::Incomplete),
        Err(_) => Ok((p, seq![])),
    }
}

/// The headers of a message grouped by name: `(name, values)` for each name,
/// in the order in which names first appear, with the values in the order of
/// their lines.
pub type SpecHeaderMap = Seq<(Seq<char>, Seq<Seq<char>>)>;

/// The first entry of `es` whose name is `k`.
pub open spec fn key_position(es: SpecHeaderMap, k: Seq<char>) -> Option<int>
    decreases es.len(),
{
    if es.len() == 0 {
        None
    } else {
        match key_position(es.drop_last(), k) {
            Some(i) => Some(i),
            None => if es.last().0 == k {
                Some(es.len() - 1)
            } else {
                None
            },
        }
    }
}

/// Adds the header lines one after another: a value is appended to the entry
/// of its name, or starts a new entry at the end.
pub open spec fn group_headers(hs: Seq<SpecHeader>) -> SpecHeaderMap
    decreases hs.len(),
{
    if hs.len() == 0 {
        seq![]
    } else {
        add_header_line(group_headers(hs.drop_last()), hs.last().0, hs.last().1)
    }
}

/// The text of each value in a list.
pub open spec fn deque_view(d: VecDeque<&str>) -> Seq<Seq<char>> {
    d@.map_values(|t: &str| t@)
}

/// The map of the `indexmap` crate that holds a message's headers, declared
/// so that it can stand in signatures and fields. Its contents are known only
/// through `header_entries`.
#[verifier::external_type_specification]
#[verifier::external_body]
#[verifier::reject_recursive_types(K)]
#[verifier::reject_recursive_types(V)]
#[verifier::reject_recursive_types(S)]
pub struct ExIndexMap<K, V, S>(IndexMap<K, V, S>);

/// The entries of a header map in their order: each name with the text of
/// its values.
pub uninterp spec fn header_entries(m: IndexMap<&str, VecDeque<&str>>) -> SpecHeaderMap;

/// `IndexMap::new`: a map with no entries.
#[verifier::external_body]
fn header_map_new<'a>() -> (m: IndexMap<&'a str, VecDeque<&'a str>>)
    ensures
        header_entries(m) == Seq::<(Seq<char>, Seq<Seq<char>>)>::empty(),
{
    IndexMap::new()
}

/// `IndexMap::insert`: where the map holds the key, the value of that entry
/// is replaced in place and the old value returned; otherwise the pair is
/// added last and `None` returned (as the crate documents). A map holds each
/// key once, and two `&str` keys are equal where their text is.
#[verifier::external_body]
fn header_map_insert<'a>(
    m: &mut IndexMap<&'a str, VecDeque<&'a str>>,
    k: &'a str,
    v: VecDeque<&'a str>,
) -> (r: Option<VecDeque<&'a str>>)
    ensures
        match key_position(header_entries(*old(m)), k@) {
            Some(j) => {
                &&& r matches Some(o) && deque_view(o) == header_entries(*old(m))[j].1
                &&& header_entries(*final(m)) == header_entries(*old(m)).update(
                    j,
                    (k@, deque_view(v)),
                )
            },
            None => {
                &&& r is None
                &&& header_entries(*final(m)) == header_entries(*old(m)).push((k@, deque_view(v)))
            },
        },
{
    m.insert(k, v)
}

/// Where two header maps name the same entries in the same order, a name
/// stands at the same entry in both.
pub proof fn lemma_key_position_same_names(a: SpecHeaderMap, b: SpecHeaderMap, k: Seq<char>)
    requires
        a.len() == b.len(),
        forall|i: int| 0 <= i < a.len() ==> (#[trigger] a[i]).0 == b[i].0,
    ensures
        key_position(a, k) == key_position(b, k),
    decreases a.len(),
{
    if a.len() > 0 {
        lemma_key_position_same_names(a.drop_last(), b.drop_last(), k);
    }
}

/// `key_position` finds an entry with the name, or there is none.
pub proof fn lemma_key_position(es: SpecHeaderMap, k: Seq<char>)
    ensures
        key_position(es, k) matches Some(i) ==> 0 <= i < es.len() && es[i].0 == k,
        key_position(es, k) is None ==> forall|i: int| 0 <= i < es.len() ==> (#[trigger] es[i]).0 != k,
    decreases es.len(),
{
    if es.len() > 0 {
        lemma_key_position(es.drop_last(), k);
        if key_position(es, k) is None {
            assert forall|i: int| 0 <= i < es.len() implies (#[trigger] es[i]).0 != k by {
                if i < es.len() - 1 {
                    assert(es.drop_last()[i] == es[i]);
                }
            }
        }
    }
}

/// The header map after one more line `name: value`.
pub open spec fn add_header_line(g: SpecHeaderMap, name: Seq<char>, value: Seq<char>) -> SpecHeaderMap {
    match key_position(g, name) {
        Some(i) => g.update(i, (name, g[i].1.push(value))),
        None => g.push((name, seq![value])),
    }
}

/// Adds one header line to a header map.
fn add_header<'a>(m: &mut IndexMap<&'a str, VecDeque<&'a str>>, name: &'a str, value: &'a str)
    ensures
        header_entries(*final(m)) == add_header_line(header_entries(*old(m)), name@, value@),
{
    let ghost g = header_entries(*m);
    proof {
        lemma_key_position(g, name@);
    }
    let fresh: VecDeque<&'a str> = VecDeque::new();
    assert(deque_view(fresh) =~= Seq::<Seq<char>>::empty());
    let mut list = match header_map_insert(m, name, fresh) {
        Some(l) => l,
        None => VecDeque::new(),
    };
    let ghost before = deque_view(list);
    list.push_back(value);
    assert(deque_view(list) =~= before.push(value@));
    let ghost mid = header_entries(*m);
    proof {
        match key_position(g, name@) {
            Some(i) => {
                lemma_key_position_same_names(mid, g, name@);
            },
            None => {
                assert(mid.drop_last() =~= g);
            },
        }
    }
    header_map_insert(m, name, list);
    proof {
        match key_position(g, name@) {
            Some(i) => {
                assert(header_entries(*m) =~= g.update(i, (name@, g[i].1.push(value@))));
            },
            None => {
                assert(header_entries(*m) =~= g.push((name@, seq![value@])));
            },
        }
    }
}

/// The head of a SIP message: the start line, and the header values grouped
/// by name in the order in which the names first appear.
#[derive(Debug, PartialEq)]
pub struct Message<'a> {
    pub startline: &'a str,
    pub headers: IndexMap<&'a str, VecDeque<&'a str>>,
}

/// A message head as text.
pub struct SpecMessage {
    pub startline: Seq<char>,
    pub headers: SpecHeaderMap,
}

impl<'a> DeepView for Message<'a> {
    type V = SpecMessage;

    open spec fn deep_view(&self) -> SpecMessage {
        SpecMessage { startline: self.startline@, headers: header_entries(self.headers) }
    }
}

/// The grammar of a message head: an optional empty line, the start line up
/// to `CR LF`, the header lines, then the empty line that ends the head. What
/// follows (the body) is left unread.
pub open spec fn spec_message(s: Seq<u8>) -> Result<(int, SpecMessage), ParseError> {
    let m0 = tag_match(s, 0, seq![13u8, 10u8]);
    if m0 == TagMatch::Short {
        Err(ParseError::Incomplete)
    } else {
        let p = if m0 == TagMatch::Matched {
            2
        } else {
            0
        };
        match find_crlf(s, p) {
            None => Err(ParseError::Incomplete),
            Some(e) => if !valid_utf8(s.subrange(p, e)) {
                Err(ParseError::Error(ErrorKind::MapRes))
            } else {
                match spec_header_lines(s, e + 2) {
                    Err(err) => Err(err),
                    Ok((r, hs)) => {
                        let m = tag_match(s, r, seq![13u8, 10u8]);
                        if m == TagMatch::Matched {
                            Ok(
                                (
                                    r + 2,
                                    SpecMessage {
                                        startline: decode_utf8(s.subrange(p, e)),
                                        headers: group_headers(hs),
                                    },
                                ),
                            )
                        } else {
                            Err(stream_tag_error(m))
                        }
                    },
                }
            },
        }
    }
}

/// Parses the head of a SIP message: start line and header lines, up to and
/// including the empty line that ends them.
pub fn parse<'a>(i: &'a [u8]) -> (r: Result<(&'a [u8], Message<'a>), ParseError>)
    ensures
        agrees_bytes(r, i@, spec_message(i@)),
{
    let m0 = tag_byte_pair(i, 0, 13, 10);
    if m0 == TagMatch::Short {
        return Err(ParseError::Incomplete);
    }
    let p: usize = if m0 == TagMatch::Matched {
        2
    } else {
        0
    };
    let e = match find_crlf_from(i, p) {
        Some(e) => e,
        None => {
            return Err(ParseError::Incomplete);
        },
    };
    proof {
        lemma_find_crlf(i@, p as int);
    }
    assert(e + 2 <= i@.len() == i.len());
    let startline = match utf8_slice(i, p, e) {
        Some(t) => t,
        None => {
            return Err(ParseError::Error(ErrorKind::MapRes));
        },
    };
    let mut headers = header_map_new();
    let mut q = e + 2;
    let ghost mut done: Seq<SpecHeader> = seq![];
    loop
        invariant
            e + 2 <= q <= i@.len(),
            spec_header_lines(i@, e + 2) == match spec_header_lines(i@, q as int) {
                Ok((r, hs)) => Ok((r, done + hs)),
                Err(x) => Err(x),
            },
            header_entries(headers) == group_headers(done),
            m0 == tag_match(i@, 0, seq![13u8, 10u8]),
            m0 != TagMatch::Short,
            p == (if m0 == TagMatch::Matched { 2int } else { 0int }),
            find_crlf(i@, p as int) == Some(e as int),
            valid_utf8(i@.subrange(p as int, e as int)),
            startline@ == decode_utf8(i@.subrange(p as int, e as int)),
        ensures
            e + 2 <= q <= i@.len(),
            spec_header_lines(i@, e + 2) == Ok::<(int, Seq<SpecHeader>), ParseError>(
                (q as int, done),
            ),
            header_entries(headers) == group_headers(done),
        decreases i@.len() - q,
    {
        match header_at(i, q) {
            Ok((q2, (name, value))) => {
                proof {
                    lemma_header_advances(i@, q as int);
                }
                add_header(&mut headers, name, value);
                proof {
                    let h = (name@, value@);
                    assert(done.push(h).drop_last() =~= done);
                    match spec_header_lines(i@, q2 as int) {
                        Ok((r, hs)) => {
                            assert(done + (seq![h] + hs) =~= done.push(h) + hs);
                        },
                        Err(x) => {},
                    }
                    done = done.push(h);
                }
                q = q2;
            },
            Err(ParseError::Incomplete) => {
                assert(spec_header_lines(i@, q as int) == Err::<(int, Seq<SpecHeader>), ParseError>(
                    ParseError::Incomplete,
                ));
                return Err(ParseError::Incomplete);
            },
            Err(_) => {
                assert(done + seq![] =~= done);
                break ;
            },
        }
    }
    let m = tag_byte_pair(i, q, 13, 10);
    assert(i@.len() == i.len());
    if m == TagMatch::Matched {
        Ok((&i[q + 2..i.len()], Message { startline, headers }))
    } else if m == TagMatch::Short {
        Err(ParseError::Incomplete)
    } else {
        Err(ParseError::Error(ErrorKind::Tag))
    }
}

/// The start line of a request: `method uri version`.
#[derive(Debug, PartialEq, Eq)]
pub struct RequestLine<'a> {
    pub method: &'a str,
    pub uri: &'a str,
    pub version: &'a str,
}

/// A request line as text.
pub struct SpecRequestLine {
    pub method: Seq<char>,
    pub uri: Seq<char>,
    pub version: Seq<char>,
}

impl<'a> DeepView for RequestLine<'a> {
    type V = SpecRequestLine;

    open spec fn deep_view(&self) -> SpecRequestLine {
        SpecRequestLine { method: self.method@, uri: self.uri@, version: self.version@ }
    }
}

/// The grammar of a request line: the method up to the first space, the URI
/// up to the next space, then the version as a run of visible characters.
pub open spec fn spec_request_line(s: Seq<char>) -> Result<(int, SpecRequestLine), ParseError> {
    match find(s, 0, ' ') {
        None => Err(ParseError::Error(ErrorKind::TakeUntilAndConsume)),
        Some(a) => match find(s, a + 1, ' ') {
            None => Err(ParseError::Error(ErrorKind::TakeUntilAndConsume)),
            Some(b) => {
                let c = span(s, b + 1, CharClass::VChar);
                Ok(
                    (
                        c,
                        SpecRequestLine {
                            method: s.subrange(0, a),
                            uri: s.subrange(a + 1, b),
                            version: s.subrange(b + 1, c),
                        },
                    ),
                )
            },
        },
    }
}

/// Parses a request line.
pub fn parse_request_line<'a>(i: &'a str) -> (r: Result<(&'a str, RequestLine<'a>), ParseError>)
    ensures
        agrees(r, i@, spec_request_line(i@)),
{
    let cs = chars_of(i);
    let a = match find_char(&cs, 0, ' ') {
        Some(a) => a,
        None => {
            return Err(ParseError::Error(ErrorKind::TakeUntilAndConsume));
        },
    };
    proof {
        lemma_find(i@, 0, ' ');
    }
    let b = match find_char(&cs, a + 1, ' ') {
        Some(b) => b,
        None => {
            return Err(ParseError::Error(ErrorKind::TakeUntilAndConsume));
        },
    };
    proof {
        lemma_find(i@, a + 1, ' ');
    }
    let c = span_end(&cs, b + 1, CharClass::VChar);
    proof {
        lemma_span(i@, b + 1, CharClass::VChar);
    }
    let line = RequestLine {
        method: slice_chars(i, 0, a),
        uri: slice_chars(i, a + 1, b),
        version: slice_chars(i, b + 1, c),
    };
    Ok((slice_chars(i, c, cs.len()), line))
}

impl<'a> RequestLine<'a> {
    /// Parses a request line.
    pub fn parse(data: &'a str) -> (r: Result<(&'a str, RequestLine<'a>), ParseError>)
        ensures
            agrees(r, data@, spec_request_line(data@)),
    {
        parse_request_line(data)
    }
}

/// The start line of a response: `version code message`.
#[derive(Debug, PartialEq, Eq)]
pub struct StatusLine<'a> {
    pub code: u32,
    pub message: &'a str,
    pub version: &'a str,
}

/// A status line as text, with its code as a number.
pub struct SpecStatusLine {
    pub code: u32,
    pub message: Seq<char>,
    pub version: Seq<char>,
}

impl<'a> DeepView for StatusLine<'a> {
    type V = SpecStatusLine;

    open spec fn deep_view(&self) -> SpecStatusLine {
        SpecStatusLine { code: self.code, message: self.message@, version: self.version@ }
    }
}

/// The grammar of a status line: the version up to the first space, the code
/// up to the next space (an unsigned decimal that fits in a `u32`, with an
/// optional `+`), then the message as a run of visible characters.
pub open spec fn spec_status_line(s: Seq<char>) -> Result<(int, SpecStatusLine), ParseError> {
    match find(s, 0, ' ') {
        None => Err(ParseError::Error(ErrorKind::TakeUntilAndConsume)),
        Some(a) => match find(s, a + 1, ' ') {
            None => Err(ParseError::Error(ErrorKind::TakeUntilAndConsume)),
            Some(b) => match bounded_value(s.subrange(a + 1, b), u32::MAX as int) {
                None => Err(ParseError::Error(ErrorKind::MapRes)),
                Some(code) => {
                    let c = span(s, b + 1, CharClass::VChar);
                    Ok(
                        (
                            c,
                            SpecStatusLine {
                                code: code as u32,
                                message: s.subrange(b + 1, c),
                                version: s.subrange(0, a),
                            },
                        ),
                    )
                },
            },
        },
    }
}

/// Parses a status line.
pub fn parse_status_line<'a>(i: &'a str) -> (r: Result<(&'a str, StatusLine<'a>), ParseError>)
    ensures
        agrees(r, i@, spec_status_line(i@)),
{
    let cs = chars_of(i);
    let a = match find_char(&cs, 0, ' ') {
        Some(a) => a,
        None => {
            return Err(ParseError::Error(ErrorKind::TakeUntilAndConsume));
        },
    };
    proof {
        lemma_find(i@, 0, ' ');
    }
    let b = match find_char(&cs, a + 1, ' ') {
        Some(b) => b,
        None => {
            return Err(ParseError::Error(ErrorKind::TakeUntilAndConsume));
        },
    };
    proof {
        lemma_find(i@, a + 1, ' ');
    }
    let code = match unsigned_at(&cs, a + 1, b, 4294967295) {
        Some(v) => v as u32,
        None => {
            return Err(ParseError::Error(ErrorKind::MapRes));
        },
    };
    let c = span_end(&cs, b + 1, CharClass::VChar);
    proof {
        lemma_span(i@, b + 1, CharClass::VChar);
    }
    let line = StatusLine {
        code,
        message: slice_chars(i, b + 1, c),
        version: slice_chars(i, 0, a),
    };
    Ok((slice_chars(i, c, cs.len()), line))
}

impl<'a> StatusLine<'a> {
    /// Parses a status line.
    pub fn parse(data: &'a str) -> (r: Result<(&'a str, StatusLine<'a>), ParseError>)
        ensures
            agrees(r, data@, spec_status_line(data@)),
    {
        parse_status_line(data)
    }
}

} // verus!
