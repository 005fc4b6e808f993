//! Scanning primitives shared by the SIP grammars: the error type, prefix
//! matching, spans of characters of one class, searches for a delimiter and
//! unsigned decimal numbers.
use vstd::prelude::*;
use vstd::string::{StrSliceExecFns, StringSliceAdditionalSpecFns};
use vstd::utf8::{valid_utf8, decode_utf8, encode_utf8_decode_utf8};

use crate::header::{is_vchar, not_address_end, not_uri_end, testat};
use crate::sip::{valid_header_name_char, is_space};

verus! {

/// What kind of check refused the input.
#[derive(Debug, Clone, Copy, PartialEq, Eq, Structural)]
pub enum ErrorKind {
    /// A fixed piece of text was expected and something else stood there.
    Tag,
    /// A fixed piece of text was expected and the input ended before it.
    Eof,
    /// A delimiter that ends a field (and is consumed) was not found.
    TakeUntilAndConsume,
    /// A field was found but its text could not be converted (not UTF-8,
    /// or not a number that fits).
    MapRes,
}

/// Why a parser did not produce a value.
#[derive(Debug, Clone, Copy, PartialEq, Eq, Structural)]
pub enum ParseError {
    /// The input is a proper prefix of something that could still parse:
    /// more bytes are needed to decide.
    Incomplete,
    /// The input can never parse.
    Error(ErrorKind),
}

/// A parser's result agrees with what the grammar gives for the text `s`:
/// the same value (by view) and the text after the consumed prefix as what
/// is left, or the same error.
pub open spec fn agrees<T: DeepView>(
    r: Result<(&str, T), ParseError>,
    s: Seq<char>,
    expected: Result<(int, T::V), ParseError>,
) -> bool {
    match (r, expected) {
        (Ok((rest, v)), Ok((n, w))) => rest@ == s.skip(n) && v.deep_view() == w,
        (Err(e), Err(f)) => e == f,
        _ => false,
    }
}

/// The same, for a parser that starts at position `p` of `s` and reports the
/// position where it stopped.
pub open spec fn agrees_at<T: DeepView>(
    r: Result<(usize, T), ParseError>,
    expected: Result<(int, T::V), ParseError>,
) -> bool {
    match (r, expected) {
        (Ok((q, v)), Ok((n, w))) => q == n && v.deep_view() == w,
        (Err(e), Err(f)) => e == f,
        _ => false,
    }
}

/// How an input position compares with an expected piece of text.
#[derive(Debug, Clone, Copy, PartialEq, Eq, Structural)]
pub enum TagMatch {
    Matched,
    /// Some character differs.
    Mismatch,
    /// No character differs, but the input ends too early.
    Short,
}

/// Compares `s` from position `p` with `t`, as far as both go.
pub open spec fn tag_match<A>(s: Seq<A>, p: int, t: Seq<A>) -> TagMatch {
    if exists|i: int| 0 <= i < t.len() && p + i < s.len() && s[p + i] != t[i] {
        TagMatch::Mismatch
    } else if s.len() < p + t.len() {
        TagMatch::Short
    } else {
        TagMatch::Matched
    }
}

/// The error that a failed piece of fixed text gives where the input is
/// complete text.
pub open spec fn text_tag_error(m: TagMatch) -> ParseError {
    if m == TagMatch::Short {
        ParseError::Error(ErrorKind::Eof)
    } else {
        ParseError::Error(ErrorKind::Tag)
    }
}

/// The error that a failed piece of fixed text gives where the input is a
/// stream of bytes that may go on.
pub open spec fn stream_tag_error(m: TagMatch) -> ParseError {
    if m == TagMatch::Short {
        ParseError::Incomplete
    } else {
        ParseError::Error(ErrorKind::Tag)
    }
}

/// Compares position `p` of `cs` with the character `c`.
pub fn tag_char(cs: &Vec<char>, p: usize, c: char) -> (r: TagMatch)
    requires
        p <= cs.len(),
    ensures
        r == tag_match(cs@, p as int, seq![c]),
{
    if p < cs.len() {
        if cs[p] == c {
            TagMatch::Matched
        } else {
            assert(cs@[p + 0] != seq![c][0]);
            TagMatch::Mismatch
        }
    } else {
        TagMatch::Short
    }
}

/// Compares position `p` of `cs` with the two characters `c0 c1`.
pub fn tag_char_pair(cs: &Vec<char>, p: usize, c0: char, c1: char) -> (r: TagMatch)
    requires
        p <= cs.len(),
    ensures
        r == tag_match(cs@, p as int, seq![c0, c1]),
{
    let ghost t = seq![c0, c1];
    if p < cs.len() && cs[p] != c0 {
        assert(cs@[p + 0] != t[0]);
        TagMatch::Mismatch
    } else if cs.len() - p > 1 && cs[p + 1] != c1 {
        assert(cs@[p + 1] != t[1]);
        TagMatch::Mismatch
    } else if cs.len() - p > 1 {
        TagMatch::Matched
    } else {
        TagMatch::Short
    }
}

/// Compares position `p` of `bs` with the two bytes `b0 b1`.
pub fn tag_byte_pair(bs: &[u8], p: usize, b0: u8, b1: u8) -> (r: TagMatch)
    requires
        p <= bs@.len(),
    ensures
        r == tag_match(bs@, p as int, seq![b0, b1]),
{
    let ghost t = seq![b0, b1];
    if p < bs.len() && bs[p] != b0 {
        assert(bs@[p + 0] != t[0]);
        TagMatch::Mismatch
    } else if bs.len() - p > 1 && bs[p + 1] != b1 {
        assert(bs@[p + 1] != t[1]);
        TagMatch::Mismatch
    } else if bs.len() - p > 1 {
        TagMatch::Matched
    } else {
        TagMatch::Short
    }
}

/// The low byte of a character's code point: what a `char` keeps when it is
/// converted to `u8`.
pub open spec fn low_byte(c: char) -> int {
    (c as int) % 256
}

/// The classes of characters that the grammars take runs of.
#[derive(Debug, Clone, Copy, PartialEq, Eq, Structural)]
pub enum CharClass {
    /// Visible characters (see `is_vchar`).
    VChar,
    /// Visible characters other than `;` (see `not_uri_end`).
    UriValue,
    /// Any character but `=` and `;`: the key of a `;key=value` parameter.
    ParamKey,
    /// Any character but `:` and `@` (see `testat`).
    AuthPart,
    /// Visible characters other than `:` and `@` (see `not_address_end`).
    AddressPart,
    /// Characters whose low byte is an ASCII digit.
    DigitLike,
}

pub open spec fn spec_is_vchar(c: char) -> bool {
    32 < low_byte(c) <= 126
}

pub open spec fn in_class(cls: CharClass, c: char) -> bool {
    match cls {
        CharClass::VChar => spec_is_vchar(c),
        CharClass::UriValue => spec_is_vchar(c) && c != ';',
        CharClass::ParamKey => c != '=' && c != ';',
        CharClass::AuthPart => c != ':' && c != '@',
        CharClass::AddressPart => spec_is_vchar(c) && c != ':' && c != '@',
        CharClass::DigitLike => 48 <= low_byte(c) <= 57,
    }
}

/// Whether `c` is of class `cls`.
pub fn class_holds(cls: CharClass, c: char) -> (r: bool)
    ensures
        r == in_class(cls, c),
{
    match cls {
        CharClass::VChar => is_vchar(c),
        CharClass::UriValue => not_uri_end(c),
        CharClass::ParamKey => c != '=' && c != ';',
        CharClass::AuthPart => testat(c),
        CharClass::AddressPart => not_address_end(c),
        CharClass::DigitLike => {
            let u: u32 = c as u32;
            let b: u32 = u % 256;
            48 <= b && b <= 57
        },
    }
}

/// The end of the longest run of characters of class `cls` that starts at `p`.
pub open spec fn span(s: Seq<char>, p: int, cls: CharClass) -> int
    decreases s.len() - p,
{
    if 0 <= p < s.len() && in_class(cls, s[p]) {
        span(s, p + 1, cls)
    } else {
        p
    }
}

/// A span stays in the text, holds only characters of its class, and stops
/// at one of another class or at the end.
pub proof fn lemma_span(s: Seq<char>, p: int, cls: CharClass)
    requires
        0 <= p <= s.len(),
    ensures
        p <= span(s, p, cls) <= s.len(),
        forall|i: int| p <= i < span(s, p, cls) ==> in_class(cls, #[trigger] s[i]),
        span(s, p, cls) < s.len() ==> !in_class(cls, s[span(s, p, cls)]),
    decreases s.len() - p,
{
    if p < s.len() && in_class(cls, s[p]) {
        lemma_span(s, p + 1, cls);
    }
}

/// The end of the run of characters of class `cls` that starts at `p`.
pub fn span_end(cs: &Vec<char>, p: usize, cls: CharClass) -> (e: usize)
    requires
        p <= cs.len(),
    ensures
        e == span(cs@, p as int, cls),
{
    let mut e = p;
    while e < cs.len() && class_holds(cls, cs[e])
        invariant
            p <= e <= cs.len(),
            span(cs@, p as int, cls) == span(cs@, e as int, cls),
        decreases cs.len() - e,
    {
        e += 1;
    }
    e
}

/// A span never ends before it starts, nor past the end of the text.
pub proof fn lemma_span_bounds(s: Seq<char>, p: int, cls: CharClass)
    ensures
        p <= span(s, p, cls),
        p <= s.len() ==> span(s, p, cls) <= s.len(),
    decreases s.len() - p,
{
    if 0 <= p < s.len() && in_class(cls, s[p]) {
        lemma_span_bounds(s, p + 1, cls);
    }
}

/// The first position at or after `p` that holds `x`.
pub open spec fn find<A>(s: Seq<A>, p: int, x: A) -> Option<int>
    decreases s.len() - p,
{
    if p < 0 || p >= s.len() {
        None
    } else if s[p] == x {
        Some(p)
    } else {
        find(s, p + 1, x)
    }
}

/// `find` answers a position that holds `x`, and nothing before it does.
pub proof fn lemma_find<A>(s: Seq<A>, p: int, x: A)
    requires
        0 <= p,
    ensures
        find(s, p, x) matches Some(i) ==> p <= i < s.len() && s[i] == x,
        forall|j: int|
            p <= j < s.len() && (find(s, p, x) matches Some(i) ==> j < i) ==> #[trigger] s[j]
                != x,
    decreases s.len() - p,
{
    if p < s.len() && s[p] != x {
        lemma_find(s, p + 1, x);
    }
}

/// The first position at or after `p` that holds `c`.
pub fn find_char(cs: &Vec<char>, p: usize, c: char) -> (r: Option<usize>)
    requires
        p <= cs.len(),
    ensures
        r matches Some(i) ==> find(cs@, p as int, c) == Some(i as int),
        r is None ==> find(cs@, p as int, c) is None,
{
    let mut i = p;
    while i < cs.len()
        invariant
            p <= i <= cs.len(),
            find(cs@, p as int, c) == find(cs@, i as int, c),
        decreases cs.len() - i,
    {
        if cs[i] == c {
            return Some(i);
        }
        i += 1;
    }
    None
}

/// The characters of `s`, one per element.
pub fn chars_of(s: &str) -> (v: Vec<char>)
    ensures
        v@ == s@,
{
    let mut v: Vec<char> = Vec::new();
    for c in it: s.chars()
        invariant
            v@ == it.seq().take(it.index() as int),
            it.seq() == s@,
    {
        v.push(c);
    }
    v
}

/// The part of `s` between character positions `a` and `b`.
pub fn slice_chars<'a>(s: &'a str, a: usize, b: usize) -> (r: &'a str)
    requires
        a <= b <= s@.len(),
    ensures
        r@ == s@.subrange(a as int, b as int),
{
    s.substring_char(a, b)
}

pub open spec fn is_ascii_digit(c: char) -> bool {
    '0' <= c <= '9'
}

/// The number that a string of ASCII digits spells in decimal.
pub open spec fn digits_value(s: Seq<char>) -> int
    decreases s.len(),
{
    if s.len() == 0 {
        0
    } else {
        digits_value(s.drop_last()) * 10 + (s.last() as int - 48)
    }
}

/// The text of an unsigned number as the standard library reads one: an
/// optional `+`, then at least one ASCII digit and nothing else.
pub open spec fn unsigned_digits(s: Seq<char>) -> Seq<char> {
    if s.len() > 0 && s[0] == '+' {
        s.drop_first()
    } else {
        s
    }
}

pub open spec fn is_unsigned_text(s: Seq<char>) -> bool {
    let d = unsigned_digits(s);
    d.len() > 0 && forall|i: int| 0 <= i < d.len() ==> is_ascii_digit(#[trigger] d[i])
}

/// The value of `s` read as an unsigned number no greater than `max`, if it
/// is one.
pub open spec fn bounded_value(s: Seq<char>, max: int) -> Option<int> {
    if is_unsigned_text(s) && digits_value(unsigned_digits(s)) <= max {
        Some(digits_value(unsigned_digits(s)))
    } else {
        None
    }
}

proof fn lemma_digits_value_grows(s: Seq<char>, k: int)
    requires
        0 <= k <= s.len(),
        forall|i: int| 0 <= i < s.len() ==> is_ascii_digit(#[trigger] s[i]),
    ensures
        0 <= digits_value(s.take(k)) <= digits_value(s),
    decreases s.len(),
{
    if s.len() > 0 {
        let t = s.drop_last();
        assert forall|i: int| 0 <= i < t.len() implies is_ascii_digit(#[trigger] t[i]) by {
            assert(t[i] == s[i]);
        }
        if k == s.len() {
            assert(s.take(k) =~= s);
            lemma_digits_value_grows(t, t.len() as int);
            assert(t.take(t.len() as int) =~= t);
        } else {
            lemma_digits_value_grows(t, k);
            assert(t.take(k) =~= s.take(k));
            lemma_digits_value_grows(t, t.len() as int);
            assert(t.take(t.len() as int) =~= t);
            assert(is_ascii_digit(s[s.len() - 1]));
        }
    } else {
        assert(s.take(k) =~= s);
    }
}

/// Reads the characters `a..b` of `cs` as an unsigned number no greater than
/// `max`.
pub fn unsigned_at(cs: &Vec<char>, a: usize, b: usize, max: u64) -> (r: Option<u64>)
    requires
        a <= b <= cs.len(),
        max <= u32::MAX,
    ensures
        r matches Some(v) ==> bounded_value(cs@.subrange(a as int, b as int), max as int) == Some(
            v as int,
        ),
        r is None ==> bounded_value(cs@.subrange(a as int, b as int), max as int) is None,
{
    let ghost s = cs@.subrange(a as int, b as int);
    let start: usize = if a < b && cs[a] == '+' {
        a + 1
    } else {
        a
    };
    let ghost d = unsigned_digits(s);
    assert(d =~= cs@.subrange(start as int, b as int));
    if start == b {
        return None;
    }
    let mut v: u64 = 0;
    let mut over = false;
    let mut i = start;
    while i < b
        invariant
            start <= i <= b <= cs.len(),
            d =~= cs@.subrange(start as int, b as int),
            d == unsigned_digits(s),
            s == cs@.subrange(a as int, b as int),
            forall|j: int| 0 <= j < i - start ==> is_ascii_digit(#[trigger] d[j]),
            !over ==> v == digits_value(d.take(i - start)) && v <= max,
            over ==> digits_value(d.take(i - start)) > max,
            max <= u32::MAX,
        decreases b - i,
    {
        let c = cs[i];
        if c < '0' || c > '9' {
            assert(d[i - start] == cs@[i as int]);
            assert(!is_ascii_digit(d[i - start]));
            assert(!is_unsigned_text(s));
            return None;
        }
        let ghost k = i - start;
        assert(d.take(k + 1).drop_last() =~= d.take(k));
        assert(d.take(k + 1).last() == c);
        proof {
            lemma_digits_value_grows(d.take(k + 1), k);
            assert(d.take(k + 1).take(k) =~= d.take(k));
        }
        if !over {
            let digit: u64 = ((c as u32) - 48) as u64;
            v = v * 10 + digit;
            if v > max {
                over = true;
            }
        }
        i += 1;
    }
    assert(d.take(b - start) =~= d);
    if over {
        None
    } else {
        Some(v)
    }
}

/// The classes of bytes that the message grammar takes runs of.
#[derive(Debug, Clone, Copy, PartialEq, Eq, Structural)]
pub enum ByteClass {
    /// Bytes of a header name (see `valid_header_name_char`).
    HeaderName,
    /// Space and horizontal tab.
    Space,
}

pub open spec fn in_byte_class(cls: ByteClass, b: u8) -> bool {
    match cls {
        ByteClass::HeaderName => b != 58 && 32 < b <= 126,
        ByteClass::Space => b == 32 || b == 9,
    }
}

/// Whether `b` is of class `cls`.
pub fn byte_class_holds(cls: ByteClass, b: u8) -> (r: bool)
    ensures
        r == in_byte_class(cls, b),
{
    match cls {
        ByteClass::HeaderName => valid_header_name_char(b),
        ByteClass::Space => is_space(b),
    }
}

/// The end of the longest run of bytes of class `cls` that starts at `p`.
pub open spec fn byte_span(s: Seq<u8>, p: int, cls: ByteClass) -> int
    decreases s.len() - p,
{
    if 0 <= p < s.len() && in_byte_class(cls, s[p]) {
        byte_span(s, p + 1, cls)
    } else {
        p
    }
}

/// A byte span holds only bytes of its class, and stops at one of another
/// class or at the end.
pub proof fn lemma_byte_span(s: Seq<u8>, p: int, cls: ByteClass)
    ensures
        p <= byte_span(s, p, cls),
        p <= s.len() ==> byte_span(s, p, cls) <= s.len(),
        forall|i: int| p <= i < byte_span(s, p, cls) ==> in_byte_class(cls, #[trigger] s[i]),
        0 <= p && byte_span(s, p, cls) < s.len() ==> !in_byte_class(cls, s[byte_span(s, p, cls)]),
    decreases s.len() - p,
{
    if 0 <= p < s.len() && in_byte_class(cls, s[p]) {
        lemma_byte_span(s, p + 1, cls);
    }
}

/// The end of the run of bytes of class `cls` that starts at `p`.
pub fn byte_span_end(bs: &[u8], p: usize, cls: ByteClass) -> (e: usize)
    requires
        p <= bs@.len(),
    ensures
        e == byte_span(bs@, p as int, cls),
{
    let mut e = p;
    while e < bs.len() && byte_class_holds(cls, bs[e])
        invariant
            p <= e <= bs@.len(),
            byte_span(bs@, p as int, cls) == byte_span(bs@, e as int, cls),
        decreases bs@.len() - e,
    {
        e += 1;
    }
    e
}

/// The first position at or after `p` where `CR LF` starts.
pub open spec fn find_crlf(s: Seq<u8>, p: int) -> Option<int>
    decreases s.len() - p,
{
    if p < 0 || p + 1 >= s.len() {
        None
    } else if s[p] == 13 && s[p + 1] == 10 {
        Some(p)
    } else {
        find_crlf(s, p + 1)
    }
}

/// `find_crlf` answers a position where `CR LF` starts, and none starts
/// before it.
pub proof fn lemma_find_crlf(s: Seq<u8>, p: int)
    ensures
        find_crlf(s, p) matches Some(i) ==> 0 <= p <= i && i + 2 <= s.len() && s[i] == 13 && s[i + 1]
            == 10,
        forall|j: int|
            0 <= p <= j && j + 1 < s.len() && (find_crlf(s, p) matches Some(i) ==> j < i) ==> !(
            #[trigger] s[j] == 13 && s[j + 1] == 10),
    decreases s.len() - p,
{
    if 0 <= p && p + 1 < s.len() && !(s[p] == 13 && s[p + 1] == 10) {
        lemma_find_crlf(s, p + 1);
    }
}

/// The first position at or after `p` where `CR LF` starts.
pub fn find_crlf_from(bs: &[u8], p: usize) -> (r: Option<usize>)
    requires
        p <= bs@.len(),
    ensures
        r matches Some(i) ==> find_crlf(bs@, p as int) == Some(i as int),
        r is None ==> find_crlf(bs@, p as int) is None,
{
    let mut i = p;
    while i < bs.len() && bs.len() - i > 1
        invariant
            p <= i <= bs@.len(),
            find_crlf(bs@, p as int) == find_crlf(bs@, i as int),
        decreases bs@.len() - i,
    {
        if bs[i] == 13 && bs[i + 1] == 10 {
            return Some(i);
        }
        i += 1;
    }
    None
}

/// `std::str::from_utf8`: returns the bytes as a `str` exactly where they
/// are valid UTF-8 (the standard library's documented behaviour); the `str`
/// it returns is made of the same bytes.
#[verifier::external_body]
fn from_utf8_bytes<'a>(v: &'a [u8]) -> (r: Option<&'a str>)
    ensures
        r is Some <==> valid_utf8(v@),
        r matches Some(t) ==> t.spec_bytes() == v@,
{
    std::str::from_utf8(v).ok()
}

/// The bytes `a..b` of `bs` as text, if they are valid UTF-8.
pub fn utf8_slice<'a>(bs: &'a [u8], a: usize, b: usize) -> (r: Option<&'a str>)
    requires
        a <= b <= bs@.len(),
    ensures
        r is Some <==> valid_utf8(bs@.subrange(a as int, b as int)),
        r matches Some(t) ==> t@ == decode_utf8(bs@.subrange(a as int, b as int)),
{
    let part = &bs[a..b];
    let r = from_utf8_bytes(part);
    if let Some(t) = r {
        proof {
            encode_utf8_decode_utf8(t@);
        }
    }
    r
}

/// `find` stops at the first occurrence.
pub proof fn lemma_find_at<A>(s: Seq<A>, p: int, i: int, x: A)
    requires
        0 <= p <= i < s.len(),
        s[i] == x,
        forall|j: int| p <= j < i ==> s[j] != x,
    ensures
        find(s, p, x) == Some(i),
    decreases i - p,
{
    if p < i {
        lemma_find_at(s, p + 1, i, x);
    }
}

/// `span` ends where the run of its class ends.
pub proof fn lemma_span_at(s: Seq<char>, p: int, e: int, cls: CharClass)
    requires
        0 <= p <= e <= s.len(),
        forall|j: int| p <= j < e ==> in_class(cls, #[trigger] s[j]),
        e == s.len() || !in_class(cls, s[e]),
    ensures
        span(s, p, cls) == e,
    decreases e - p,
{
    if p < e {
        lemma_span_at(s, p + 1, e, cls);
    }
}

/// `byte_span` ends where the run of its class ends.
pub proof fn lemma_byte_span_at(s: Seq<u8>, p: int, e: int, cls: ByteClass)
    requires
        0 <= p <= e <= s.len(),
        forall|j: int| p <= j < e ==> in_byte_class(cls, #[trigger] s[j]),
        e == s.len() || !in_byte_class(cls, s[e]),
    ensures
        byte_span(s, p, cls) == e,
    decreases e - p,
{
    if p < e {
        lemma_byte_span_at(s, p + 1, e, cls);
    }
}

/// `find_crlf` stops at the first `CR LF`.
pub proof fn lemma_find_crlf_at(s: Seq<u8>, p: int, i: int)
    requires
        0 <= p <= i,
        i + 1 < s.len(),
        s[i] == 13 && s[i + 1] == 10,
        forall|j: int| p <= j < i ==> !(#[trigger] s[j] == 13 && s[j + 1] == 10),
    ensures
        find_crlf(s, p) == Some(i),
    decreases i - p,
{
    if p < i {
        lemma_find_crlf_at(s, p + 1, i);
    }
}

} // verus!
