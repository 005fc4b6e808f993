//! Parsers for header values: `Via`, name-addr (`From`, `To`, `Contact`) and
//! SIP URIs, each with their `;key=value` parameters.
//!
//! Every parser reads a `&str` that is the whole text to parse (nothing more
//! will follow it) and returns what it left unread together with the value.
use vstd::prelude::*;
use vstd::hash_map::StringHashMap;

use crate::scan::{
    CharClass, ParseError, ErrorKind, TagMatch, in_class, spec_is_vchar, tag_match,
    text_tag_error, span, find, bounded_value, tag_char, tag_char_pair, span_end, find_char,
    chars_of, slice_chars, unsigned_at, lemma_span, lemma_find, agrees, agrees_at, lemma_span_bounds,
};

verus! {

/// Whether `i` is a visible ASCII character, judged by the low byte of its
/// code point (so `U+0141` counts, as its low byte is `A`).
pub fn is_vchar(i: char) -> (r: bool)
    ensures
        r == spec_is_vchar(i),
{
    let u: u32 = i as u32;
    let b: u32 = u % 256;
    b > 32 && b <= 126
}

/// A character that may stand in a port or a parameter value: visible, and
/// not the `;` that starts the next parameter.
pub fn not_uri_end(x: char) -> (r: bool)
    ensures
        r == in_class(CharClass::UriValue, x),
{
    is_vchar(x) && x != ';'
}

/// A character of a user or password in a URI: neither `:` nor `@`.
pub fn testat(chr: char) -> (r: bool)
    ensures
        r == in_class(CharClass::AuthPart, chr),
{
    chr != ':' && chr != '@'
}

/// A character of a host in a URI: visible, and neither `:` nor `@`.
pub fn not_address_end(x: char) -> (r: bool)
    ensures
        r == in_class(CharClass::AddressPart, x),
{
    is_vchar(x) && x != ':' && x != '@'
}

/// One parameter `(key, value)`; `value` is `None` where no `=` follows the key.
pub type SpecParam = (Seq<char>, Option<Seq<char>>);

/// The grammar of one `;key` or `;key=value` parameter at position `p`: the
/// key runs up to `=` or `;`, the value is a run of visible characters other
/// than `;`.
pub open spec fn spec_uri_param(s: Seq<char>, p: int) -> Result<(int, SpecParam), ParseError> {
    let m = tag_match(s, p, seq![';']);
    if m != TagMatch::Matched {
        Err(text_tag_error(m))
    } else {
        let k = span(s, p + 1, CharClass::ParamKey);
        if tag_match(s, k, seq!['=']) == TagMatch::Matched {
            let v = span(s, k + 1, CharClass::UriValue);
            Ok((v, (s.subrange(p + 1, k), Some(s.subrange(k + 1, v)))))
        } else {
            Ok((k, (s.subrange(p + 1, k), None)))
        }
    }
}

/// A parameter always consumes something, and no more than the text.
pub proof fn lemma_uri_param_advances(s: Seq<char>, p: int)
    ensures
        spec_uri_param(s, p) matches Ok((q, _)) ==> p < q <= s.len(),
{
    if spec_uri_param(s, p) is Ok {
        assert(tag_match(s, p, seq![';']) == TagMatch::Matched);
        lemma_span_bounds(s, p + 1, CharClass::ParamKey);
        let k = span(s, p + 1, CharClass::ParamKey);
        lemma_span_bounds(s, k + 1, CharClass::UriValue);
        if tag_match(s, k, seq!['=']) == TagMatch::Matched {
            assert(k + 1 <= s.len());
        }
    }
}

/// The parameters from position `p` on: as many as parse, one after another.
pub open spec fn spec_params(s: Seq<char>, p: int) -> (int, Seq<SpecParam>)
    decreases s.len() - p,
{
    match spec_uri_param(s, p) {
        Ok((q, kv)) => {
            proof {
                lemma_uri_param_advances(s, p);
            }
            let (r, rest) = spec_params(s, q);
            (r, seq![kv] + rest)
        },
        Err(_) => (p, seq![]),
    }
}

/// The map that inserting the parameters in order gives: a later value for a
/// key replaces an earlier one.
pub open spec fn params_map(ps: Seq<SpecParam>) -> Map<Seq<char>, Option<Seq<char>>>
    decreases ps.len(),
{
    if ps.len() == 0 {
        Map::empty()
    } else {
        params_map(ps.drop_last()).insert(ps.last().0, ps.last().1)
    }
}

/// The text of an optional piece of text.
pub open spec fn opt_str_view(o: Option<&str>) -> Option<Seq<char>> {
    match o {
        Some(t) => Some(t@),
        None => None,
    }
}

/// The parameters held in a map, each value taken by its text.
pub open spec fn params_view(m: Map<Seq<char>, Option<&str>>) -> Map<
    Seq<char>,
    Option<Seq<char>>,
> {
    Map::new(|k: Seq<char>| m.dom().contains(k), |k: Seq<char>| opt_str_view(m[k]))
}

fn uri_param_at<'a>(s: &'a str, cs: &Vec<char>, p: usize) -> (r: Result<
    (usize, (&'a str, Option<&'a str>)),
    ParseError,
>)
    requires
        cs@ == s@,
        p <= cs.len(),
    ensures
        agrees_at(r, spec_uri_param(s@, p as int)),
{
    let m = tag_char(cs, p, ';');
    if m != TagMatch::Matched {
        return Err(
            if m == TagMatch::Short {
                ParseError::Error(ErrorKind::Eof)
            } else {
                ParseError::Error(ErrorKind::Tag)
            },
        );
    }
    let k = span_end(cs, p + 1, CharClass::ParamKey);
    proof {
        lemma_span(cs@, p + 1, CharClass::ParamKey);
    }
    let key = slice_chars(s, p + 1, k);
    if tag_char(cs, k, '=') == TagMatch::Matched {
        let v = span_end(cs, k + 1, CharClass::UriValue);
        proof {
            lemma_span(cs@, k + 1, CharClass::UriValue);
        }
        Ok((v, (key, Some(slice_chars(s, k + 1, v)))))
    } else {
        Ok((k, (key, None)))
    }
}

/// Parses one `;key` or `;key=value` parameter.
pub fn parse_uri_params<'a>(i: &'a str) -> (r: Result<(&'a str, (&'a str, Option<&'a str>)), ParseError>)
    ensures
        agrees(r, i@, spec_uri_param(i@, 0)),
{
    let cs = chars_of(i);
    match uri_param_at(i, &cs, 0) {
        Ok((q, v)) => {
            proof {
                lemma_uri_param_advances(i@, 0);
            }
            Ok((slice_chars(i, q, cs.len()), v))
        },
        Err(e) => Err(e),
    }
}

fn params_at<'a>(s: &'a str, cs: &Vec<char>, p: usize) -> (r: (
    usize,
    StringHashMap<Option<&'a str>>,
))
    requires
        cs@ == s@,
        p <= cs.len(),
    ensures
        r.0 == spec_params(s@, p as int).0,
        p <= r.0 <= cs.len(),
        params_view(r.1@) == params_map(spec_params(s@, p as int).1),
{
    let mut m: StringHashMap<Option<&'a str>> = StringHashMap::new();
    let mut q = p;
    let ghost mut done: Seq<SpecParam> = seq![];
    assert(params_view(m@) =~= params_map(done));
    loop
        invariant
            cs@ == s@,
            p <= q <= cs.len(),
            spec_params(s@, p as int) == (spec_params(s@, q as int).0, done + spec_params(
                s@,
                q as int,
            ).1),
            params_view(m@) == params_map(done),
        ensures
            p <= q <= cs.len(),
            spec_params(s@, p as int) == (q as int, done),
            params_view(m@) == params_map(done),
        decreases cs.len() - q,
    {
        match uri_param_at(s, cs, q) {
            Ok((q2, (k, v))) => {
                proof {
                    lemma_uri_param_advances(s@, q as int);
                }
                let ghost kv: SpecParam = (k@, opt_str_view(v));
                let ghost old_m = m@;
                m.insert(k.to_string(), v);
                proof {
                    assert(spec_params(s@, q as int).1 == seq![kv] + spec_params(s@, q2 as int).1);
                    assert(done + spec_params(s@, q as int).1 =~= done.push(kv) + spec_params(
                        s@,
                        q2 as int,
                    ).1);
                    assert(done.push(kv).drop_last() =~= done);
                    done = done.push(kv);
                    assert(params_view(m@) =~= params_map(done));
                }
                q = q2;
            },
            Err(_) => {
                assert(done + seq![] =~= done);
                break ;
            },
        }
    }
    (q, m)
}

/// The value of a `Via` header: `protocol host:port;params`.
pub struct Via<'a> {
    pub protocol: &'a str,
    pub host: &'a str,
    pub port: &'a str,
    pub parameters: StringHashMap<Option<&'a str>>,
}

/// A `Via` value as text.
pub struct SpecVia {
    pub protocol: Seq<char>,
    pub host: Seq<char>,
    pub port: Seq<char>,
    pub parameters: Map<Seq<char>, Option<Seq<char>>>,
}

impl<'a> DeepView for Via<'a> {
    type V = SpecVia;

    open spec fn deep_view(&self) -> SpecVia {
        SpecVia {
            protocol: self.protocol@,
            host: self.host@,
            port: self.port@,
            parameters: params_view(self.parameters@),
        }
    }
}

/// The grammar of a `Via` value: the protocol up to the first space, the
/// host up to the next `:`, the port as a run of visible characters other
/// than `;`, then the parameters.
pub open spec fn spec_via(s: Seq<char>) -> Result<(int, SpecVia), ParseError> {
    match find(s, 0, ' ') {
        None => Err(ParseError::Error(ErrorKind::TakeUntilAndConsume)),
        Some(a) => match find(s, a + 1, ':') {
            None => Err(ParseError::Error(ErrorKind::TakeUntilAndConsume)),
            Some(b) => {
                let c = span(s, b + 1, CharClass::UriValue);
                let (d, ps) = spec_params(s, c);
                Ok(
                    (
                        d,
                        SpecVia {
                            protocol: s.subrange(0, a),
                            host: s.subrange(a + 1, b),
                            port: s.subrange(b + 1, c),
                            parameters: params_map(ps),
                        },
                    ),
                )
            },
        },
    }
}

/// Parses the value of a `Via` header.
pub fn parse_via<'a>(i: &'a str) -> (r: Result<(&'a str, Via<'a>), ParseError>)
    ensures
        agrees(r, i@, spec_via(i@)),
{
    let cs = chars_of(i);
    let a = match find_char(&cs, 0, ' ') {
        Some(a) => a,
        None => {
            return Err(ParseError::Error(ErrorKind::TakeUntilAndConsume));
        },
    };
    proof {
        lemma_find(i@, 0, ' ');
    }
    let b = match find_char(&cs, a + 1, ':') {
        Some(b) => b,
        None => {
            return Err(ParseError::Error(ErrorKind::TakeUntilAndConsume));
        },
    };
    proof {
        lemma_find(i@, a + 1, ':');
    }
    let c = span_end(&cs, b + 1, CharClass::UriValue);
    proof {
        lemma_span(i@, b + 1, CharClass::UriValue);
    }
    let (d, parameters) = params_at(i, &cs, c);
    let via = Via {
        protocol: slice_chars(i, 0, a),
        host: slice_chars(i, a + 1, b),
        port: slice_chars(i, b + 1, c),
        parameters,
    };
    Ok((slice_chars(i, d, cs.len()), via))
}

impl<'a> Via<'a> {
    /// Parses the value of a `Via` header.
    pub fn parse(data: &'a str) -> (r: Result<(&'a str, Via<'a>), ParseError>)
        ensures
            agrees(r, data@, spec_via(data@)),
    {
        parse_via(data)
    }
}

/// The value of a `From`, `To` or `Contact` header: an optional quoted
/// display name, a URI in angle brackets, then parameters.
pub struct NameAddr<'a> {
    pub name: Option<&'a str>,
    pub uri: &'a str,
    pub parameters: StringHashMap<Option<&'a str>>,
}

/// A name-addr value as text.
pub struct SpecNameAddr {
    pub name: Option<Seq<char>>,
    pub uri: Seq<char>,
    pub parameters: Map<Seq<char>, Option<Seq<char>>>,
}

impl<'a> DeepView for NameAddr<'a> {
    type V = SpecNameAddr;

    open spec fn deep_view(&self) -> SpecNameAddr {
        SpecNameAddr {
            name: opt_str_view(self.name),
            uri: self.uri@,
            parameters: params_view(self.parameters@),
        }
    }
}

/// The quoted display name at the start of a name-addr: `"name" ` (the
/// closing quote followed by a space). Where there is none, nothing is read.
pub open spec fn spec_display_name(s: Seq<char>) -> (int, Option<Seq<char>>) {
    if tag_match(s, 0, seq!['"']) == TagMatch::Matched {
        match find(s, 1, '"') {
            Some(q) => if tag_match(s, q, seq!['"', ' ']) == TagMatch::Matched {
                (q + 2, Some(s.subrange(1, q)))
            } else {
                (0, None)
            },
            None => (0, None),
        }
    } else {
        (0, None)
    }
}

/// The grammar of a name-addr: the optional display name, `<`, the URI up to
/// the first `>`, then the parameters.
pub open spec fn spec_name_addr(s: Seq<char>) -> Result<(int, SpecNameAddr), ParseError> {
    let (p, name) = spec_display_name(s);
    let m = tag_match(s, p, seq!['<']);
    if m != TagMatch::Matched {
        Err(text_tag_error(m))
    } else {
        match find(s, p + 1, '>') {
            None => Err(ParseError::Error(ErrorKind::TakeUntilAndConsume)),
            Some(u) => {
                let (d, ps) = spec_params(s, u + 1);
                Ok(
                    (
                        d,
                        SpecNameAddr {
                            name,
                            uri: s.subrange(p + 1, u),
                            parameters: params_map(ps),
                        },
                    ),
                )
            },
        }
    }
}

/// Parses a name-addr: `"name" <uri>;params` or `<uri>;params`.
pub fn parse_name_addr<'a>(i: &'a str) -> (r: Result<(&'a str, NameAddr<'a>), ParseError>)
    ensures
        agrees(r, i@, spec_name_addr(i@)),
{
    let cs = chars_of(i);
    let ghost s = i@;
    let mut p: usize = 0;
    let mut name: Option<&'a str> = None;
    if tag_char(&cs, 0, '"') == TagMatch::Matched {
        if let Some(q) = find_char(&cs, 1, '"') {
            proof {
                lemma_find(s, 1, '"');
            }
            if tag_char_pair(&cs, q, '"', ' ') == TagMatch::Matched {
                name = Some(slice_chars(i, 1, q));
                p = q + 2;
            }
        }
    }
    assert(spec_display_name(s) == (p as int, opt_str_view(name)));
    let m = tag_char(&cs, p, '<');
    if m != TagMatch::Matched {
        return Err(
            if m == TagMatch::Short {
                ParseError::Error(ErrorKind::Eof)
            } else {
                ParseError::Error(ErrorKind::Tag)
            },
        );
    }
    let u = match find_char(&cs, p + 1, '>') {
        Some(u) => u,
        None => {
            return Err(ParseError::Error(ErrorKind::TakeUntilAndConsume));
        },
    };
    proof {
        lemma_find(s, p + 1, '>');
    }
    let (d, parameters) = params_at(i, &cs, u + 1);
    let addr = NameAddr { name, uri: slice_chars(i, p + 1, u), parameters };
    Ok((slice_chars(i, d, cs.len()), addr))
}

/// The grammar of the `user[:password]@` part of a URI at position `p`.
pub open spec fn spec_uri_auth(s: Seq<char>, p: int) -> Result<
    (int, (Option<Seq<char>>, Option<Seq<char>>)),
    ParseError,
> {
    let a = span(s, p, CharClass::AuthPart);
    let (q, password) = if tag_match(s, a, seq![':']) == TagMatch::Matched {
        let b = span(s, a + 1, CharClass::AuthPart);
        (b, Some(s.subrange(a + 1, b)))
    } else {
        (a, None)
    };
    let m = tag_match(s, q, seq!['@']);
    if m == TagMatch::Matched {
        Ok((q + 1, (Some(s.subrange(p, a)), password)))
    } else {
        Err(text_tag_error(m))
    }
}

fn uri_auth_at<'a>(s: &'a str, cs: &Vec<char>, p: usize) -> (r: Result<
    (usize, (Option<&'a str>, Option<&'a str>)),
    ParseError,
>)
    requires
        cs@ == s@,
        p <= cs.len(),
    ensures
        agrees_at(r, spec_uri_auth(s@, p as int)),
        r matches Ok((q, _)) ==> p < q <= cs.len(),
{
    let a = span_end(cs, p, CharClass::AuthPart);
    proof {
        lemma_span(cs@, p as int, CharClass::AuthPart);
    }
    let mut q = a;
    let mut password: Option<&'a str> = None;
    if tag_char(cs, a, ':') == TagMatch::Matched {
        let b = span_end(cs, a + 1, CharClass::AuthPart);
        proof {
            lemma_span(cs@, a + 1, CharClass::AuthPart);
        }
        password = Some(slice_chars(s, a + 1, b));
        q = b;
    }
    let m = tag_char(cs, q, '@');
    if m == TagMatch::Matched {
        Ok((q + 1, (Some(slice_chars(s, p, a)), password)))
    } else if m == TagMatch::Short {
        Err(ParseError::Error(ErrorKind::Eof))
    } else {
        Err(ParseError::Error(ErrorKind::Tag))
    }
}

/// Parses the `user[:password]@` part of a URI. The user is always `Some`
/// where this succeeds.
pub fn parse_uri_auth<'a>(i: &'a str) -> (r: Result<
    (&'a str, (Option<&'a str>, Option<&'a str>)),
    ParseError,
>)
    ensures
        agrees(r, i@, spec_uri_auth(i@, 0)),
{
    let cs = chars_of(i);
    match uri_auth_at(i, &cs, 0) {
        Ok((q, v)) => Ok((slice_chars(i, q, cs.len()), v)),
        Err(e) => Err(e),
    }
}

/// The grammar of the `host[:port]` part of a URI at position `p`. The port
/// is the run of characters after `:` whose low byte is a digit, read as a
/// decimal `u16`; where there is no such port (no `:`, or a run that is not
/// a number that fits), nothing after the host is read.
pub open spec fn spec_uri_address(s: Seq<char>, p: int) -> (int, (Seq<char>, Option<u16>)) {
    let a = span(s, p, CharClass::AddressPart);
    if tag_match(s, a, seq![':']) == TagMatch::Matched {
        let b = span(s, a + 1, CharClass::DigitLike);
        match bounded_value(s.subrange(a + 1, b), 65535) {
            Some(n) => (b, (s.subrange(p, a), Some(n as u16))),
            None => (a, (s.subrange(p, a), None)),
        }
    } else {
        (a, (s.subrange(p, a), None))
    }
}

fn uri_address_at<'a>(s: &'a str, cs: &Vec<char>, p: usize) -> (r: (usize, (&'a str, Option<u16>)))
    requires
        cs@ == s@,
        p <= cs.len(),
    ensures
        r.0 == spec_uri_address(s@, p as int).0,
        r.1.deep_view() == spec_uri_address(s@, p as int).1,
        p <= r.0 <= cs.len(),
{
    let a = span_end(cs, p, CharClass::AddressPart);
    proof {
        lemma_span(cs@, p as int, CharClass::AddressPart);
    }
    let host = slice_chars(s, p, a);
    if tag_char(cs, a, ':') == TagMatch::Matched {
        let b = span_end(cs, a + 1, CharClass::DigitLike);
        proof {
            lemma_span(cs@, a + 1, CharClass::DigitLike);
        }
        match unsigned_at(cs, a + 1, b, 65535) {
            Some(n) => (b, (host, Some(n as u16))),
            None => (a, (host, None)),
        }
    } else {
        (a, (host, None))
    }
}

/// Parses the `host[:port]` part of a URI. This never fails.
pub fn parse_uri_address<'a>(i: &'a str) -> (r: Result<(&'a str, (&'a str, Option<u16>)), ParseError>)
    ensures
        agrees(r, i@, Ok(spec_uri_address(i@, 0))),
{
    let cs = chars_of(i);
    let (q, v) = uri_address_at(i, &cs, 0);
    Ok((slice_chars(i, q, cs.len()), v))
}

/// A SIP URI: `schema:[user[:password]@]host[:port];params`.
pub struct Uri<'a> {
    pub schema: &'a str,
    pub user: Option<&'a str>,
    pub password: Option<&'a str>,
    pub host: &'a str,
    pub port: Option<u16>,
    pub parameters: StringHashMap<Option<&'a str>>,
}

/// A URI as text.
pub struct SpecUri {
    pub schema: Seq<char>,
    pub user: Option<Seq<char>>,
    pub password: Option<Seq<char>>,
    pub host: Seq<char>,
    pub port: Option<u16>,
    pub parameters: Map<Seq<char>, Option<Seq<char>>>,
}

impl<'a> DeepView for Uri<'a> {
    type V = SpecUri;

    open spec fn deep_view(&self) -> SpecUri {
        SpecUri {
            schema: self.schema@,
            user: opt_str_view(self.user),
            password: opt_str_view(self.password),
            host: self.host@,
            port: self.port,
            parameters: params_view(self.parameters@),
        }
    }
}

/// The grammar of a URI: the schema up to the first `:`, the user part where
/// one parses (else none, and nothing is read), the host part, then the
/// parameters.
pub open spec fn spec_uri(s: Seq<char>) -> Result<(int, SpecUri), ParseError> {
    match find(s, 0, ':') {
        None => Err(ParseError::Error(ErrorKind::TakeUntilAndConsume)),
        Some(a) => {
            let (b, up) = match spec_uri_auth(s, a + 1) {
                Ok((b, up)) => (b, up),
                Err(_) => (a + 1, (None, None)),
            };
            let (c, hp) = spec_uri_address(s, b);
            let (d, ps) = spec_params(s, c);
            Ok(
                (
                    d,
                    SpecUri {
                        schema: s.subrange(0, a),
                        user: up.0,
                        password: up.1,
                        host: hp.0,
                        port: hp.1,
                        parameters: params_map(ps),
                    },
                ),
            )
        },
    }
}

/// Parses a SIP URI.
pub fn parse_uri<'a>(i: &'a str) -> (r: Result<(&'a str, Uri<'a>), ParseError>)
    ensures
        agrees(r, i@, spec_uri(i@)),
{
    let cs = chars_of(i);
    let a = match find_char(&cs, 0, ':') {
        Some(a) => a,
        None => {
            return Err(ParseError::Error(ErrorKind::TakeUntilAndConsume));
        },
    };
    proof {
        lemma_find(i@, 0, ':');
    }
    let (b, (user, password)) = match uri_auth_at(i, &cs, a + 1) {
        Ok((b, up)) => (b, up),
        Err(_) => (a + 1, (None, None)),
    };
    let (c, (host, port)) = uri_address_at(i, &cs, b);
    let (d, parameters) = params_at(i, &cs, c);
    let uri = Uri { schema: slice_chars(i, 0, a), user, password, host, port, parameters };
    Ok((slice_chars(i, d, cs.len()), uri))
}

impl<'a> Uri<'a> {
    /// Parses a SIP URI.
    pub fn parse(data: &'a str) -> (r: Result<(&'a str, Uri<'a>), ParseError>)
        ensures
            agrees(r, data@, spec_uri(data@)),
    {
        parse_uri(data)
    }
}

} // verus!
