//! Properties of the grammars that hold for all inputs.
use vstd::prelude::*;

use crate::sip::{SpecHeader, SpecHeaderMap, group_headers, add_header_line, key_position, lemma_key_position, lemma_key_position_same_names};
use crate::header::{
    SpecParam, params_map, spec_uri_param, spec_params, spec_name_addr, spec_display_name,
    SpecNameAddr, spec_via, SpecVia, spec_uri, SpecUri, spec_uri_auth, spec_uri_address,
};
use crate::scan::{find, span, lemma_span_bounds};
use crate::sip::{spec_request_line, SpecRequestLine, spec_status_line, SpecStatusLine};
use crate::sip::{spec_header_at, spec_valid_header_name_char, spec_header_lines, spec_message, SpecMessage};
use crate::scan::{
    CharClass, ByteClass, TagMatch, tag_match, in_class, is_ascii_digit, digits_value,
    unsigned_digits, spec_is_vchar, lemma_find_at, lemma_span_at, lemma_byte_span_at,
    lemma_find_crlf_at,
};
use vstd::utf8::{valid_utf8, decode_utf8, partial_valid_utf8, partial_valid_utf8_extend_ascii_block};

verus! {

/// A visible ASCII character, judged by the low byte of its code point.
pub open spec fn visible_char(c: char) -> bool {
    32 < (c as int) % 256 <= 126
}

/// A character that may stand in a parameter value or a `Via` port: visible,
/// and not the `;` that starts the next parameter.
pub open spec fn param_value_char(c: char) -> bool {
    visible_char(c) && c != ';'
}

/// A byte that may stand in a header name: visible ASCII other than `:`.
pub open spec fn header_name_byte(b: u8) -> bool {
    b != 58 && 32 < b <= 126
}

/// The values of the header lines named `k`, in the order of the lines.
pub open spec fn values_named(hs: Seq<SpecHeader>, k: Seq<char>) -> Seq<Seq<char>>
    decreases hs.len(),
{
    if hs.len() == 0 {
        seq![]
    } else if hs.last().0 == k {
        values_named(hs.drop_last(), k).push(hs.last().1)
    } else {
        values_named(hs.drop_last(), k)
    }
}

/// Some header line is named `k`.
pub open spec fn has_line_named(hs: Seq<SpecHeader>, k: Seq<char>) -> bool {
    exists|l: int| 0 <= l < hs.len() && (#[trigger] hs[l]).0 == k
}

/// Some entry of a header map is named `k`.
pub open spec fn has_entry_named(g: SpecHeaderMap, k: Seq<char>) -> bool {
    exists|i: int| 0 <= i < g.len() && (#[trigger] g[i]).0 == k
}

proof fn lemma_values_named_absent(hs: Seq<SpecHeader>, k: Seq<char>)
    requires
        forall|l: int| 0 <= l < hs.len() ==> (#[trigger] hs[l]).0 != k,
    ensures
        values_named(hs, k) == Seq::<Seq<char>>::empty(),
    decreases hs.len(),
{
    if hs.len() > 0 {
        assert forall|l: int| 0 <= l < hs.drop_last().len() implies (
        #[trigger] hs.drop_last()[l]).0 != k by {
            assert(hs.drop_last()[l] == hs[l]);
        }
        lemma_values_named_absent(hs.drop_last(), k);
    }
}

/// Grouping the header lines of a message by name keeps every value and
/// nothing else: each name has one entry, an entry holds the values of all
/// the lines with its name in the order of the lines, and a name has an
/// entry exactly where some line has that name.
pub proof fn law_headers_grouped(hs: Seq<SpecHeader>)
    ensures
        forall|i: int, j: int|
            0 <= i < j < group_headers(hs).len() ==> (#[trigger] group_headers(hs)[i]).0
                != (#[trigger] group_headers(hs)[j]).0,
        forall|i: int|
            0 <= i < group_headers(hs).len() ==> (#[trigger] group_headers(hs)[i]).1
                == values_named(hs, group_headers(hs)[i].0),
        forall|k: Seq<char>|
            #![trigger has_line_named(hs, k)]
            #![trigger has_entry_named(group_headers(hs), k)]
            has_line_named(hs, k) <==> has_entry_named(group_headers(hs), k),
    decreases hs.len(),
{
    let g = group_headers(hs);
    if hs.len() == 0 {
        return ;
    }
    let prev = hs.drop_last();
    let gp = group_headers(prev);
    let (n, v) = hs.last();
    law_headers_grouped(prev);
    lemma_key_position(gp, n);
    assert(g == add_header_line(gp, n, v));
    match key_position(gp, n) {
        Some(p) => {
            assert(g =~= gp.update(p, (n, gp[p].1.push(v))));
            assert forall|i: int, j: int| 0 <= i < j < g.len() implies (#[trigger] g[i]).0 != (
            #[trigger] g[j]).0 by {
                assert(g[i].0 == gp[i].0 && g[j].0 == gp[j].0);
            }
            assert forall|i: int| 0 <= i < g.len() implies (#[trigger] g[i]).1 == values_named(
                hs,
                g[i].0,
            ) by {
                assert(g[i].0 == gp[i].0);
                if i == p {
                } else {
                    assert(gp[i].0 != gp[p].0);
                }
            }
            assert forall|k: Seq<char>|
                #![trigger has_line_named(hs, k)]
                #![trigger has_entry_named(g, k)]
                has_line_named(hs, k) <==> has_entry_named(g, k) by {
                assert(has_line_named(prev, k) <==> has_entry_named(gp, k));
                if exists|l: int| 0 <= l < hs.len() && (#[trigger] hs[l]).0 == k {
                    let l = choose|l: int| 0 <= l < hs.len() && (#[trigger] hs[l]).0 == k;
                    if l < prev.len() {
                        assert(prev[l] == hs[l]);
                        let i = choose|i: int| 0 <= i < gp.len() && (#[trigger] gp[i]).0 == k;
                        assert(g[i].0 == k);
                    } else {
                        assert(g[p].0 == k);
                    }
                }
                if exists|i: int| 0 <= i < g.len() && (#[trigger] g[i]).0 == k {
                    let i = choose|i: int| 0 <= i < g.len() && (#[trigger] g[i]).0 == k;
                    assert(gp[i].0 == k);
                    let l = choose|l: int| 0 <= l < prev.len() && (#[trigger] prev[l]).0 == k;
                    assert(hs[l] == prev[l]);
                }
            }
        },
        None => {
            assert(g == gp.push((n, seq![v])));
            assert forall|i: int, j: int| 0 <= i < j < g.len() implies (#[trigger] g[i]).0 != (
            #[trigger] g[j]).0 by {
                if j < gp.len() {
                    assert(g[i] == gp[i] && g[j] == gp[j]);
                } else {
                    assert(g[i] == gp[i]);
                }
            }
            assert forall|i: int| 0 <= i < g.len() implies (#[trigger] g[i]).1 == values_named(
                hs,
                g[i].0,
            ) by {
                if i < gp.len() {
                    assert(g[i] == gp[i]);
                    assert(gp[i].0 != n);
                } else {
                    assert forall|l: int| 0 <= l < prev.len() implies (#[trigger] prev[l]).0
                        != n by {
                        if prev[l].0 == n {
                            assert(has_line_named(prev, n));
                            assert(has_entry_named(gp, n));
                            let i2 = choose|i2: int| 0 <= i2 < gp.len() && (#[trigger] gp[i2]).0 == n;
                            assert(gp[i2].0 != n);
                        }
                    }
                    lemma_values_named_absent(prev, n);
                    assert(values_named(hs, n) =~= seq![v]);
                }
            }
            assert forall|k: Seq<char>|
                #![trigger has_line_named(hs, k)]
                #![trigger has_entry_named(g, k)]
                has_line_named(hs, k) <==> has_entry_named(g, k) by {
                assert(has_line_named(prev, k) <==> has_entry_named(gp, k));
                if exists|l: int| 0 <= l < hs.len() && (#[trigger] hs[l]).0 == k {
                    let l = choose|l: int| 0 <= l < hs.len() && (#[trigger] hs[l]).0 == k;
                    if l < prev.len() {
                        assert(prev[l] == hs[l]);
                        let i = choose|i: int| 0 <= i < gp.len() && (#[trigger] gp[i]).0 == k;
                        assert(g[i] == gp[i]);
                    } else {
                        assert(g[gp.len() as int].0 == k);
                    }
                }
                if exists|i: int| 0 <= i < g.len() && (#[trigger] g[i]).0 == k {
                    let i = choose|i: int| 0 <= i < g.len() && (#[trigger] g[i]).0 == k;
                    if i < gp.len() {
                        assert(gp[i] == g[i]);
                        let l = choose|l: int| 0 <= l < prev.len() && (#[trigger] prev[l]).0 == k;
                        assert(hs[l] == prev[l]);
                    } else {
                        assert(hs[hs.len() - 1].0 == k);
                    }
                }
            }
        },
    }
}

/// Some parameter of the list has key `k`.
pub open spec fn has_param_named(ps: Seq<SpecParam>, k: Seq<char>) -> bool {
    exists|l: int| 0 <= l < ps.len() && (#[trigger] ps[l]).0 == k
}

/// The parameters of a header value, read into a map, keep every key, and a
/// key that occurs more than once takes the value of its last occurrence.
pub proof fn law_params_last_wins(ps: Seq<SpecParam>)
    ensures
        forall|k: Seq<char>|
            #![trigger params_map(ps).dom().contains(k)]
            #![trigger has_param_named(ps, k)]
            params_map(ps).dom().contains(k) <==> has_param_named(ps, k),
        forall|l: int|
            0 <= l < ps.len() && (forall|m: int| l < m < ps.len() ==> (#[trigger] ps[m]).0 != ps[l].0)
                ==> params_map(ps)[(#[trigger] ps[l]).0] == ps[l].1,
    decreases ps.len(),
{
    if ps.len() == 0 {
        return ;
    }
    let prev = ps.drop_last();
    law_params_last_wins(prev);
    let (k0, v0) = ps.last();
    assert(params_map(ps) == params_map(prev).insert(k0, v0));
    assert forall|k: Seq<char>|
        #![trigger params_map(ps).dom().contains(k)]
        #![trigger has_param_named(ps, k)]
        params_map(ps).dom().contains(k) <==> has_param_named(ps, k) by {
        assert(params_map(prev).dom().contains(k) <==> has_param_named(prev, k));
        if has_param_named(ps, k) {
            let l = choose|l: int| 0 <= l < ps.len() && (#[trigger] ps[l]).0 == k;
            if l < prev.len() {
                assert(prev[l] == ps[l]);
            }
        }
        if has_param_named(prev, k) {
            let l = choose|l: int| 0 <= l < prev.len() && (#[trigger] prev[l]).0 == k;
            assert(ps[l] == prev[l]);
        }
        if k == k0 {
            assert(ps[ps.len() - 1].0 == k);
        }
    }
    assert forall|l: int|
        0 <= l < ps.len() && (forall|m: int| l < m < ps.len() ==> (#[trigger] ps[m]).0 != ps[l].0)
            implies params_map(ps)[(#[trigger] ps[l]).0] == ps[l].1 by {
        if l < prev.len() {
            assert(ps[ps.len() - 1].0 != ps[l].0);
            assert(prev[l] == ps[l]);
            assert forall|m: int| l < m < prev.len() implies (#[trigger] prev[m]).0 != prev[l].0 by {
                assert(prev[m] == ps[m]);
            }
        }
    }
}

/// A request line written as `method SP uri SP version`, where method and
/// URI hold no space and the version is made of visible characters, reads
/// back as those three parts, and what follows it is left unread where it
/// does not start with a visible character.
pub proof fn law_request_line_reads_parts(m: Seq<char>, u: Seq<char>, v: Seq<char>, t: Seq<char>)
    requires
        forall|i: int| 0 <= i < m.len() ==> m[i] != ' ',
        forall|i: int| 0 <= i < u.len() ==> u[i] != ' ',
        forall|i: int| 0 <= i < v.len() ==> visible_char(v[i]),
        t.len() == 0 || !visible_char(t[0]),
    ensures
        spec_request_line(m + seq![' '] + u + seq![' '] + v + t) == Ok::<
            (int, SpecRequestLine),
            crate::scan::ParseError,
        >(((m.len() + u.len() + v.len() + 2) as int, SpecRequestLine { method: m, uri: u, version: v })),
{
    let s = m + seq![' '] + u + seq![' '] + v + t;
    let a = m.len() as int;
    let b = a + 1 + u.len();
    let c = b + 1 + v.len();
    assert forall|j: int| 0 <= j < a implies s[j] != ' ' by {
        assert(s[j] == m[j]);
    }
    assert(s[a] == ' ');
    lemma_find_at(s, 0, a, ' ');
    assert forall|j: int| a + 1 <= j < b implies s[j] != ' ' by {
        assert(s[j] == u[j - a - 1]);
    }
    assert(s[b] == ' ');
    lemma_find_at(s, a + 1, b, ' ');
    assert forall|j: int| b + 1 <= j < c implies spec_is_vchar(#[trigger] s[j]) by {
        assert(s[j] == v[j - b - 1]);
    }
    if c < s.len() {
        assert(s[c] == t[0]);
    }
    lemma_span_at(s, b + 1, c, CharClass::VChar);
    assert(s.subrange(0, a) =~= m);
    assert(s.subrange(a + 1, b) =~= u);
    assert(s.subrange(b + 1, c) =~= v);
}

/// Bytes that may stand in a header name are ASCII, so a name is always UTF-8.
pub proof fn lemma_header_name_is_utf8(name: Seq<u8>)
    requires
        forall|i: int| 0 <= i < name.len() ==> header_name_byte(#[trigger] name[i]),
    ensures
        valid_utf8(name),
{
    assert(name.subrange(0, 0) =~= Seq::<u8>::empty());
    assert(partial_valid_utf8(name, 0));
    partial_valid_utf8_extend_ascii_block(name, 0, name.len() as int);
    assert(name.subrange(0, name.len() as int) =~= name);
}

/// The bytes of a header line `name: value CR LF`.
pub open spec fn header_line_bytes(line: (Seq<u8>, Seq<u8>)) -> Seq<u8> {
    line.0 + seq![58u8, 32u8] + line.1 + seq![13u8, 10u8]
}

/// A header line that reads back as written: the name is made of header-name
/// bytes, and the value is UTF-8 that does not start with a space or a tab and
/// holds no `CR LF`.
pub open spec fn readable_line(line: (Seq<u8>, Seq<u8>)) -> bool {
    &&& forall|i: int| 0 <= i < line.0.len() ==> header_name_byte(#[trigger] line.0[i])
    &&& valid_utf8(line.1)
    &&& line.1.len() == 0 || (line.1[0] != 32 && line.1[0] != 9)
    &&& forall|i: int|
        0 <= i && i + 1 < line.1.len() ==> !(#[trigger] line.1[i] == 13 && line.1[i + 1] == 10)
}

/// The bytes of a header line `name:` then the run `w` of spaces and tabs,
/// then `value CR LF`.
pub open spec fn spaced_line_bytes(name: Seq<u8>, w: Seq<u8>, value: Seq<u8>) -> Seq<u8> {
    name + seq![58u8] + w + value + seq![13u8, 10u8]
}

proof fn lemma_spaced_line_at(s: Seq<u8>, p: int, name: Seq<u8>, w: Seq<u8>, value: Seq<u8>)
    requires
        readable_line((name, value)),
        forall|i: int| 0 <= i < w.len() ==> (#[trigger] w[i] == 32 || w[i] == 9),
        0 <= p,
        p + spaced_line_bytes(name, w, value).len() <= s.len(),
        s.subrange(p, p + spaced_line_bytes(name, w, value).len()) == spaced_line_bytes(
            name,
            w,
            value,
        ),
    ensures
        spec_header_at(s, p) == Ok::<(int, SpecHeader), crate::scan::ParseError>(
            (
                p + spaced_line_bytes(name, w, value).len(),
                (decode_utf8(name), decode_utf8(value)),
            ),
        ),
{
    let bytes = spaced_line_bytes(name, w, value);
    let a = p + name.len();
    let e2 = a + 1 + w.len();
    let e3 = e2 + value.len();
    assert forall|j: int| 0 <= j < bytes.len() implies s[p + j] == #[trigger] bytes[j] by {
        assert(s.subrange(p, p + bytes.len())[j] == s[p + j]);
    }
    assert forall|j: int| p <= j < a implies crate::scan::in_byte_class(
        ByteClass::HeaderName,
        #[trigger] s[j],
    ) by {
        assert(s[p + (j - p)] == bytes[j - p]);
        assert(bytes[j - p] == name[j - p]);
        assert(header_name_byte((name, value).0[j - p]));
    }
    assert(s[p + name.len()] == bytes[name.len() as int]);
    lemma_byte_span_at(s, p, a, ByteClass::HeaderName);
    assert forall|j: int| 0 <= j < name.len() implies header_name_byte(#[trigger] name[j]) by {
        assert(header_name_byte((name, value).0[j]));
    }
    assert forall|j: int| a + 1 <= j < e2 implies crate::scan::in_byte_class(
        ByteClass::Space,
        #[trigger] s[j],
    ) by {
        assert(s[p + (j - p)] == bytes[j - p]);
        assert(bytes[j - p] == w[j - a - 1]);
    }
    assert(s[p + (e3 - p)] == bytes[e3 - p]);
    assert(s[p + (e3 + 1 - p)] == bytes[e3 + 1 - p]);
    if value.len() > 0 {
        assert(s[p + (e2 - p)] == bytes[e2 - p]);
        assert(bytes[e2 - p] == value[0]);
    }
    lemma_byte_span_at(s, a + 1, e2, ByteClass::Space);
    assert forall|j: int| e2 <= j < e3 implies !(#[trigger] s[j] == 13 && s[j + 1] == 10) by {
        assert(s[p + (j - p)] == bytes[j - p]);
        assert(bytes[j - p] == value[j - e2]);
        assert(s[p + (j + 1 - p)] == bytes[j + 1 - p]);
        if j + 1 < e3 {
            assert(bytes[j + 1 - p] == value[j + 1 - e2]);
        }
    }
    lemma_find_crlf_at(s, e2, e3);
    assert(s.subrange(p, a) =~= name) by {
        assert forall|j: int| 0 <= j < name.len() implies s.subrange(p, a)[j] == name[j] by {
            assert(s[p + j] == bytes[j]);
        }
    }
    assert(s.subrange(e2, e3) =~= value) by {
        assert forall|j: int| 0 <= j < value.len() implies s.subrange(e2, e3)[j] == value[j] by {
            assert(s[p + (e2 - p + j)] == bytes[e2 - p + j]);
        }
    }
    lemma_header_name_is_utf8(name);
}

proof fn lemma_header_line_at(s: Seq<u8>, p: int, line: (Seq<u8>, Seq<u8>))
    requires
        readable_line(line),
        0 <= p,
        p + header_line_bytes(line).len() <= s.len(),
        s.subrange(p, p + header_line_bytes(line).len()) == header_line_bytes(line),
    ensures
        spec_header_at(s, p) == Ok::<(int, SpecHeader), crate::scan::ParseError>(
            (p + header_line_bytes(line).len(), (decode_utf8(line.0), decode_utf8(line.1))),
        ),
{
    assert(header_line_bytes(line) =~= spaced_line_bytes(line.0, seq![32u8], line.1));
    lemma_spaced_line_at(s, p, line.0, seq![32u8], line.1);
}

/// A header line written as `name:`, any run of spaces and tabs (none
/// included), then `value CR LF`, where the name is made of header-name bytes
/// and the value is UTF-8 that does not start with a space or a tab and holds
/// no `CR LF`, reads back as that name and value, consuming the whole line
/// and leaving what follows unread.
pub proof fn law_header_line_any_spacing(name: Seq<u8>, w: Seq<u8>, value: Seq<u8>, rest: Seq<u8>)
    requires
        forall|i: int| 0 <= i < name.len() ==> header_name_byte(#[trigger] name[i]),
        forall|i: int| 0 <= i < w.len() ==> (#[trigger] w[i] == 32 || w[i] == 9),
        valid_utf8(value),
        value.len() == 0 || (value[0] != 32 && value[0] != 9),
        forall|i: int| 0 <= i && i + 1 < value.len() ==> !(#[trigger] value[i] == 13 && value[i + 1] == 10),
    ensures
        spec_header_at(name + seq![58u8] + w + value + seq![13u8, 10u8] + rest, 0) == Ok::<
            (int, (Seq<char>, Seq<char>)),
            crate::scan::ParseError,
        >(((name.len() + w.len() + value.len() + 3) as int, (decode_utf8(name), decode_utf8(value)))),
{
    let line = spaced_line_bytes(name, w, value);
    let s = line + rest;
    assert(s =~= name + seq![58u8] + w + value + seq![13u8, 10u8] + rest);
    assert(s.subrange(0, line.len() as int) =~= line);
    lemma_spaced_line_at(s, 0, name, w, value);
}

/// A header line written as `name: value CR LF`, where the name is made of
/// header-name bytes and the value is UTF-8 that does not start with a space
/// or a tab and holds no `CR LF`, reads back as that name and value, and
/// what follows the line is left unread.
pub proof fn law_header_line_reads_parts(name: Seq<u8>, value: Seq<u8>, rest: Seq<u8>)
    requires
        readable_line((name, value)),
    ensures
        spec_header_at(header_line_bytes((name, value)) + rest, 0) == Ok::<
            (int, (Seq<char>, Seq<char>)),
            crate::scan::ParseError,
        >(((name.len() + value.len() + 4) as int, (decode_utf8(name), decode_utf8(value)))),
{
    let s = header_line_bytes((name, value)) + rest;
    assert(s.subrange(0, header_line_bytes((name, value)).len() as int) =~= header_line_bytes(
        (name, value),
    ));
    lemma_header_line_at(s, 0, (name, value));
}

/// The bytes of a block of header lines, one after another.
pub open spec fn header_block(lines: Seq<(Seq<u8>, Seq<u8>)>) -> Seq<u8>
    decreases lines.len(),
{
    if lines.len() == 0 {
        seq![]
    } else {
        header_line_bytes(lines[0]) + header_block(lines.drop_first())
    }
}

/// The name and value of each line, as text.
pub open spec fn decoded_lines(lines: Seq<(Seq<u8>, Seq<u8>)>) -> Seq<SpecHeader> {
    lines.map_values(|l: (Seq<u8>, Seq<u8>)| (decode_utf8(l.0), decode_utf8(l.1)))
}

proof fn lemma_header_block_at(s: Seq<u8>, p: int, lines: Seq<(Seq<u8>, Seq<u8>)>)
    requires
        forall|l: int| 0 <= l < lines.len() ==> readable_line(#[trigger] lines[l]),
        0 <= p,
        p + header_block(lines).len() + 1 <= s.len(),
        s.subrange(p, p + header_block(lines).len()) == header_block(lines),
        s[p + header_block(lines).len()] == 13,
    ensures
        spec_header_lines(s, p) == Ok::<(int, Seq<SpecHeader>), crate::scan::ParseError>(
            (p + header_block(lines).len(), decoded_lines(lines)),
        ),
    decreases lines.len(),
{
    let block = header_block(lines);
    if lines.len() == 0 {
        assert(block.len() == 0);
        lemma_byte_span_at(s, p, p, ByteClass::HeaderName);
        assert(s.subrange(p, p) =~= Seq::<u8>::empty());
        assert(decoded_lines(lines) =~= Seq::<SpecHeader>::empty());
    } else {
        let first = header_line_bytes(lines[0]);
        let others = lines.drop_first();
        let tail = header_block(others);
        assert(block == first + tail);
        let q = p + first.len();
        assert(s.subrange(p, q) =~= first) by {
            assert forall|j: int| 0 <= j < first.len() implies s.subrange(p, q)[j] == first[j] by {
                assert(s.subrange(p, p + block.len())[j] == s[p + j]);
                assert(block[j] == first[j]);
            }
        }
        assert(readable_line(lines[0]));
        lemma_header_line_at(s, p, lines[0]);
        assert(s.subrange(q, q + tail.len()) =~= tail) by {
            assert forall|j: int| 0 <= j < tail.len() implies s.subrange(q, q + tail.len())[j]
                == tail[j] by {
                assert(s.subrange(p, p + block.len())[first.len() + j] == s[p + first.len() + j]);
                assert(block[first.len() + j] == tail[j]);
            }
        }
        assert forall|l: int| 0 <= l < others.len() implies readable_line(#[trigger] others[l]) by {
            assert(others[l] == lines[l + 1]);
        }
        lemma_header_block_at(s, q, others);
        assert(decoded_lines(lines) =~= seq![(decode_utf8(lines[0].0), decode_utf8(lines[0].1))]
            + decoded_lines(others));
    }
}

proof fn lemma_header_block_to_end(s: Seq<u8>, p: int, lines: Seq<(Seq<u8>, Seq<u8>)>)
    requires
        forall|l: int| 0 <= l < lines.len() ==> readable_line(#[trigger] lines[l]),
        0 <= p,
        p + header_block(lines).len() == s.len(),
        s.subrange(p, p + header_block(lines).len()) == header_block(lines),
    ensures
        spec_header_lines(s, p) == Err::<(int, Seq<SpecHeader>), crate::scan::ParseError>(
            crate::scan::ParseError::Incomplete,
        ),
    decreases lines.len(),
{
    let block = header_block(lines);
    if lines.len() == 0 {
        lemma_byte_span_at(s, p, p, ByteClass::HeaderName);
    } else {
        let first = header_line_bytes(lines[0]);
        let others = lines.drop_first();
        let tail = header_block(others);
        assert(block == first + tail);
        let q = p + first.len();
        assert(s.subrange(p, q) =~= first) by {
            assert forall|j: int| 0 <= j < first.len() implies s.subrange(p, q)[j] == first[j] by {
                assert(s.subrange(p, p + block.len())[j] == s[p + j]);
                assert(block[j] == first[j]);
            }
        }
        assert(readable_line(lines[0]));
        lemma_header_line_at(s, p, lines[0]);
        assert(s.subrange(q, q + tail.len()) =~= tail) by {
            assert forall|j: int| 0 <= j < tail.len() implies s.subrange(q, q + tail.len())[j]
                == tail[j] by {
                assert(s.subrange(p, p + block.len())[first.len() + j] == s[p + first.len() + j]);
                assert(block[first.len() + j] == tail[j]);
            }
        }
        assert forall|l: int| 0 <= l < others.len() implies readable_line(#[trigger] others[l]) by {
            assert(others[l] == lines[l + 1]);
        }
        lemma_header_block_to_end(s, q, others);
    }
}

/// An optional empty line that may stand before a message head.
pub open spec fn lead_text(lead: bool) -> Seq<u8> {
    if lead {
        seq![13u8, 10u8]
    } else {
        Seq::<u8>::empty()
    }
}

/// The bytes of a message head and what follows it: an optional empty line,
/// the start line, the header lines, the empty line that ends the head, then
/// the body.
#[verifier::opaque]
pub open spec fn message_text(
    lead: bool,
    start: Seq<u8>,
    lines: Seq<(Seq<u8>, Seq<u8>)>,
    body: Seq<u8>,
) -> Seq<u8> {
    lead_text(lead) + start + seq![13u8, 10u8] + header_block(lines) + seq![13u8, 10u8] + body
}

proof fn lemma_message_assembled(
    s: Seq<u8>,
    p: int,
    e: int,
    r: int,
    hs: Seq<SpecHeader>,
    start: Seq<u8>,
)
    requires
        s.subrange(p, e) == start,
        (p == 2 && tag_match(s, 0, seq![13u8, 10u8]) == TagMatch::Matched) || (p == 0 && tag_match(
            s,
            0,
            seq![13u8, 10u8],
        ) == TagMatch::Mismatch),
        crate::scan::find_crlf(s, p) == Some(e),
        valid_utf8(s.subrange(p, e)),
        spec_header_lines(s, e + 2) == Ok::<(int, Seq<SpecHeader>), crate::scan::ParseError>((r, hs)),
        tag_match(s, r, seq![13u8, 10u8]) == TagMatch::Matched,
    ensures
        spec_message(s) == Ok::<(int, SpecMessage), crate::scan::ParseError>(
            (
                r + 2,
                SpecMessage {
                    startline: decode_utf8(start),
                    headers: group_headers(hs),
                },
            ),
        ),
{
}

proof fn lemma_message_layout(
    lead: bool,
    start: Seq<u8>,
    lines: Seq<(Seq<u8>, Seq<u8>)>,
    body: Seq<u8>,
)
    ensures
        ({
            let s = message_text(lead, start, lines, body);
            let p = lead_text(lead).len() as int;
            let n = p + start.len();
            let r = n + 2 + header_block(lines).len();
            &&& s.len() == r + 2 + body.len()
            &&& forall|j: int| 0 <= j < start.len() ==> s[p + j] == #[trigger] start[j]
            &&& s[n] == 13u8 && s[n + 1] == 10u8
            &&& forall|j: int|
                0 <= j < header_block(lines).len() ==> s[n + 2 + j] == #[trigger] header_block(
                    lines,
                )[j]
            &&& s[r] == 13u8 && s[r + 1] == 10u8
            &&& lead ==> s[0] == 13u8 && s[1] == 10u8
        }),
{
    reveal(message_text);
    let crlf = seq![13u8, 10u8];
    let pre = lead_text(lead);
    let block = header_block(lines);
    let x1 = pre + start;
    let x2 = x1 + crlf;
    let x3 = x2 + block;
    let x4 = x3 + crlf;
    let s = message_text(lead, start, lines, body);
    assert(s == x4 + body);
    let p = pre.len() as int;
    let n = p + start.len();
    let r = n + 2 + block.len();
    assert forall|j: int| 0 <= j < start.len() implies s[p + j] == #[trigger] start[j] by {
        assert(x1[p + j] == start[j]);
        assert(x2[p + j] == x1[p + j]);
        assert(x3[p + j] == x2[p + j]);
        assert(x4[p + j] == x3[p + j]);
    }
    assert(x2[n] == 13u8 && x2[n + 1] == 10u8);
    assert(x3[n] == x2[n] && x3[n + 1] == x2[n + 1]);
    assert(x4[n] == x3[n] && x4[n + 1] == x3[n + 1]);
    assert forall|j: int| 0 <= j < block.len() implies s[n + 2 + j] == #[trigger] block[j] by {
        assert(x3[x2.len() + j] == block[j]);
        assert(x4[n + 2 + j] == x3[n + 2 + j]);
    }
    assert(x4[r] == 13u8 && x4[r + 1] == 10u8);
    if lead {
        assert(x1[0] == 13u8 && x1[1] == 10u8);
        assert(x2[0] == x1[0] && x2[1] == x1[1]);
        assert(x3[0] == x2[0] && x3[1] == x2[1]);
        assert(x4[0] == x3[0] && x4[1] == x3[1]);
    }
}

/// A message head written as an optional empty line, a start line, header
/// lines and an empty line reads back as that start line and as the header
/// lines grouped by name (see `law_headers_grouped`); the body after it is
/// left unread. The start line must be non-empty UTF-8 without `CR LF`, and
/// each header line must read back as written (see `readable_line`).
pub proof fn law_message_reads_parts(
    lead: bool,
    start: Seq<u8>,
    lines: Seq<(Seq<u8>, Seq<u8>)>,
    body: Seq<u8>,
)
    requires
        start.len() > 0,
        valid_utf8(start),
        forall|i: int| 0 <= i && i + 1 < start.len() ==> !(#[trigger] start[i] == 13 && start[i + 1] == 10),
        forall|l: int| 0 <= l < lines.len() ==> readable_line(#[trigger] lines[l]),
    ensures
        spec_message(message_text(lead, start, lines, body)) == Ok::<
            (int, SpecMessage),
            crate::scan::ParseError,
        >(
            (
                (lead_text(lead).len() + start.len() + header_block(lines).len() + 4) as int,
                SpecMessage {
                    startline: decode_utf8(start),
                    headers: group_headers(decoded_lines(lines)),
                },
            ),
        ),
{
    let s = message_text(lead, start, lines, body);
    let block = header_block(lines);
    let p = lead_text(lead).len() as int;
    let n = p + start.len();
    let r = n + 2 + block.len();
    let crlf = seq![13u8, 10u8];
    lemma_message_layout(lead, start, lines, body);
    if lead {
        assert(tag_match(s, 0, crlf) == TagMatch::Matched);
    } else {
        assert(s[0] == start[0]);
        if start.len() > 1 {
            assert(s[1] == start[1]);
        } else {
            assert(s[1] == 13u8);
        }
        assert(s[0] != crlf[0] || s[1] != crlf[1]);
        assert(tag_match(s, 0, crlf) == TagMatch::Mismatch);
    }
    assert forall|j: int| p <= j < n implies !(#[trigger] s[j] == 13 && s[j + 1] == 10) by {
        assert(s[p + (j - p)] == start[j - p]);
        if j + 1 < n {
            assert(s[p + (j + 1 - p)] == start[j + 1 - p]);
        }
    }
    lemma_find_crlf_at(s, p, n);
    assert(s.subrange(p, n) =~= start) by {
        assert forall|j: int| 0 <= j < start.len() implies s.subrange(p, n)[j] == start[j] by {
            assert(s[p + j] == start[j]);
        }
    }
    assert(s.subrange(n + 2, r) =~= block) by {
        assert forall|j: int| 0 <= j < block.len() implies s.subrange(n + 2, r)[j] == block[j] by {
            assert(s[n + 2 + j] == block[j]);
        }
    }
    lemma_header_block_at(s, n + 2, lines);
    assert(tag_match(s, r, crlf) == TagMatch::Matched);
    lemma_message_assembled(s, p, n, r, decoded_lines(lines), start);
}

/// The text of a parameter: `;key=value`, or `;key` where there is no value.
pub open spec fn param_text(k: Seq<char>, v: Option<Seq<char>>) -> Seq<char> {
    match v {
        Some(v) => seq![';'] + k + seq!['='] + v,
        None => seq![';'] + k,
    }
}

/// A parameter written as `;key=value` or `;key`, where the key holds
/// neither `=` nor `;` and the value is made of visible characters other
/// than `;`, reads back as that key and value. What follows is left unread
/// where it cannot continue the parameter: after a value, where it does not
/// start with such a character; after a bare key, where it is empty or
/// starts the next parameter.
pub proof fn law_uri_param_reads_parts(k: Seq<char>, v: Option<Seq<char>>, t: Seq<char>)
    requires
        forall|i: int| 0 <= i < k.len() ==> k[i] != '=' && k[i] != ';',
        match v {
            Some(v) => {
                &&& forall|i: int| 0 <= i < v.len() ==> param_value_char(#[trigger] v[i])
                &&& t.len() == 0 || !param_value_char(t[0])
            },
            None => t.len() == 0 || t[0] == ';',
        },
    ensures
        spec_uri_param(param_text(k, v) + t, 0) == Ok::<(int, SpecParam), crate::scan::ParseError>(
            (param_text(k, v).len() as int, (k, v)),
        ),
{
    let s = param_text(k, v) + t;
    let e = 1 + k.len() as int;
    assert(s[0] == ';');
    assert(tag_match(s, 0, seq![';']) == TagMatch::Matched);
    assert forall|j: int| 1 <= j < e implies in_class(CharClass::ParamKey, #[trigger] s[j]) by {
        assert(s[j] == k[j - 1]);
    }
    match v {
        Some(w) => {
            assert(s[e] == '=');
            lemma_span_at(s, 1, e, CharClass::ParamKey);
            assert(tag_match(s, e, seq!['=']) == TagMatch::Matched);
            let f = e + 1 + w.len();
            assert forall|j: int| e + 1 <= j < f implies in_class(CharClass::UriValue, #[trigger] s[j]) by {
                assert(s[j] == w[j - e - 1]);
            }
            if f < s.len() {
                assert(s[f] == t[0]);
            }
            lemma_span_at(s, e + 1, f, CharClass::UriValue);
            assert(s.subrange(1, e) =~= k);
            assert(s.subrange(e + 1, f) =~= w);
        },
        None => {
            if e < s.len() {
                assert(s[e] == t[0]);
                assert(tag_match(s, e, seq!['=']) == TagMatch::Mismatch) by {
                    assert(s[e + 0] != seq!['='][0]);
                }
            }
            lemma_span_at(s, 1, e, CharClass::ParamKey);
            assert(s.subrange(1, e) =~= k);
        },
    }
}

/// The number that a string of ASCII digits spells in decimal.
pub open spec fn decimal_value(d: Seq<char>) -> int
    decreases d.len(),
{
    if d.len() == 0 {
        0
    } else {
        decimal_value(d.drop_last()) * 10 + (d.last() as int - '0' as int)
    }
}

proof fn lemma_decimal_value(d: Seq<char>)
    ensures
        decimal_value(d) == digits_value(d),
    decreases d.len(),
{
    if d.len() > 0 {
        lemma_decimal_value(d.drop_last());
    }
}

/// A status line written as `version SP code SP message`, where the version
/// holds no space, the code is ASCII digits (optionally after a `+`) whose
/// value fits in a `u32`, and the message is made of visible characters,
/// reads back as those parts with the code's decimal value, and what follows
/// is left unread where it does not start with a visible character.
pub proof fn law_status_line_reads_parts(
    ver: Seq<char>,
    plus: bool,
    code: Seq<char>,
    msg: Seq<char>,
    t: Seq<char>,
)
    requires
        forall|i: int| 0 <= i < ver.len() ==> ver[i] != ' ',
        code.len() > 0,
        forall|i: int| 0 <= i < code.len() ==> '0' <= #[trigger] code[i] <= '9',
        decimal_value(code) <= u32::MAX,
        forall|i: int| 0 <= i < msg.len() ==> visible_char(msg[i]),
        t.len() == 0 || !visible_char(t[0]),
    ensures
        ({
            let ct = if plus {
                seq!['+'] + code
            } else {
                code
            };
            spec_status_line(ver + seq![' '] + ct + seq![' '] + msg + t) == Ok::<
                (int, SpecStatusLine),
                crate::scan::ParseError,
            >(
                (
                    (ver.len() + ct.len() + msg.len() + 2) as int,
                    SpecStatusLine { code: decimal_value(code) as u32, message: msg, version: ver },
                ),
            )
        }),
{
    let ct = if plus {
        seq!['+'] + code
    } else {
        code
    };
    lemma_decimal_value(code);
    let s = ver + seq![' '] + ct + seq![' '] + msg + t;
    let a = ver.len() as int;
    let b = a + 1 + ct.len();
    let c = b + 1 + msg.len();
    assert forall|j: int| 0 <= j < a implies s[j] != ' ' by {
        assert(s[j] == ver[j]);
    }
    assert(s[a] == ' ');
    lemma_find_at(s, 0, a, ' ');
    assert forall|j: int| a + 1 <= j < b implies s[j] != ' ' by {
        assert(s[j] == ct[j - a - 1]);
        if plus {
            if j - a - 1 > 0 {
                assert(ct[j - a - 1] == code[j - a - 2]);
                assert('0' <= code[j - a - 2] <= '9');
            }
        } else {
            assert('0' <= code[j - a - 1] <= '9');
        }
    }
    assert(s[b] == ' ');
    lemma_find_at(s, a + 1, b, ' ');
    assert(s.subrange(a + 1, b) =~= ct);
    assert('0' <= code[0] <= '9');
    if plus {
        assert(ct.drop_first() =~= code);
    }
    assert(unsigned_digits(ct) == code);
    assert forall|i: int| 0 <= i < code.len() implies is_ascii_digit(#[trigger] code[i]) by {
        assert('0' <= code[i] <= '9');
    }
    assert forall|j: int| b + 1 <= j < c implies spec_is_vchar(#[trigger] s[j]) by {
        assert(s[j] == msg[j - b - 1]);
    }
    if c < s.len() {
        assert(s[c] == t[0]);
    }
    lemma_span_at(s, b + 1, c, CharClass::VChar);
    assert(s.subrange(0, a) =~= ver);
    assert(s.subrange(b + 1, c) =~= msg);
}

/// A parameter key: it holds neither `=` nor `;`.
pub open spec fn param_key_ok(k: Seq<char>) -> bool {
    forall|i: int| 0 <= i < k.len() ==> k[i] != '=' && k[i] != ';'
}

/// A parameter value: visible characters other than `;`.
pub open spec fn param_value_ok(v: Seq<char>) -> bool {
    forall|i: int| 0 <= i < v.len() ==> param_value_char(#[trigger] v[i])
}

/// A list of `key=value` parameters that can be written and read back.
pub open spec fn params_ok(ps: Seq<(Seq<char>, Seq<char>)>) -> bool {
    forall|l: int| 0 <= l < ps.len() ==> param_key_ok((#[trigger] ps[l]).0) && param_value_ok(ps[l].1)
}

/// The text of the parameters `;k1=v1;k2=v2...`.
pub open spec fn params_text(ps: Seq<(Seq<char>, Seq<char>)>) -> Seq<char>
    decreases ps.len(),
{
    if ps.len() == 0 {
        seq![]
    } else {
        param_text(ps[0].0, Some(ps[0].1)) + params_text(ps.drop_first())
    }
}

/// Some parameter of the list has key `k`.
pub open spec fn has_key(ps: Seq<(Seq<char>, Seq<char>)>, k: Seq<char>) -> bool {
    exists|l: int| 0 <= l < ps.len() && (#[trigger] ps[l]).0 == k
}

/// A map holds exactly the keys of the list, each with the value of its last
/// occurrence.
pub open spec fn params_read_back(
    m: Map<Seq<char>, Option<Seq<char>>>,
    ps: Seq<(Seq<char>, Seq<char>)>,
) -> bool {
    &&& forall|k: Seq<char>|
        #![trigger m.dom().contains(k)]
        #![trigger has_key(ps, k)]
        m.dom().contains(k) <==> has_key(ps, k)
    &&& forall|l: int|
        0 <= l < ps.len() && (forall|j: int| l < j < ps.len() ==> (#[trigger] ps[j]).0 != ps[l].0)
            ==> m[(#[trigger] ps[l]).0] == Some(ps[l].1)
}

/// The list with each value present.
pub open spec fn some_values(ps: Seq<(Seq<char>, Seq<char>)>) -> Seq<SpecParam> {
    ps.map_values(|x: (Seq<char>, Seq<char>)| (x.0, Some(x.1)))
}

proof fn lemma_param_at(s: Seq<char>, p: int, k: Seq<char>, v: Seq<char>)
    requires
        0 <= p,
        param_key_ok(k),
        param_value_ok(v),
        p + param_text(k, Some(v)).len() <= s.len(),
        forall|j: int|
            0 <= j < param_text(k, Some(v)).len() ==> s[p + j] == #[trigger] param_text(k, Some(v))[j],
        p + param_text(k, Some(v)).len() == s.len() || s[p + param_text(k, Some(v)).len()] == ';',
    ensures
        spec_uri_param(s, p) == Ok::<(int, SpecParam), crate::scan::ParseError>(
            (p + param_text(k, Some(v)).len(), (k, Some(v))),
        ),
{
    let t = param_text(k, Some(v));
    let e = p + 1 + k.len();
    let f = e + 1 + v.len();
    assert(t[0] == ';');
    assert(s[p + 0] == t[0]);
    assert(tag_match(s, p, seq![';']) == TagMatch::Matched);
    assert forall|j: int| p + 1 <= j < e implies in_class(CharClass::ParamKey, #[trigger] s[j]) by {
        assert(s[p + (j - p)] == t[j - p]);
        assert(t[j - p] == k[j - p - 1]);
    }
    assert(t[e - p] == '=');
    assert(s[p + (e - p)] == t[e - p]);
    lemma_span_at(s, p + 1, e, CharClass::ParamKey);
    assert(tag_match(s, e, seq!['=']) == TagMatch::Matched);
    assert forall|j: int| e + 1 <= j < f implies in_class(CharClass::UriValue, #[trigger] s[j]) by {
        assert(s[p + (j - p)] == t[j - p]);
        assert(t[j - p] == v[j - e - 1]);
        assert(param_value_char(v[j - e - 1]));
    }
    lemma_span_at(s, e + 1, f, CharClass::UriValue);
    assert(s.subrange(p + 1, e) =~= k) by {
        assert forall|j: int| 0 <= j < k.len() implies s.subrange(p + 1, e)[j] == k[j] by {
            assert(s[p + (1 + j)] == t[1 + j]);
        }
    }
    assert(s.subrange(e + 1, f) =~= v) by {
        assert forall|j: int| 0 <= j < v.len() implies s.subrange(e + 1, f)[j] == v[j] by {
            assert(s[p + (e + 1 - p + j)] == t[e + 1 - p + j]);
        }
    }
}

proof fn lemma_params_at(s: Seq<char>, p: int, ps: Seq<(Seq<char>, Seq<char>)>)
    requires
        0 <= p,
        params_ok(ps),
        p + params_text(ps).len() == s.len(),
        forall|j: int| 0 <= j < params_text(ps).len() ==> s[p + j] == #[trigger] params_text(ps)[j],
    ensures
        spec_params(s, p) == (s.len() as int, some_values(ps)),
    decreases ps.len(),
{
    if ps.len() == 0 {
        assert(tag_match(s, p, seq![';']) == TagMatch::Short);
        assert(some_values(ps) =~= Seq::<SpecParam>::empty());
    } else {
        let first = param_text(ps[0].0, Some(ps[0].1));
        let rest = ps.drop_first();
        let rt = params_text(rest);
        let pt = params_text(ps);
        assert(pt == first + rt);
        let q = p + first.len();
        assert forall|j: int| 0 <= j < first.len() implies s[p + j] == #[trigger] first[j] by {
            assert(s[p + j] == pt[j]);
        }
        if rest.len() > 0 {
            assert(rt == param_text(rest[0].0, Some(rest[0].1)) + params_text(rest.drop_first()));
            assert(rt[0] == ';');
            assert(s[p + first.len()] == pt[first.len() as int]);
        }
        assert(param_key_ok(ps[0].0) && param_value_ok(ps[0].1));
        lemma_param_at(s, p, ps[0].0, ps[0].1);
        assert forall|l: int| 0 <= l < rest.len() implies param_key_ok((#[trigger] rest[l]).0)
            && param_value_ok(rest[l].1) by {
            assert(rest[l] == ps[l + 1]);
        }
        assert forall|j: int| 0 <= j < rt.len() implies s[q + j] == #[trigger] rt[j] by {
            assert(s[p + (first.len() + j)] == pt[first.len() + j]);
        }
        lemma_params_at(s, q, rest);
        assert(some_values(ps) =~= seq![(ps[0].0, Some(ps[0].1))] + some_values(rest));
    }
}

proof fn lemma_params_read_back(ps: Seq<(Seq<char>, Seq<char>)>)
    ensures
        params_read_back(params_map(some_values(ps)), ps),
{
    let sv = some_values(ps);
    law_params_last_wins(sv);
    let m = params_map(sv);
    assert forall|k: Seq<char>|
        #![trigger m.dom().contains(k)]
        #![trigger has_key(ps, k)]
        m.dom().contains(k) <==> has_key(ps, k) by {
        assert(m.dom().contains(k) <==> has_param_named(sv, k));
        if has_key(ps, k) {
            let l = choose|l: int| 0 <= l < ps.len() && (#[trigger] ps[l]).0 == k;
            assert(sv[l].0 == k);
        }
        if has_param_named(sv, k) {
            let l = choose|l: int| 0 <= l < sv.len() && (#[trigger] sv[l]).0 == k;
            assert(ps[l].0 == k);
        }
    }
    assert forall|l: int|
        0 <= l < ps.len() && (forall|j: int| l < j < ps.len() ==> (#[trigger] ps[j]).0 != ps[l].0)
            implies m[(#[trigger] ps[l]).0] == Some(ps[l].1) by {
        assert(sv[l] == (ps[l].0, Some(ps[l].1)));
        assert forall|j: int| l < j < sv.len() implies (#[trigger] sv[j]).0 != sv[l].0 by {
            assert(sv[j].0 == ps[j].0);
        }
    }
}

/// The display name of a name-addr as written: `"name" ` (closing quote and a
/// space), or nothing.
pub open spec fn display_name_text(dn: Option<Seq<char>>) -> Seq<char> {
    match dn {
        Some(n) => seq!['"'] + n + seq!['"', ' '],
        None => seq![],
    }
}

/// A name-addr written as an optional display name `"name" ` (name without
/// `"`), then `<uri>` (URI without `>`), then any number of parameters
/// `;key=value` (keys without `=` or `;`, values of visible characters other
/// than `;`) reads back with that display name, that URI, and every one of
/// those parameters (the last value of a repeated key winning), consuming it
/// all.
pub proof fn law_name_addr_reads_all_params(
    dn: Option<Seq<char>>,
    u: Seq<char>,
    ps: Seq<(Seq<char>, Seq<char>)>,
)
    requires
        dn matches Some(n) ==> forall|i: int| 0 <= i < n.len() ==> n[i] != '"',
        forall|i: int| 0 <= i < u.len() ==> u[i] != '>',
        params_ok(ps),
    ensures
        ({
            let s = display_name_text(dn) + seq!['<'] + u + seq!['>'] + params_text(ps);
            &&& spec_name_addr(s) matches Ok((n, a))
            &&& n == s.len()
            &&& a.name == dn
            &&& a.uri == u
            &&& params_read_back(a.parameters, ps)
        }),
{
    let dt = display_name_text(dn);
    let pt = params_text(ps);
    let s = dt + seq!['<'] + u + seq!['>'] + pt;
    let p = dt.len() as int;
    let e = p + 1 + u.len();
    match dn {
        Some(nm) => {
            let q = 1 + nm.len() as int;
            assert(s[0] == '"');
            assert(tag_match(s, 0, seq!['"']) == TagMatch::Matched);
            assert forall|j: int| 1 <= j < q implies s[j] != '"' by {
                assert(s[j] == nm[j - 1]);
            }
            assert(s[q] == '"');
            lemma_find_at(s, 1, q, '"');
            assert(s[q + 1] == ' ');
            assert(tag_match(s, q, seq!['"', ' ']) == TagMatch::Matched);
            assert(s.subrange(1, q) =~= nm);
            assert(spec_display_name(s) == (p, dn));
        },
        None => {
            assert(s[0] == '<');
            assert(s[0int + 0] != seq!['"'][0]);
            assert(tag_match(s, 0, seq!['"']) == TagMatch::Mismatch);
            assert(spec_display_name(s) == (0int, None::<Seq<char>>));
        },
    }
    assert(s[p] == '<');
    assert(tag_match(s, p, seq!['<']) == TagMatch::Matched);
    assert forall|j: int| p + 1 <= j < e implies s[j] != '>' by {
        assert(s[j] == u[j - p - 1]);
    }
    assert(s[e] == '>');
    lemma_find_at(s, p + 1, e, '>');
    assert forall|j: int| 0 <= j < pt.len() implies s[e + 1 + j] == #[trigger] pt[j] by {}
    lemma_params_at(s, e + 1, ps);
    assert(s.subrange(p + 1, e) =~= u);
    lemma_params_read_back(ps);
}

/// A `Via` value written as `protocol host:port` followed by any number of
/// parameters `;key=value` (protocol without a space, host without `:`, port
/// and values of visible characters other than `;`, keys without `=` or `;`)
/// reads back as those parts with every one of those parameters (the last
/// value of a repeated key winning), consuming it all.
pub proof fn law_via_reads_all_params(
    proto: Seq<char>,
    host: Seq<char>,
    port: Seq<char>,
    ps: Seq<(Seq<char>, Seq<char>)>,
)
    requires
        forall|i: int| 0 <= i < proto.len() ==> proto[i] != ' ',
        forall|i: int| 0 <= i < host.len() ==> host[i] != ':',
        param_value_ok(port),
        params_ok(ps),
    ensures
        ({
            let s = proto + seq![' '] + host + seq![':'] + port + params_text(ps);
            &&& spec_via(s) matches Ok((n, v))
            &&& n == s.len()
            &&& v.protocol == proto
            &&& v.host == host
            &&& v.port == port
            &&& params_read_back(v.parameters, ps)
        }),
{
    let pt = params_text(ps);
    let s = proto + seq![' '] + host + seq![':'] + port + pt;
    let a = proto.len() as int;
    let b = a + 1 + host.len();
    let c = b + 1 + port.len();
    assert forall|j: int| 0 <= j < a implies s[j] != ' ' by {
        assert(s[j] == proto[j]);
    }
    assert(s[a] == ' ');
    lemma_find_at(s, 0, a, ' ');
    assert forall|j: int| a + 1 <= j < b implies s[j] != ':' by {
        assert(s[j] == host[j - a - 1]);
    }
    assert(s[b] == ':');
    lemma_find_at(s, a + 1, b, ':');
    assert forall|j: int| b + 1 <= j < c implies in_class(CharClass::UriValue, #[trigger] s[j]) by {
        assert(s[j] == port[j - b - 1]);
        assert(param_value_char(port[j - b - 1]));
    }
    if ps.len() > 0 {
        assert(pt == param_text(ps[0].0, Some(ps[0].1)) + params_text(ps.drop_first()));
        assert(pt[0] == ';');
        assert(s[c] == pt[0]);
    }
    lemma_span_at(s, b + 1, c, CharClass::UriValue);
    assert forall|j: int| 0 <= j < pt.len() implies s[c + j] == #[trigger] pt[j] by {}
    lemma_params_at(s, c, ps);
    assert(s.subrange(0, a) =~= proto);
    assert(s.subrange(a + 1, b) =~= host);
    assert(s.subrange(b + 1, c) =~= port);
    lemma_params_read_back(ps);
}

/// The user part of a URI written as `user:password@` or `user@`, where user
/// and password hold neither `:` nor `@`, reads back as that user and
/// password (none for `user@`), leaving what follows the `@` unread.
pub proof fn law_uri_auth_reads_parts(u: Seq<char>, w: Seq<char>, t: Seq<char>)
    requires
        forall|i: int| 0 <= i < u.len() ==> u[i] != ':' && u[i] != '@',
        forall|i: int| 0 <= i < w.len() ==> w[i] != ':' && w[i] != '@',
    ensures
        spec_uri_auth(u + seq![':'] + w + seq!['@'] + t, 0) == Ok::<
            (int, (Option<Seq<char>>, Option<Seq<char>>)),
            crate::scan::ParseError,
        >(((u.len() + w.len() + 2) as int, (Some(u), Some(w)))),
        spec_uri_auth(u + seq!['@'] + t, 0) == Ok::<
            (int, (Option<Seq<char>>, Option<Seq<char>>)),
            crate::scan::ParseError,
        >(((u.len() + 1) as int, (Some(u), None))),
{
    let a = u.len() as int;
    let s = u + seq![':'] + w + seq!['@'] + t;
    let b = a + 1 + w.len();
    assert forall|j: int| 0 <= j < a implies in_class(CharClass::AuthPart, #[trigger] s[j]) by {
        assert(s[j] == u[j]);
    }
    assert(s[a] == ':');
    lemma_span_at(s, 0, a, CharClass::AuthPart);
    assert(tag_match(s, a, seq![':']) == TagMatch::Matched);
    assert forall|j: int| a + 1 <= j < b implies in_class(CharClass::AuthPart, #[trigger] s[j]) by {
        assert(s[j] == w[j - a - 1]);
    }
    assert(s[b] == '@');
    lemma_span_at(s, a + 1, b, CharClass::AuthPart);
    assert(tag_match(s, b, seq!['@']) == TagMatch::Matched);
    assert(s.subrange(0, a) =~= u);
    assert(s.subrange(a + 1, b) =~= w);

    let s2 = u + seq!['@'] + t;
    assert forall|j: int| 0 <= j < a implies in_class(CharClass::AuthPart, #[trigger] s2[j]) by {
        assert(s2[j] == u[j]);
    }
    assert(s2[a] == '@');
    lemma_span_at(s2, 0, a, CharClass::AuthPart);
    assert(s2[a + 0] != seq![':'][0]);
    assert(tag_match(s2, a, seq![':']) == TagMatch::Mismatch);
    assert(tag_match(s2, a, seq!['@']) == TagMatch::Matched);
    assert(s2.subrange(0, a) =~= u);
}

/// A URI written as `schema:host:port` with no user part (schema without
/// `:`, host of visible characters other than `:` and `@`, port of ASCII
/// digits whose value fits in a `u16`) reads back with no user or password,
/// that host, that port and no parameters, consuming it all.
pub proof fn law_uri_host_port_reads_parts(schema: Seq<char>, host: Seq<char>, port: Seq<char>)
    requires
        forall|i: int| 0 <= i < schema.len() ==> schema[i] != ':',
        forall|i: int|
            0 <= i < host.len() ==> visible_char(host[i]) && host[i] != ':' && host[i] != '@',
        port.len() > 0,
        forall|i: int| 0 <= i < port.len() ==> '0' <= #[trigger] port[i] <= '9',
        decimal_value(port) <= 65535,
    ensures
        ({
            let s = schema + seq![':'] + host + seq![':'] + port;
            &&& spec_uri(s) matches Ok((n, x))
            &&& n == s.len()
            &&& x.schema == schema
            &&& x.user is None
            &&& x.password is None
            &&& x.host == host
            &&& x.port == Some(decimal_value(port) as u16)
            &&& x.parameters == Map::<Seq<char>, Option<Seq<char>>>::empty()
        }),
{
    let s = schema + seq![':'] + host + seq![':'] + port;
    lemma_decimal_value(port);
    let a = schema.len() as int;
    let b = a + 1 + host.len();
    let c = s.len() as int;
    assert forall|j: int| 0 <= j < a implies s[j] != ':' by {
        assert(s[j] == schema[j]);
    }
    assert(s[a] == ':');
    lemma_find_at(s, 0, a, ':');
    assert(find(s, 0, ':') == Some(a));
    // The user part does not parse: no `@` follows.
    assert forall|j: int| a + 1 <= j < b implies in_class(CharClass::AuthPart, #[trigger] s[j]) by {
        assert(s[j] == host[j - a - 1]);
    }
    assert(s[b] == ':');
    lemma_span_at(s, a + 1, b, CharClass::AuthPart);
    assert(tag_match(s, b, seq![':']) == TagMatch::Matched);
    assert forall|j: int| b + 1 <= j < c implies in_class(CharClass::AuthPart, #[trigger] s[j]) by {
        assert(s[j] == port[j - b - 1]);
        assert('0' <= port[j - b - 1] <= '9');
    }
    lemma_span_at(s, b + 1, c, CharClass::AuthPart);
    assert(tag_match(s, c, seq!['@']) == TagMatch::Short);
    assert(spec_uri_auth(s, a + 1) is Err);
    // The address.
    assert forall|j: int| a + 1 <= j < b implies in_class(CharClass::AddressPart, #[trigger] s[j]) by {
        assert(s[j] == host[j - a - 1]);
    }
    lemma_span_at(s, a + 1, b, CharClass::AddressPart);
    assert forall|j: int| b + 1 <= j < c implies in_class(CharClass::DigitLike, #[trigger] s[j]) by {
        assert(s[j] == port[j - b - 1]);
        assert('0' <= port[j - b - 1] <= '9');
    }
    lemma_span_at(s, b + 1, c, CharClass::DigitLike);
    assert(s.subrange(b + 1, c) =~= port);
    assert(port[0] != '+') by {
        assert('0' <= port[0] <= '9');
    }
    assert(unsigned_digits(port) == port);
    assert forall|i: int| 0 <= i < port.len() implies is_ascii_digit(#[trigger] port[i]) by {
        assert('0' <= port[i] <= '9');
    }
    assert(spec_uri_address(s, a + 1) == (c, (host, Some(decimal_value(port) as u16)))) by {
        assert(s.subrange(a + 1, b) =~= host);
    }
    assert(tag_match(s, c, seq![';']) == TagMatch::Short);
    assert(spec_params(s, c) == (c, Seq::<SpecParam>::empty()));
    assert(params_map(Seq::<SpecParam>::empty()) == Map::<Seq<char>, Option<Seq<char>>>::empty());
    assert(s.subrange(0, a) =~= schema);
}

/// The user part of a URI as written: `user:password@`, `user@`, or nothing.
pub open spec fn auth_text(user: Option<(Seq<char>, Option<Seq<char>>)>) -> Seq<char> {
    match user {
        Some((u, Some(w))) => u + seq![':'] + w + seq!['@'],
        Some((u, None)) => u + seq!['@'],
        None => seq![],
    }
}

/// The host part of a URI as written: `host:port` or `host`.
pub open spec fn address_text(host: Seq<char>, port: Option<Seq<char>>) -> Seq<char> {
    match port {
        Some(d) => host + seq![':'] + d,
        None => host,
    }
}

/// Neither `:` nor `@` occurs in `x`.
pub open spec fn no_colon_at(x: Seq<char>) -> bool {
    forall|i: int| 0 <= i < x.len() ==> x[i] != ':' && x[i] != '@'
}

/// A port as written: ASCII digits whose value fits in a `u16`.
pub open spec fn port_ok(d: Seq<char>) -> bool {
    &&& d.len() > 0
    &&& forall|i: int| 0 <= i < d.len() ==> '0' <= #[trigger] d[i] <= '9'
    &&& decimal_value(d) <= 65535
}

proof fn lemma_auth_at(s: Seq<char>, p: int, u: Seq<char>, w: Option<Seq<char>>)
    requires
        0 <= p,
        no_colon_at(u),
        w matches Some(w) ==> no_colon_at(w),
        p + auth_text(Some((u, w))).len() <= s.len(),
        forall|j: int|
            0 <= j < auth_text(Some((u, w))).len() ==> s[p + j] == #[trigger] auth_text(
                Some((u, w)),
            )[j],
    ensures
        spec_uri_auth(s, p) == Ok::<(int, (Option<Seq<char>>, Option<Seq<char>>)), crate::scan::ParseError>(
            (p + auth_text(Some((u, w))).len(), (Some(u), w)),
        ),
{
    let t = auth_text(Some((u, w)));
    let a = p + u.len();
    assert forall|j: int| p <= j < a implies in_class(CharClass::AuthPart, #[trigger] s[j]) by {
        assert(s[p + (j - p)] == t[j - p]);
        assert(t[j - p] == u[j - p]);
    }
    assert(s[p + u.len()] == t[u.len() as int]);
    lemma_span_at(s, p, a, CharClass::AuthPart);
    assert(s.subrange(p, a) =~= u) by {
        assert forall|j: int| 0 <= j < u.len() implies s.subrange(p, a)[j] == u[j] by {
            assert(s[p + j] == t[j]);
        }
    }
    match w {
        Some(w) => {
            let b = a + 1 + w.len();
            assert(s[a] == ':');
            assert(tag_match(s, a, seq![':']) == TagMatch::Matched);
            assert forall|j: int| a + 1 <= j < b implies in_class(CharClass::AuthPart, #[trigger] s[j]) by {
                assert(s[p + (j - p)] == t[j - p]);
                assert(t[j - p] == w[j - a - 1]);
            }
            assert(s[p + (b - p)] == t[b - p]);
            lemma_span_at(s, a + 1, b, CharClass::AuthPart);
            assert(tag_match(s, b, seq!['@']) == TagMatch::Matched);
            assert(s.subrange(a + 1, b) =~= w) by {
                assert forall|j: int| 0 <= j < w.len() implies s.subrange(a + 1, b)[j] == w[j] by {
                    assert(s[p + (u.len() + 1 + j)] == t[u.len() + 1 + j]);
                }
            }
        },
        None => {
            assert(s[a] == '@');
            assert(s[a + 0] != seq![':'][0]);
            assert(tag_match(s, a, seq![':']) == TagMatch::Mismatch);
            assert(tag_match(s, a, seq!['@']) == TagMatch::Matched);
        },
    }
}

/// Where no `@` follows position `p`, the user part of a URI does not
/// parse there.
pub proof fn law_uri_auth_needs_at(s: Seq<char>, p: int)
    requires
        0 <= p,
        forall|j: int| p <= j < s.len() ==> s[j] != '@',
    ensures
        spec_uri_auth(s, p) is Err,
{
    if spec_uri_auth(s, p) is Ok {
        let a = span(s, p, CharClass::AuthPart);
        lemma_span_bounds(s, p, CharClass::AuthPart);
        let q = if tag_match(s, a, seq![':']) == TagMatch::Matched {
            lemma_span_bounds(s, a + 1, CharClass::AuthPart);
            span(s, a + 1, CharClass::AuthPart)
        } else {
            a
        };
        assert(tag_match(s, q, seq!['@']) == TagMatch::Matched);
        assert(q < s.len());
        if s[q] != '@' {
            assert(s[q + 0] != seq!['@'][0]);
        }
    }
}

proof fn lemma_address_at(s: Seq<char>, p: int, host: Seq<char>, port: Option<Seq<char>>)
    requires
        0 <= p,
        forall|i: int| 0 <= i < host.len() ==> visible_char(host[i]) && host[i] != ':' && host[i] != '@',
        port matches Some(d) ==> port_ok(d),
        p + address_text(host, port).len() <= s.len(),
        forall|j: int|
            0 <= j < address_text(host, port).len() ==> s[p + j] == #[trigger] address_text(
                host,
                port,
            )[j],
        port is None ==> p + address_text(host, port).len() == s.len(),
        port is Some ==> p + address_text(host, port).len() == s.len() || s[p + address_text(
            host,
            port,
        ).len()] == ';',
    ensures
        spec_uri_address(s, p) == (
            p + address_text(host, port).len(),
            (
                host,
                match port {
                    Some(d) => Some(decimal_value(d) as u16),
                    None => None,
                },
            ),
        ),
{
    let t = address_text(host, port);
    if let Some(d) = port {
        lemma_decimal_value(d);
    }
    let a = p + host.len();
    assert forall|j: int| p <= j < a implies in_class(CharClass::AddressPart, #[trigger] s[j]) by {
        assert(s[p + (j - p)] == t[j - p]);
        assert(t[j - p] == host[j - p]);
    }
    assert(s.subrange(p, a) =~= host) by {
        assert forall|j: int| 0 <= j < host.len() implies s.subrange(p, a)[j] == host[j] by {
            assert(s[p + j] == t[j]);
        }
    }
    match port {
        Some(d) => {
            let b = a + 1 + d.len();
            assert(s[p + host.len()] == t[host.len() as int]);
            lemma_span_at(s, p, a, CharClass::AddressPart);
            assert(tag_match(s, a, seq![':']) == TagMatch::Matched);
            assert forall|j: int| a + 1 <= j < b implies in_class(CharClass::DigitLike, #[trigger] s[j]) by {
                assert(s[p + (j - p)] == t[j - p]);
                assert(t[j - p] == d[j - a - 1]);
                assert('0' <= d[j - a - 1] <= '9');
            }
            lemma_span_at(s, a + 1, b, CharClass::DigitLike);
            assert(s.subrange(a + 1, b) =~= d) by {
                assert forall|j: int| 0 <= j < d.len() implies s.subrange(a + 1, b)[j] == d[j] by {
                    assert(s[p + (host.len() + 1 + j)] == t[host.len() + 1 + j]);
                }
            }
            assert(d[0] != '+') by {
                assert('0' <= d[0] <= '9');
            }
            assert(unsigned_digits(d) == d);
            assert forall|i: int| 0 <= i < d.len() implies is_ascii_digit(#[trigger] d[i]) by {
                assert('0' <= d[i] <= '9');
            }
        },
        None => {
            lemma_span_at(s, p, a, CharClass::AddressPart);
            assert(tag_match(s, a, seq![':']) == TagMatch::Short);
        },
    }
}

proof fn lemma_no_at_after_auth(
    s: Seq<char>,
    b: int,
    host: Seq<char>,
    port: Option<Seq<char>>,
    pt: Seq<char>,
)
    requires
        0 <= b,
        forall|i: int| 0 <= i < host.len() ==> host[i] != '@',
        port matches Some(d) ==> port_ok(d),
        forall|j: int| 0 <= j < pt.len() ==> pt[j] != '@',
        s.len() == b + address_text(host, port).len() + pt.len(),
        forall|j: int|
            0 <= j < address_text(host, port).len() ==> s[b + j] == #[trigger] address_text(
                host,
                port,
            )[j],
        forall|j: int|
            0 <= j < pt.len() ==> s[b + address_text(host, port).len() + j] == #[trigger] pt[j],
    ensures
        forall|j: int| b <= j < s.len() ==> s[j] != '@',
{
    let ad = address_text(host, port);
    let c = b + ad.len();
    assert forall|j: int| b <= j < s.len() implies s[j] != '@' by {
        if j < c {
            assert(s[b + (j - b)] == ad[j - b]);
            match port {
                Some(d) => {
                    if j - b < host.len() {
                        assert(ad[j - b] == host[j - b]);
                    } else if j - b > host.len() {
                        assert(ad[j - b] == d[j - b - host.len() - 1]);
                        assert('0' <= d[j - b - host.len() - 1] <= '9');
                    }
                },
                None => {
                    assert(ad[j - b] == host[j - b]);
                },
            }
        } else {
            assert(s[c + (j - c)] == pt[j - c]);
        }
    }
}

proof fn lemma_uri_assembled(
    s: Seq<char>,
    schema: Seq<char>,
    a: int,
    b: int,
    up: (Option<Seq<char>>, Option<Seq<char>>),
    c: int,
    hp: (Seq<char>, Option<u16>),
    sv: Seq<SpecParam>,
)
    requires
        find(s, 0, ':') == Some(a),
        s.subrange(0, a) == schema,
        match spec_uri_auth(s, a + 1) {
            Ok((b2, up2)) => b2 == b && up2 == up,
            Err(_) => b == a + 1 && up == (None::<Seq<char>>, None::<Seq<char>>),
        },
        spec_uri_address(s, b) == (c, hp),
        spec_params(s, c) == (s.len() as int, sv),
    ensures
        spec_uri(s) == Ok::<(int, SpecUri), crate::scan::ParseError>(
            (
                s.len() as int,
                SpecUri {
                    schema,
                    user: up.0,
                    password: up.1,
                    host: hp.0,
                    port: hp.1,
                    parameters: params_map(sv),
                },
            ),
        ),
{
}

/// The user named by a user part.
pub open spec fn user_name(user: Option<(Seq<char>, Option<Seq<char>>)>) -> Option<Seq<char>> {
    match user {
        Some((u, _)) => Some(u),
        None => None,
    }
}

/// The password given by a user part.
pub open spec fn user_password(user: Option<(Seq<char>, Option<Seq<char>>)>) -> Option<Seq<char>> {
    match user {
        Some((_, w)) => w,
        None => None,
    }
}

/// The number that a port's digits spell.
pub open spec fn port_value(port: Option<Seq<char>>) -> Option<u16> {
    match port {
        Some(d) => Some(decimal_value(d) as u16),
        None => None,
    }
}

/// The text of a URI `schema:[user[:password]@]host[:port];params`.
#[verifier::opaque]
pub open spec fn uri_text(
    schema: Seq<char>,
    user: Option<(Seq<char>, Option<Seq<char>>)>,
    host: Seq<char>,
    port: Option<Seq<char>>,
    ps: Seq<(Seq<char>, Seq<char>)>,
) -> Seq<char> {
    schema + seq![':'] + auth_text(user) + address_text(host, port) + params_text(ps)
}

proof fn lemma_uri_layout(
    schema: Seq<char>,
    user: Option<(Seq<char>, Option<Seq<char>>)>,
    host: Seq<char>,
    port: Option<Seq<char>>,
    ps: Seq<(Seq<char>, Seq<char>)>,
)
    ensures
        ({
            let s = uri_text(schema, user, host, port, ps);
            let a = schema.len() as int;
            let b = a + 1 + auth_text(user).len();
            let c = b + address_text(host, port).len();
            &&& s.len() == c + params_text(ps).len()
            &&& forall|j: int| 0 <= j < a ==> s[j] == #[trigger] schema[j]
            &&& s[a] == ':'
            &&& forall|j: int|
                0 <= j < auth_text(user).len() ==> s[a + 1 + j] == #[trigger] auth_text(user)[j]
            &&& forall|j: int|
                0 <= j < address_text(host, port).len() ==> s[b + j] == #[trigger] address_text(
                    host,
                    port,
                )[j]
            &&& forall|j: int| 0 <= j < params_text(ps).len() ==> s[c + j] == #[trigger] params_text(ps)[j]
        }),
{
    reveal(uri_text);
    let at = auth_text(user);
    let ad = address_text(host, port);
    let pt = params_text(ps);
    let s = uri_text(schema, user, host, port, ps);
    let x1 = schema + seq![':'];
    let x2 = x1 + at;
    let x3 = x2 + ad;
    assert(s == x3 + pt);
    let a = schema.len() as int;
    let b = a + 1 + at.len();
    let c = b + ad.len();
    assert forall|j: int| 0 <= j < a implies s[j] == #[trigger] schema[j] by {
        assert(x1[j] == schema[j]);
        assert(x2[j] == x1[j]);
        assert(x3[j] == x2[j]);
    }
    assert(x1[a] == ':');
    assert(x2[a] == x1[a]);
    assert(x3[a] == x2[a]);
    assert forall|j: int| 0 <= j < at.len() implies s[a + 1 + j] == #[trigger] at[j] by {
        assert(x2[x1.len() + j] == at[j]);
        assert(x3[a + 1 + j] == x2[a + 1 + j]);
    }
    assert forall|j: int| 0 <= j < ad.len() implies s[b + j] == #[trigger] ad[j] by {
        assert(x3[x2.len() + j] == ad[j]);
    }
    assert forall|j: int| 0 <= j < pt.len() implies s[c + j] == #[trigger] pt[j] by {
        assert(s[x3.len() + j] == pt[j]);
    }
}

proof fn lemma_uri_auth_outcome(
    schema: Seq<char>,
    user: Option<(Seq<char>, Option<Seq<char>>)>,
    host: Seq<char>,
    port: Option<Seq<char>>,
    ps: Seq<(Seq<char>, Seq<char>)>,
)
    requires
        user matches Some((u, w)) ==> no_colon_at(u) && (w matches Some(w) ==> no_colon_at(w)),
        forall|i: int| 0 <= i < host.len() ==> host[i] != '@',
        port matches Some(d) ==> port_ok(d),
        user is None ==> forall|j: int| 0 <= j < params_text(ps).len() ==> params_text(ps)[j] != '@',
    ensures
        ({
            let s = uri_text(schema, user, host, port, ps);
            let a = schema.len() as int;
            match spec_uri_auth(s, a + 1) {
                Ok((b2, up2)) => b2 == a + 1 + auth_text(user).len() && up2 == (
                    user_name(user),
                    user_password(user),
                ),
                Err(_) => user is None,
            }
        }),
{
    let s = uri_text(schema, user, host, port, ps);
    let a = schema.len() as int;
    lemma_uri_layout(schema, user, host, port, ps);
    match user {
        Some((u, w)) => {
            lemma_auth_at(s, a + 1, u, w);
        },
        None => {
            lemma_no_at_after_auth(s, a + 1, host, port, params_text(ps));
            law_uri_auth_needs_at(s, a + 1);
        },
    }
}

/// A URI written as `schema:`, an optional `user[:password]@`, `host`, an
/// optional `:port`, then parameters `;key=value` reads back as those parts,
/// consuming it all. The schema holds no `:`; user and password hold neither
/// `:` nor `@`; the host is visible characters other than `:` and `@`; the
/// port is ASCII digits whose value fits in a `u16`. Parameters can only be
/// told from the host after a port, and without a user part they must hold
/// no `@` (else the text before it reads as a user part).
pub proof fn law_uri_reads_parts(
    schema: Seq<char>,
    user: Option<(Seq<char>, Option<Seq<char>>)>,
    host: Seq<char>,
    port: Option<Seq<char>>,
    ps: Seq<(Seq<char>, Seq<char>)>,
)
    requires
        forall|i: int| 0 <= i < schema.len() ==> schema[i] != ':',
        user matches Some((u, w)) ==> no_colon_at(u) && (w matches Some(w) ==> no_colon_at(w)),
        forall|i: int| 0 <= i < host.len() ==> visible_char(host[i]) && host[i] != ':' && host[i] != '@',
        port matches Some(d) ==> port_ok(d),
        port is None ==> ps.len() == 0,
        params_ok(ps),
        user is None ==> forall|j: int| 0 <= j < params_text(ps).len() ==> params_text(ps)[j] != '@',
    ensures
        spec_uri(uri_text(schema, user, host, port, ps)) == Ok::<
            (int, SpecUri),
            crate::scan::ParseError,
        >(
            (
                uri_text(schema, user, host, port, ps).len() as int,
                SpecUri {
                    schema,
                    user: user_name(user),
                    password: user_password(user),
                    host,
                    port: port_value(port),
                    parameters: params_map(some_values(ps)),
                },
            ),
        ),
        params_read_back(params_map(some_values(ps)), ps),
{
    let s = uri_text(schema, user, host, port, ps);
    let at = auth_text(user);
    let ad = address_text(host, port);
    let pt = params_text(ps);
    let a = schema.len() as int;
    let b = a + 1 + at.len();
    let c = b + ad.len();
    lemma_uri_layout(schema, user, host, port, ps);
    assert forall|j: int| 0 <= j < a implies s[j] != ':' by {
        assert(s[j] == schema[j]);
    }
    lemma_find_at(s, 0, a, ':');
    lemma_uri_auth_outcome(schema, user, host, port, ps);
    if ps.len() > 0 {
        assert(pt == param_text(ps[0].0, Some(ps[0].1)) + params_text(ps.drop_first()));
        assert(pt[0] == ';');
        assert(s[c + 0] == pt[0]);
    }
    lemma_address_at(s, b, host, port);
    lemma_params_at(s, c, ps);
    assert(s.subrange(0, a) =~= schema);
    lemma_uri_assembled(
        s,
        schema,
        a,
        b,
        (user_name(user), user_password(user)),
        c,
        (host, port_value(port)),
        some_values(ps),
    );
    lemma_params_read_back(ps);
}

/// A request line needs two spaces: text with fewer is refused, as the URI
/// (or the method) is not ended.
pub proof fn law_request_line_needs_two_spaces(s: Seq<char>)
    requires
        forall|i: int, j: int| 0 <= i < j < s.len() ==> !(s[i] == ' ' && s[j] == ' '),
    ensures
        spec_request_line(s) == Err::<(int, SpecRequestLine), crate::scan::ParseError>(
            crate::scan::ParseError::Error(crate::scan::ErrorKind::TakeUntilAndConsume),
        ),
        spec_status_line(s) == Err::<(int, SpecStatusLine), crate::scan::ParseError>(
            crate::scan::ParseError::Error(crate::scan::ErrorKind::TakeUntilAndConsume),
        ),
{
    crate::scan::lemma_find(s, 0, ' ');
    if let Some(a) = find(s, 0, ' ') {
        crate::scan::lemma_find(s, a + 1, ' ');
        if let Some(b) = find(s, a + 1, ' ') {
            assert(s[a] == ' ' && s[b] == ' ');
        }
    }
}

/// A header line needs its `CR LF`: bytes without one never read as a line.
pub proof fn law_header_line_needs_crlf(s: Seq<u8>, p: int)
    requires
        0 <= p,
        forall|i: int| p <= i && i + 1 < s.len() ==> !(#[trigger] s[i] == 13 && s[i + 1] == 10),
    ensures
        spec_header_at(s, p) is Err,
{
    if spec_header_at(s, p) is Ok {
        let e1 = crate::scan::byte_span(s, p, ByteClass::HeaderName);
        crate::scan::lemma_byte_span(s, p, ByteClass::HeaderName);
        let e2 = crate::scan::byte_span(s, e1 + 1, ByteClass::Space);
        crate::scan::lemma_byte_span(s, e1 + 1, ByteClass::Space);
        crate::scan::lemma_find_crlf(s, e2);
        let e3 = crate::scan::find_crlf(s, e2)->0;
        assert(s[e3] == 13 && s[e3 + 1] == 10);
    }
}

proof fn lemma_header_lines_end(s: Seq<u8>, p: int)
    requires
        0 <= p,
    ensures
        spec_header_lines(s, p) matches Ok((r, _)) ==> r == p || (p + 2 <= r <= s.len() && s[r - 2]
            == 13 && s[r - 1] == 10),
    decreases s.len() - p,
{
    if let Ok((q, _)) = spec_header_at(s, p) {
        crate::sip::lemma_header_advances(s, p);
        lemma_header_lines_end(s, q);
        let e1 = crate::scan::byte_span(s, p, ByteClass::HeaderName);
        crate::scan::lemma_byte_span(s, p, ByteClass::HeaderName);
        let e2 = crate::scan::byte_span(s, e1 + 1, ByteClass::Space);
        crate::scan::lemma_byte_span(s, e1 + 1, ByteClass::Space);
        crate::scan::lemma_find_crlf(s, e2);
    }
}

/// A message head that reads ends with an empty line: the last four bytes
/// it consumes are `CR LF CR LF`.
pub proof fn law_message_ends_with_blank_line(s: Seq<u8>)
    ensures
        spec_message(s) matches Ok((n, _)) ==> 4 <= n <= s.len() && s[n - 4] == 13 && s[n - 3] == 10
            && s[n - 2] == 13 && s[n - 1] == 10,
{
    if let Ok((n, _)) = spec_message(s) {
        let m0 = tag_match(s, 0, seq![13u8, 10u8]);
        let p: int = if m0 == TagMatch::Matched {
            2
        } else {
            0
        };
        crate::scan::lemma_find_crlf(s, p);
        let e = crate::scan::find_crlf(s, p)->0;
        lemma_header_lines_end(s, e + 2);
        let r = match spec_header_lines(s, e + 2) {
            Ok((r, _)) => r,
            Err(_) => 0,
        };
        assert(tag_match(s, r, seq![13u8, 10u8]) == TagMatch::Matched);
        let crlf = seq![13u8, 10u8];
        if s[r] != 13 {
            assert(s[r + 0] != crlf[0]);
        }
        if s[r + 1] != 10 {
            assert(s[r + 1] != crlf[1]);
        }
    }
}

/// A header line cut short anywhere before its end asks for more bytes: the
/// byte parser answers `Incomplete` on every proper prefix of a line
/// `name:` spaces `value CR LF` (name of header-name bytes, spaces and tabs
/// after the colon, value that does not start with a space or a tab and holds
/// no `CR LF`).
pub proof fn law_header_line_prefix_incomplete(name: Seq<u8>, w: Seq<u8>, value: Seq<u8>, k: int)
    requires
        forall|i: int| 0 <= i < name.len() ==> header_name_byte(#[trigger] name[i]),
        forall|i: int| 0 <= i < w.len() ==> (#[trigger] w[i] == 32 || w[i] == 9),
        value.len() == 0 || (value[0] != 32 && value[0] != 9),
        forall|i: int| 0 <= i && i + 1 < value.len() ==> !(#[trigger] value[i] == 13 && value[i + 1] == 10),
        0 <= k < spaced_line_bytes(name, w, value).len(),
    ensures
        spec_header_at(spaced_line_bytes(name, w, value).take(k), 0) == Err::<
            (int, SpecHeader),
            crate::scan::ParseError,
        >(crate::scan::ParseError::Incomplete),
{
    let l = spaced_line_bytes(name, w, value);
    let s = l.take(k);
    let a = name.len() as int;
    let e2 = a + 1 + w.len();
    let e3 = e2 + value.len();
    assert forall|j: int| 0 <= j < k implies s[j] == #[trigger] l[j] by {}
    if k <= a {
        assert forall|j: int| 0 <= j < k implies crate::scan::in_byte_class(
            ByteClass::HeaderName,
            #[trigger] s[j],
        ) by {
            assert(s[j] == l[j]);
            assert(l[j] == name[j]);
        }
        lemma_byte_span_at(s, 0, k, ByteClass::HeaderName);
    } else {
        assert forall|j: int| 0 <= j < a implies crate::scan::in_byte_class(
            ByteClass::HeaderName,
            #[trigger] s[j],
        ) by {
            assert(s[j] == l[j]);
            assert(l[j] == name[j]);
        }
        assert(s[a] == l[a]);
        assert(l[a] == 58u8);
        lemma_byte_span_at(s, 0, a, ByteClass::HeaderName);
        assert(s.subrange(0, a) =~= name);
        lemma_header_name_is_utf8(name);
        if k <= e2 {
            assert forall|j: int| a + 1 <= j < k implies crate::scan::in_byte_class(
                ByteClass::Space,
                #[trigger] s[j],
            ) by {
                assert(s[j] == l[j]);
                assert(l[j] == w[j - a - 1]);
            }
            lemma_byte_span_at(s, a + 1, k, ByteClass::Space);
        } else {
            assert forall|j: int| a + 1 <= j < e2 implies crate::scan::in_byte_class(
                ByteClass::Space,
                #[trigger] s[j],
            ) by {
                assert(s[j] == l[j]);
                assert(l[j] == w[j - a - 1]);
            }
            assert(s[e2] == l[e2]);
            if value.len() > 0 {
                assert(l[e2] == value[0]);
            } else {
                assert(l[e2] == 13u8);
            }
            lemma_byte_span_at(s, a + 1, e2, ByteClass::Space);
            crate::scan::lemma_find_crlf(s, e2);
            if let Some(i) = crate::scan::find_crlf(s, e2) {
                assert(s[i] == l[i] && s[i + 1] == l[i + 1]);
                if i + 1 < e3 {
                    assert(l[i] == value[i - e2] && l[i + 1] == value[i + 1 - e2]);
                } else {
                    assert(i + 1 == e3);
                    assert(l[i + 1] == 13u8);
                }
            }
        }
    }
}

/// The host part of a URI written as `host:digits` (host of visible
/// characters other than `:` and `@`, digits ASCII, followed by nothing or
/// by a character whose low byte is no digit) reads the port where the
/// digits' value fits in a `u16`; otherwise it reads no port and leaves the
/// `:` and the digits unread.
pub proof fn law_uri_address_port(host: Seq<char>, d: Seq<char>, t: Seq<char>)
    requires
        forall|i: int| 0 <= i < host.len() ==> visible_char(host[i]) && host[i] != ':' && host[i] != '@',
        d.len() > 0,
        forall|i: int| 0 <= i < d.len() ==> '0' <= #[trigger] d[i] <= '9',
        t.len() == 0 || !(48 <= (t[0] as int) % 256 <= 57),
    ensures
        spec_uri_address(host + seq![':'] + d + t, 0) == if decimal_value(d) <= 65535 {
            ((host.len() + 1 + d.len()) as int, (host, Some(decimal_value(d) as u16)))
        } else {
            (host.len() as int, (host, None::<u16>))
        },
{
    let s = host + seq![':'] + d + t;
    let a = host.len() as int;
    let b = a + 1 + d.len();
    lemma_decimal_value(d);
    assert forall|j: int| 0 <= j < a implies in_class(CharClass::AddressPart, #[trigger] s[j]) by {
        assert(s[j] == host[j]);
    }
    assert(s[a] == ':');
    lemma_span_at(s, 0, a, CharClass::AddressPart);
    assert(tag_match(s, a, seq![':']) == TagMatch::Matched);
    assert forall|j: int| a + 1 <= j < b implies in_class(CharClass::DigitLike, #[trigger] s[j]) by {
        assert(s[j] == d[j - a - 1]);
        assert('0' <= d[j - a - 1] <= '9');
    }
    if b < s.len() {
        assert(s[b] == t[0]);
    }
    lemma_span_at(s, a + 1, b, CharClass::DigitLike);
    assert(s.subrange(a + 1, b) =~= d);
    assert(s.subrange(0, a) =~= host);
    assert(d[0] != '+') by {
        assert('0' <= d[0] <= '9');
    }
    assert(unsigned_digits(d) == d);
    assert forall|i: int| 0 <= i < d.len() implies is_ascii_digit(#[trigger] d[i]) by {
        assert('0' <= d[i] <= '9');
    }
}

/// The text parsers read complete text: they never ask for more input.
pub proof fn law_text_parsers_never_incomplete(s: Seq<char>)
    ensures
        spec_request_line(s) != Err::<(int, SpecRequestLine), crate::scan::ParseError>(
            crate::scan::ParseError::Incomplete,
        ),
        spec_status_line(s) != Err::<(int, SpecStatusLine), crate::scan::ParseError>(
            crate::scan::ParseError::Incomplete,
        ),
        spec_uri_param(s, 0) != Err::<(int, SpecParam), crate::scan::ParseError>(
            crate::scan::ParseError::Incomplete,
        ),
        spec_via(s) != Err::<(int, SpecVia), crate::scan::ParseError>(
            crate::scan::ParseError::Incomplete,
        ),
        spec_name_addr(s) != Err::<(int, SpecNameAddr), crate::scan::ParseError>(
            crate::scan::ParseError::Incomplete,
        ),
        spec_uri_auth(s, 0) != Err::<
            (int, (Option<Seq<char>>, Option<Seq<char>>)),
            crate::scan::ParseError,
        >(crate::scan::ParseError::Incomplete),
        spec_uri(s) != Err::<(int, SpecUri), crate::scan::ParseError>(
            crate::scan::ParseError::Incomplete,
        ),
{
}

/// Empty text: a parameter, a name-addr and a user part each miss their
/// first fixed character at the end of the text (`Eof`); request and status
/// lines, `Via` values and URIs miss the delimiter that ends their first
/// field.
pub proof fn law_empty_text()
    ensures
        spec_uri_param(Seq::<char>::empty(), 0) == Err::<(int, SpecParam), crate::scan::ParseError>(
            crate::scan::ParseError::Error(crate::scan::ErrorKind::Eof),
        ),
        spec_name_addr(Seq::<char>::empty()) == Err::<(int, SpecNameAddr), crate::scan::ParseError>(
            crate::scan::ParseError::Error(crate::scan::ErrorKind::Eof),
        ),
        spec_uri_auth(Seq::<char>::empty(), 0) == Err::<
            (int, (Option<Seq<char>>, Option<Seq<char>>)),
            crate::scan::ParseError,
        >(crate::scan::ParseError::Error(crate::scan::ErrorKind::Eof)),
        spec_request_line(Seq::<char>::empty()) == Err::<(int, SpecRequestLine), crate::scan::ParseError>(
            crate::scan::ParseError::Error(crate::scan::ErrorKind::TakeUntilAndConsume),
        ),
        spec_status_line(Seq::<char>::empty()) == Err::<(int, SpecStatusLine), crate::scan::ParseError>(
            crate::scan::ParseError::Error(crate::scan::ErrorKind::TakeUntilAndConsume),
        ),
        spec_via(Seq::<char>::empty()) == Err::<(int, SpecVia), crate::scan::ParseError>(
            crate::scan::ParseError::Error(crate::scan::ErrorKind::TakeUntilAndConsume),
        ),
        spec_uri(Seq::<char>::empty()) == Err::<(int, SpecUri), crate::scan::ParseError>(
            crate::scan::ParseError::Error(crate::scan::ErrorKind::TakeUntilAndConsume),
        ),
{
    let e = Seq::<char>::empty();
    assert(tag_match(e, 0, seq![';']) == TagMatch::Short);
    assert(tag_match(e, 0, seq!['"']) == TagMatch::Short);
    assert(tag_match(e, 0, seq!['<']) == TagMatch::Short);
    assert(span(e, 0, CharClass::AuthPart) == 0);
    assert(tag_match(e, 0, seq![':']) == TagMatch::Short);
    assert(tag_match(e, 0, seq!['@']) == TagMatch::Short);
}

/// A message head cut short within its final empty line (right before it,
/// or after its `CR`) asks for more bytes.
pub proof fn law_message_cut_at_end_incomplete(
    lead: bool,
    start: Seq<u8>,
    lines: Seq<(Seq<u8>, Seq<u8>)>,
    body: Seq<u8>,
    after_cr: bool,
)
    requires
        start.len() > 0,
        valid_utf8(start),
        forall|i: int| 0 <= i && i + 1 < start.len() ==> !(#[trigger] start[i] == 13 && start[i + 1] == 10),
        forall|l: int| 0 <= l < lines.len() ==> readable_line(#[trigger] lines[l]),
    ensures
        ({
            let r = lead_text(lead).len() + start.len() + 2 + header_block(lines).len();
            let k = if after_cr {
                r + 1
            } else {
                r
            };
            spec_message(message_text(lead, start, lines, body).take(k as int)) == Err::<
                (int, SpecMessage),
                crate::scan::ParseError,
            >(crate::scan::ParseError::Incomplete)
        }),
{
    let full = message_text(lead, start, lines, body);
    let block = header_block(lines);
    let p = lead_text(lead).len() as int;
    let n = p + start.len();
    let r = n + 2 + block.len();
    let k = if after_cr {
        r + 1
    } else {
        r
    };
    let s = full.take(k);
    let crlf = seq![13u8, 10u8];
    lemma_message_layout(lead, start, lines, body);
    assert forall|j: int| 0 <= j < k implies s[j] == #[trigger] full[j] by {}
    if lead {
        assert(s[0] == full[0] && s[1] == full[1]);
        assert(tag_match(s, 0, crlf) == TagMatch::Matched);
    } else {
        assert(s[0] == full[0] && full[p + 0] == start[0]);
        if start.len() > 1 {
            assert(s[1] == full[1] && full[p + 1] == start[1]);
        } else {
            assert(s[1] == full[1]);
        }
        assert(s[0] != crlf[0] || s[1] != crlf[1]);
        assert(tag_match(s, 0, crlf) == TagMatch::Mismatch);
    }
    assert forall|j: int| p <= j < n implies !(#[trigger] s[j] == 13 && s[j + 1] == 10) by {
        assert(s[j] == full[p + (j - p)]);
        assert(full[p + (j - p)] == start[j - p]);
        if j + 1 < n {
            assert(s[j + 1] == full[p + (j + 1 - p)]);
            assert(full[p + (j + 1 - p)] == start[j + 1 - p]);
        }
    }
    assert(s[n] == full[n] && s[n + 1] == full[n + 1]);
    lemma_find_crlf_at(s, p, n);
    assert(s.subrange(p, n) =~= start) by {
        assert forall|j: int| 0 <= j < start.len() implies s.subrange(p, n)[j] == start[j] by {
            assert(s[p + j] == full[p + j]);
        }
    }
    assert(s.subrange(n + 2, r) =~= block) by {
        assert forall|j: int| 0 <= j < block.len() implies s.subrange(n + 2, r)[j] == block[j] by {
            assert(s[n + 2 + j] == full[n + 2 + j]);
        }
    }
    if after_cr {
        assert(s[r] == full[r]);
        lemma_header_block_at(s, n + 2, lines);
        assert(tag_match(s, r, crlf) == TagMatch::Short);
    } else {
        lemma_header_block_to_end(s, n + 2, lines);
    }
}

/// Bytes that hold no `CR LF` are never a message head: the start line is
/// not ended, so more bytes are needed.
pub proof fn law_message_needs_crlf(s: Seq<u8>)
    requires
        forall|i: int| 0 <= i && i + 1 < s.len() ==> !(#[trigger] s[i] == 13 && s[i + 1] == 10),
    ensures
        spec_message(s) == Err::<(int, SpecMessage), crate::scan::ParseError>(
            crate::scan::ParseError::Incomplete,
        ),
{
    let crlf = seq![13u8, 10u8];
    if s.len() >= 2 {
        if tag_match(s, 0, crlf) == TagMatch::Matched {
            assert(!(s[0] == 13 && s[1] == 10));
            if s[0] != 13 {
                assert(s[0int + 0] != crlf[0]);
            } else {
                assert(s[0int + 1] != crlf[1]);
            }
        }
        let p: int = if tag_match(s, 0, crlf) == TagMatch::Matched {
            2
        } else {
            0
        };
        crate::scan::lemma_find_crlf(s, p);
        if let Some(e) = crate::scan::find_crlf(s, p) {
            assert(s[e] == 13 && s[e + 1] == 10);
        }
    } else if tag_match(s, 0, crlf) != TagMatch::Short {
        crate::scan::lemma_find_crlf(s, 0);
    }
}

} // verus!
