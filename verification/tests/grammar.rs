use sip::{ErrorKind, Message, ParseError, RequestLine, StatusLine, Uri, Via};

fn fails<T>(r: Result<T, ParseError>) -> ParseError {
    match r {
        Ok(_) => panic!("the input parsed"),
        Err(e) => e,
    }
}

fn err(kind: ErrorKind) -> ParseError {
    ParseError::Error(kind)
}

#[test]
fn vchar_judges_the_low_byte() {
    assert!(sip::is_vchar('A'));
    assert!(sip::is_vchar('~'));
    assert!(!sip::is_vchar(' '));
    assert!(!sip::is_vchar('\u{7f}'));
    // U+0141 has the low byte 0x41 ('A').
    assert!(sip::is_vchar('\u{141}'));
    assert!(!sip::is_vchar('\u{120}'));
}

#[test]
fn character_classes() {
    assert!(sip::not_uri_end('a'));
    assert!(!sip::not_uri_end(';'));
    assert!(sip::testat(' '));
    assert!(!sip::testat(':'));
    assert!(!sip::testat('@'));
    assert!(sip::not_address_end('h'));
    assert!(!sip::not_address_end('@'));
    assert!(!sip::not_address_end(' '));
    assert!(sip::valid_header_name_char(b'V'));
    assert!(!sip::valid_header_name_char(b':'));
    assert!(!sip::valid_header_name_char(b' '));
    assert!(sip::is_space(b'\t'));
    assert!(!sip::is_space(b'x'));
}

#[test]
fn request_line_stops_version_at_space() {
    let (rest, line) = RequestLine::parse("INVITE sip:bob@b.example SIP/2.0 extra").unwrap();
    assert_eq!(line, RequestLine { method: "INVITE", uri: "sip:bob@b.example", version: "SIP/2.0" });
    assert_eq!(rest, " extra");
}

#[test]
fn request_line_needs_two_spaces() {
    assert_eq!(fails(sip::parse_request_line("INVITE")), err(ErrorKind::TakeUntilAndConsume));
    assert_eq!(fails(sip::parse_request_line("INVITE sip:x")), err(ErrorKind::TakeUntilAndConsume));
}

#[test]
fn request_line_law_on_values() {
    // method, uri without spaces, a visible version and a tail that starts with CR
    let (rest, line) = sip::parse_request_line("ACK sip:a@b SIP/2.0\r\nx").unwrap();
    assert_eq!((line.method, line.uri, line.version), ("ACK", "sip:a@b", "SIP/2.0"));
    assert_eq!(rest, "\r\nx");
}

#[test]
fn status_line_codes() {
    let (_, line) = StatusLine::parse("SIP/2.0 404 Not Found").unwrap();
    assert_eq!(line, StatusLine { code: 404, message: "Not", version: "SIP/2.0" });
    let (_, line) = sip::parse_status_line("SIP/2.0 +180 Ringing").unwrap();
    assert_eq!(line.code, 180);
    let (_, line) = sip::parse_status_line("SIP/2.0 4294967295 Max").unwrap();
    assert_eq!(line.code, 4294967295);
    assert_eq!(fails(sip::parse_status_line("SIP/2.0 4294967296 Big")), err(ErrorKind::MapRes));
    assert_eq!(fails(sip::parse_status_line("SIP/2.0 OK 200")), err(ErrorKind::MapRes));
    assert_eq!(fails(sip::parse_status_line("SIP/2.0 + x")), err(ErrorKind::MapRes));
    assert_eq!(fails(sip::parse_status_line("SIP/2.0 -0 x")), err(ErrorKind::MapRes));
    assert_eq!(fails(sip::parse_status_line("SIP/2.0 200")), err(ErrorKind::TakeUntilAndConsume));
}

#[test]
fn status_line_law_on_values() {
    let (rest, line) = sip::parse_status_line("SIP/2.0 0200 OK").unwrap();
    assert_eq!((line.version, line.code, line.message), ("SIP/2.0", 200, "OK"));
    assert_eq!(rest, "");
}

#[test]
fn header_line_outcomes() {
    assert_eq!(fails(sip::parse_header(b"")), ParseError::Incomplete);
    assert_eq!(fails(sip::parse_header(b"Via")), ParseError::Incomplete);
    assert_eq!(fails(sip::parse_header(b"Via:  ")), ParseError::Incomplete);
    assert_eq!(fails(sip::parse_header(b"Via: abc")), ParseError::Incomplete);
    assert_eq!(fails(sip::parse_header(b"Via abc\r\n")), err(ErrorKind::Tag));
    assert_eq!(fails(sip::parse_header(b"Via: \xff\r\n")), err(ErrorKind::MapRes));
    let (rest, h) = sip::parse_header(b"Subject:\t caf\xc3\xa9\r\nrest").unwrap();
    assert_eq!(h, ("Subject", "caf\u{e9}"));
    assert_eq!(rest, b"rest");
    let (rest, h) = sip::parse_header(b": empty name\r\n").unwrap();
    assert_eq!(h, ("", "empty name"));
    assert_eq!(rest.len(), 0);
}

#[test]
fn header_line_law_on_values() {
    let (rest, h) = sip::parse_header(b"X-Note: a\rb\r\nnext").unwrap();
    assert_eq!(h, ("X-Note", "a\rb"));
    assert_eq!(rest, b"next");
}

#[test]
fn message_groups_repeated_headers() {
    let text = b"\r\nINVITE sip:b@x SIP/2.0\r\nVia: one\r\nTo: <sip:b@x>\r\nVia: two\r\nVia: three\r\n\r\nbody";
    let (rest, msg) = sip::parse(text).unwrap();
    assert_eq!(msg.startline, "INVITE sip:b@x SIP/2.0");
    let names: Vec<&str> = msg.headers.keys().copied().collect();
    assert_eq!(names, vec!["Via", "To"]);
    let vias: Vec<&str> = msg.headers.get("Via").unwrap().iter().copied().collect();
    assert_eq!(vias, vec!["one", "two", "three"]);
    assert_eq!(rest, b"body");
}

#[test]
fn message_without_headers() {
    let (rest, msg): (&[u8], Message) = sip::parse(b"SIP/2.0 200 OK\r\n\r\n").unwrap();
    assert_eq!(msg.startline, "SIP/2.0 200 OK");
    assert_eq!(msg.headers.len(), 0);
    assert_eq!(rest.len(), 0);
}

#[test]
fn message_outcomes() {
    assert_eq!(fails(sip::parse(b"")), ParseError::Incomplete);
    assert_eq!(fails(sip::parse(b"\r")), ParseError::Incomplete);
    assert_eq!(fails(sip::parse(b"OPTIONS sip:x SIP/2.0")), ParseError::Incomplete);
    assert_eq!(fails(sip::parse(b"OPTIONS sip:x SIP/2.0\r\nVia: a\r\n")), ParseError::Incomplete);
    assert_eq!(fails(sip::parse(b"OPTIONS sip:x SIP/2.0\r\nVia: a\r\n\r")), ParseError::Incomplete);
    assert_eq!(fails(sip::parse(b"OPTIONS sip:x SIP/2.0\r\nbroken\r\n\r\n")), err(ErrorKind::Tag));
    assert_eq!(fails(sip::parse(b"\xff\r\n\r\n")), err(ErrorKind::MapRes));
}

#[test]
fn uri_param_outcomes() {
    assert_eq!(fails(sip::parse_uri_params("")), err(ErrorKind::Eof));
    assert_eq!(fails(sip::parse_uri_params("tag=x")), err(ErrorKind::Tag));
    let (rest, p) = sip::parse_uri_params(";rport;x").unwrap();
    assert_eq!(p, ("rport", None));
    assert_eq!(rest, ";x");
    let (rest, p) = sip::parse_uri_params(";a=b c").unwrap();
    assert_eq!(p, ("a", Some("b")));
    assert_eq!(rest, " c");
    let (rest, p) = sip::parse_uri_params(";k=").unwrap();
    assert_eq!(p, ("k", Some("")));
    assert_eq!(rest, "");
}

#[test]
fn later_parameter_wins() {
    let (rest, via) = sip::parse_via("SIP/2.0/UDP h:1;a=1;b;a=2 tail").unwrap();
    assert_eq!(via.parameters.get("a").unwrap(), &Some("2"));
    assert_eq!(via.parameters.get("b").unwrap(), &None);
    assert_eq!(via.parameters.len(), 2);
    assert_eq!(rest, " tail");
}

#[test]
fn via_outcomes() {
    assert_eq!(fails(Via::parse("SIP/2.0/UDP")), err(ErrorKind::TakeUntilAndConsume));
    assert_eq!(fails(Via::parse("SIP/2.0/UDP host")), err(ErrorKind::TakeUntilAndConsume));
    let (_, via) = Via::parse("SIP/2.0/UDP host:").unwrap();
    assert_eq!((via.host, via.port), ("host", ""));
}

#[test]
fn name_addr_outcomes() {
    assert_eq!(fails(sip::parse_name_addr("")), err(ErrorKind::Eof));
    assert_eq!(fails(sip::parse_name_addr("sip:a@b")), err(ErrorKind::Tag));
    assert_eq!(fails(sip::parse_name_addr("<sip:a@b")), err(ErrorKind::TakeUntilAndConsume));
    // A quoted name must be followed by a space; otherwise it is not read.
    assert_eq!(fails(sip::parse_name_addr("\"x\"<sip:a>")), err(ErrorKind::Tag));
    let (rest, addr) = sip::parse_name_addr("\"Bob Smith\" <sip:bob@x>;tag=1 rest").unwrap();
    assert_eq!(addr.name, Some("Bob Smith"));
    assert_eq!(addr.uri, "sip:bob@x");
    assert_eq!(addr.parameters.get("tag").unwrap(), &Some("1"));
    assert_eq!(rest, " rest");
}

#[test]
fn uri_address_outcomes() {
    let (rest, (host, port)) = sip::parse_uri_address("h.example:70000").unwrap();
    assert_eq!((host, port), ("h.example", None));
    assert_eq!(rest, ":70000");
    let (rest, (host, port)) = sip::parse_uri_address("h:65535x").unwrap();
    assert_eq!((host, port), ("h", Some(65535)));
    assert_eq!(rest, "x");
    let (rest, (_, port)) = sip::parse_uri_address("h:").unwrap();
    assert_eq!(port, None);
    assert_eq!(rest, ":");
    // U+0130 has the low byte of '0' but is no digit: the port is not read.
    let (rest, (_, port)) = sip::parse_uri_address("h:1\u{130}").unwrap();
    assert_eq!(port, None);
    assert_eq!(rest, ":1\u{130}");
}

#[test]
fn uri_auth_outcomes() {
    assert_eq!(fails(sip::parse_uri_auth("")), err(ErrorKind::Eof));
    assert_eq!(fails(sip::parse_uri_auth("a:b:c@h")), err(ErrorKind::Tag));
    let (rest, (user, password)) = sip::parse_uri_auth("@h").unwrap();
    assert_eq!((user, password), (Some(""), None));
    assert_eq!(rest, "h");
}

#[test]
fn uri_outcomes() {
    assert_eq!(fails(Uri::parse("nocolon")), err(ErrorKind::TakeUntilAndConsume));
    let (rest, uri) = sip::parse_uri("sips:a:b@h:1;x;y=z").unwrap();
    assert_eq!(uri.schema, "sips");
    assert_eq!((uri.user, uri.password), (Some("a"), Some("b")));
    assert_eq!((uri.host, uri.port), ("h", Some(1)));
    assert_eq!(uri.parameters.get("x").unwrap(), &None);
    assert_eq!(uri.parameters.get("y").unwrap(), &Some("z"));
    assert_eq!(rest, "");
    let (_, uri) = Uri::parse("sip:host.example").unwrap();
    assert_eq!((uri.user, uri.password, uri.host, uri.port), (None, None, "host.example", None));
}
