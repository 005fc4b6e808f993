# sip

Parsers for SIP messages (RFC 3261), written in Verus with their behaviour
stated as contracts and proved.

- `src/scan.rs`: the error type, and the scanning steps the grammars are made
  of (matching fixed text, runs of one class of characters or bytes, finding a
  delimiter, reading an unsigned decimal number, UTF-8 conversion).
- `src/sip.rs`: the message head read from bytes (`parse`, `parse_header`,
  `Message`, whose headers are kept in an `indexmap::IndexMap` grouped by
  name), and the start line (`RequestLine`, `StatusLine`).
- `src/header.rs`: header values (`Via`, name-addr, `Uri`) and their
  `;key=value` parameters.
- `src/laws.rs`: properties that hold for every input, such as the grouping of
  repeated headers and that a message written from its parts reads back as
  those parts.

Every parser returns what it left unread together with the value, or a
`ParseError`; its contract gives both exactly, through a spec function that
states the grammar.
