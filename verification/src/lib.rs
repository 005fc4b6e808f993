//! Parsers for SIP messages (RFC 3261): the message head (start line and
//! header lines), request and status lines, and the values of some headers
//! (`Via`, name-addr, SIP URIs).
use vstd::prelude::*;

pub mod scan;
pub mod header;
pub mod sip;
pub mod laws;

pub use scan::{ErrorKind, ParseError};
pub use sip::{
    Message, RequestLine, StatusLine, parse, parse_header, parse_request_line, parse_status_line,
    valid_header_name_char, is_space,
};
pub use header::{
    NameAddr, Uri, Via, parse_name_addr, parse_uri, parse_uri_address, parse_uri_auth,
    parse_uri_params, parse_via, is_vchar, not_address_end, not_uri_end, testat,
};

verus! {

} // verus!
