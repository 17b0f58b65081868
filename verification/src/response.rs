//! The response writer: renders a status/headers/body triple into the wire
//! format — status line, `Content-Type`, an exact `Content-Length`,
//! `Connection: close`, a fixed set of permissive cross-origin headers, a
//! blank line, then the raw body bytes.

use vstd::prelude::*;
use crate::persist::dec_digits;

verus! {

/// A response before it is put on the wire.
pub struct Response {
    pub status: u16,
    pub status_text: Vec<u8>,
    pub content_type: Vec<u8>,
    pub body: Vec<u8>,
}

/// Mathematical image of a `Response`.
pub struct ResponseView {
    pub status: u16,
    pub status_text: Seq<u8>,
    pub content_type: Seq<u8>,
    pub body: Seq<u8>,
}

impl View for Response {
    type V = ResponseView;

    open spec fn view(&self) -> ResponseView {
        ResponseView {
            status: self.status,
            status_text: self.status_text@,
            content_type: self.content_type@,
            body: self.body@,
        }
    }
}

/// `HTTP/1.1 ` — the status line's fixed head.
pub open spec fn status_line_prefix() -> Seq<u8> {
    seq![72u8, 84, 84, 80, 47, 49, 46, 49, 32]
}

/// `\r\nContent-Type: `.
pub open spec fn content_type_prefix() -> Seq<u8> {
    seq![13u8, 10, 67, 111, 110, 116, 101, 110, 116, 45, 84, 121, 112, 101, 58, 32]
}

/// `\r\nContent-Length: `.
pub open spec fn content_length_prefix() -> Seq<u8> {
    seq![13u8, 10, 67, 111, 110, 116, 101, 110, 116, 45, 76, 101, 110, 103, 116, 104, 58, 32]
}

/// The fixed trailer: `Connection: close`, the permissive cross-origin
/// headers (allowed origin, credentials, the headers `Content-Type` and
/// `Authorization`, the five supported methods, a max-age), and the blank
/// line that ends the header block.
pub open spec fn fixed_trailer() -> Seq<u8> {
    seq![13u8, 10, 67, 111, 110, 110, 101, 99, 116, 105, 111, 110, 58, 32, 99, 108, 111, 115, 101,
        13, 10, 65, 99, 99, 101, 115, 115, 45, 67, 111, 110, 116, 114, 111, 108, 45, 65, 108, 108,
        111, 119, 45, 79, 114, 105, 103, 105, 110, 58, 32, 104, 116, 116, 112, 58, 47, 47, 108,
        111, 99, 97, 108, 104, 111, 115, 116, 58, 51, 48, 48, 48, 13, 10, 65, 99, 99, 101, 115,
        115, 45, 67, 111, 110, 116, 114, 111, 108, 45, 65, 108, 108, 111, 119, 45, 67, 114, 101,
        100, 101, 110, 116, 105, 97, 108, 115, 58, 32, 116, 114, 117, 101, 13, 10, 65, 99, 99,
        101, 115, 115, 45, 67, 111, 110, 116, 114, 111, 108, 45, 65, 108, 108, 111, 119, 45, 72,
        101, 97, 100, 101, 114, 115, 58, 32, 67, 111, 110, 116, 101, 110, 116, 45, 84, 121, 112,
        101, 44, 32, 65, 117, 116, 104, 111, 114, 105, 122, 97, 116, 105, 111, 110, 13, 10, 65,
        99, 99, 101, 115, 115, 45, 67, 111, 110, 116, 114, 111, 108, 45, 65, 108, 108, 111, 119,
        45, 77, 101, 116, 104, 111, 100, 115, 58, 32, 71, 69, 84, 44, 80, 79, 83, 84, 44, 80, 65,
        84, 67, 72, 44, 68, 69, 76, 69, 84, 69, 44, 79, 80, 84, 73, 79, 78, 83, 13, 10, 65, 99,
        99, 101, 115, 115, 45, 67, 111, 110, 116, 114, 111, 108, 45, 77, 97, 120, 45, 65, 103,
        101, 58, 32, 56, 54, 52, 48, 48, 13, 10, 13, 10]
}

/// The exact wire form of a response: the `Content-Length` is the byte
/// length of the body, and the body follows the blank line unaltered.
pub open spec fn response_bytes(r: ResponseView) -> Seq<u8> {
    status_line_prefix() + dec_digits(r.status as nat) + seq![32u8] + r.status_text
        + content_type_prefix() + r.content_type + content_length_prefix() + dec_digits(
        r.body.len(),
    ) + fixed_trailer() + r.body
}

/// Serializes a response into its wire bytes, per `response_bytes`.
pub fn write_response(status: u16, status_text: &[u8], content_type: &[u8], body: &[u8]) -> (r: Vec<
    u8,
>)
    ensures
        r@ == response_bytes(
            ResponseView {
                status,
                status_text: status_text@,
                content_type: content_type@,
                body: body@,
            },
        ),
{
    let mut out: Vec<u8> = Vec::new();
    let p0: [u8; 9] = [72, 84, 84, 80, 47, 49, 46, 49, 32];
    out.extend_from_slice(p0.as_slice());
    let d0 = crate::persist::fmt_u128(status as u128);
    out.extend_from_slice(d0.as_slice());
    out.push(32);
    out.extend_from_slice(status_text);
    let p1: [u8; 16] = [13, 10, 67, 111, 110, 116, 101, 110, 116, 45, 84, 121, 112, 101, 58, 32];
    out.extend_from_slice(p1.as_slice());
    out.extend_from_slice(content_type);
    let p2: [u8; 18] = [13, 10, 67, 111, 110, 116, 101, 110, 116, 45, 76, 101, 110, 103, 116, 104,
        58, 32];
    out.extend_from_slice(p2.as_slice());
    let d1 = crate::persist::fmt_u128(body.len() as u128);
    out.extend_from_slice(d1.as_slice());
    let p3: [u8; 266] = [13, 10, 67, 111, 110, 110, 101, 99, 116, 105, 111, 110, 58, 32, 99, 108,
        111, 115, 101, 13, 10, 65, 99, 99, 101, 115, 115, 45, 67, 111, 110, 116, 114, 111, 108,
        45, 65, 108, 108, 111, 119, 45, 79, 114, 105, 103, 105, 110, 58, 32, 104, 116, 116, 112,
        58, 47, 47, 108, 111, 99, 97, 108, 104, 111, 115, 116, 58, 51, 48, 48, 48, 13, 10, 65, 99,
        99, 101, 115, 115, 45, 67, 111, 110, 116, 114, 111, 108, 45, 65, 108, 108, 111, 119, 45,
        67, 114, 101, 100, 101, 110, 116, 105, 97, 108, 115, 58, 32, 116, 114, 117, 101, 13, 10,
        65, 99, 99, 101, 115, 115, 45, 67, 111, 110, 116, 114, 111, 108, 45, 65, 108, 108, 111,
        119, 45, 72, 101, 97, 100, 101, 114, 115, 58, 32, 67, 111, 110, 116, 101, 110, 116, 45,
        84, 121, 112, 101, 44, 32, 65, 117, 116, 104, 111, 114, 105, 122, 97, 116, 105, 111, 110,
        13, 10, 65, 99, 99, 101, 115, 115, 45, 67, 111, 110, 116, 114, 111, 108, 45, 65, 108, 108,
        111, 119, 45, 77, 101, 116, 104, 111, 100, 115, 58, 32, 71, 69, 84, 44, 80, 79, 83, 84,
        44, 80, 65, 84, 67, 72, 44, 68, 69, 76, 69, 84, 69, 44, 79, 80, 84, 73, 79, 78, 83, 13,
        10, 65, 99, 99, 101, 115, 115, 45, 67, 111, 110, 116, 114, 111, 108, 45, 77, 97, 120, 45,
        65, 103, 101, 58, 32, 56, 54, 52, 48, 48, 13, 10, 13, 10];
    out.extend_from_slice(p3.as_slice());
    out.extend_from_slice(body);
    proof {
        assert(out@ =~= response_bytes(
            ResponseView {
                status,
                status_text: status_text@,
                content_type: content_type@,
                body: body@,
            },
        ));
    }
    out
}

/// Serializes an assembled `Response`, per `response_bytes`.
pub fn response_to_bytes(r: &Response) -> (o: Vec<u8>)
    ensures
        o@ == response_bytes(r@),
{
    write_response(r.status, r.status_text.as_slice(), r.content_type.as_slice(), r.body.as_slice())
}

} // verus!
