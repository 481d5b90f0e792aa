//! Responses and their form on the wire.

use vstd::prelude::*;
use crate::headers::{header_views, lookup};
use crate::text::{append_bytes, append_text, decimal, text};

verus! {

/// The status of a response.
#[derive(Clone, Copy, Debug, PartialEq, Eq, Structural)]
pub enum ResponseStatus {
    /// 200 OK
    SuccessfulResponse,
    /// 404 Not Found
    NotFoundResponse,
    /// 201 Created
    CreatedResponse,
}

/// A response before it is serialised: status, headers in order, and an
/// optional body.
pub ghost struct Response {
    pub status: ResponseStatus,
    pub headers: Seq<(Seq<u8>, Seq<u8>)>,
    pub body: Option<Seq<u8>>,
}

/// The first line of a response with the given status, line break included.
pub open spec fn status_line(status: ResponseStatus) -> Seq<u8> {
    match status {
        ResponseStatus::SuccessfulResponse => text("HTTP/1.1 200 OK\r\n"),
        ResponseStatus::NotFoundResponse => text("HTTP/1.1 404 Not Found\r\n"),
        ResponseStatus::CreatedResponse => text("HTTP/1.1 201 Created\r\n"),
    }
}

/// One header on the wire: `name: value` and a line break.
pub open spec fn header_line(header: (Seq<u8>, Seq<u8>)) -> Seq<u8> {
    header.0 + text(": ") + header.1 + text("\r\n")
}

/// The lines of a header list, in the list's order.
pub open spec fn header_block(headers: Seq<(Seq<u8>, Seq<u8>)>) -> Seq<u8>
    decreases headers.len(),
{
    if headers.len() == 0 {
        Seq::empty()
    } else {
        header_block(headers.drop_last()) + header_line(headers.last())
    }
}

/// The bytes of a body that may be absent.
pub open spec fn body_bytes(body: Option<Seq<u8>>) -> Seq<u8> {
    match body {
        Some(b) => b,
        None => Seq::empty(),
    }
}

/// A response on the wire: status line, header lines, an empty line, then the
/// body as it is.
pub open spec fn wire(response: Response) -> Seq<u8> {
    status_line(response.status) + header_block(response.headers) + text("\r\n") + body_bytes(
        response.body,
    )
}

/// Whether a response is consistent: one with a body carries the body's
/// length in bytes as its `Content-Length`, and one without a body carries no
/// `Content-Length`. Serialising does not see to this; whoever builds the
/// response does.
pub open spec fn announces_length(response: Response) -> bool {
    match response.body {
        Some(body) => lookup(response.headers, text("Content-Length")) == Some(
            decimal(body.len()),
        ),
        None => lookup(response.headers, text("Content-Length")) is None,
    }
}

/// The view of an optional body.
pub open spec fn body_view(body: Option<&[u8]>) -> Option<Seq<u8>> {
    match body {
        Some(b) => Some(b@),
        None => None,
    }
}

/// Serialises a response. Headers are written in the order given and nothing
/// is added: a `Content-Length` for the body is the caller's to supply.
pub fn construct_http_response(
    status: ResponseStatus,
    headers: &[(Vec<u8>, Vec<u8>)],
    body: Option<&[u8]>,
) -> (out: Vec<u8>)
    ensures
        out@ == wire(
            Response { status, headers: header_views(headers@), body: body_view(body) },
        ),
{
    let mut out: Vec<u8> = Vec::new();
    match status {
        ResponseStatus::SuccessfulResponse => append_text(&mut out, "HTTP/1.1 200 OK\r\n"),
        ResponseStatus::NotFoundResponse => append_text(&mut out, "HTTP/1.1 404 Not Found\r\n"),
        ResponseStatus::CreatedResponse => append_text(&mut out, "HTTP/1.1 201 Created\r\n"),
    }
    assert(out@ =~= status_line(status));
    let ghost all = header_views(headers@);
    let mut i: usize = 0;
    assert(all.take(0) =~= Seq::<(Seq<u8>, Seq<u8>)>::empty());
    assert(out@ =~= status_line(status) + header_block(all.take(0)));
    while i < headers.len()
        invariant
            i <= headers.len(),
            all == header_views(headers@),
            out@ == status_line(status) + header_block(all.take(i as int)),
        decreases headers.len() - i,
    {
        let ghost before = out@;
        append_bytes(&mut out, headers[i].0.as_slice());
        append_text(&mut out, ": ");
        append_bytes(&mut out, headers[i].1.as_slice());
        append_text(&mut out, "\r\n");
        proof {
            assert(all.take(i + 1).drop_last() =~= all.take(i as int));
            assert(all.take(i + 1).last() == all[i as int]);
            assert(out@ =~= before + header_line(all[i as int]));
            assert(out@ =~= status_line(status) + header_block(all.take(i + 1)));
        }
        i += 1;
    }
    assert(all.take(headers.len() as int) =~= all);
    append_text(&mut out, "\r\n");
    match body {
        Some(b) => {
            append_bytes(&mut out, b);
        },
        None => {
            assert(out@ + Seq::<u8>::empty() =~= out@);
        },
    }
    out
}

} // verus!
