//! The life of one connection, as a state machine.
//!
//! The caller owns the socket and the file system. It tells the machine what
//! happened ([`ConnectionEvent`]), and the machine says what to do next
//! ([`ConnectionAction`]). Requests are served strictly one after another:
//! the next one is not looked at before the caller reports that the response
//! to the last one is out.

use vstd::prelude::*;
use crate::files_util::{FileAction, FileActionView};
use crate::handle_request::{handle_request, route, wants_close, Routed, RoutedView};
use crate::headers::lookup;
use crate::http_request::{
    lemma_end_of_stream_decides, lemma_parse_request_consumes, lemma_parse_request_stable,
    parse_request, HttpRequest, ParseError, Parsed, ParsedView,
};
use crate::text::{append_bytes, text};

verus! {

/// Whether the connection still reads requests.
#[derive(Clone, Copy, Debug, PartialEq, Eq, Structural)]
pub enum ConnectionState {
    /// The next request is being read.
    Reading,
    /// The connection is over. Nothing is read or written any more.
    Closed,
}

/// One connection: its state, the bytes received that no request has taken up
/// yet, and whether the peer has closed its side.
#[derive(Debug, PartialEq, Eq)]
pub struct Connection {
    pub state: ConnectionState,
    pub buffer: Vec<u8>,
    pub eof: bool,
}

/// What a [`Connection`] holds.
pub ghost struct ConnectionView {
    pub state: ConnectionState,
    pub buffer: Seq<u8>,
    pub eof: bool,
}

impl View for Connection {
    type V = ConnectionView;

    open spec fn view(&self) -> ConnectionView {
        ConnectionView { state: self.state, buffer: self.buffer@, eof: self.eof }
    }
}

/// What the caller reports to the machine.
#[derive(Debug, PartialEq, Eq)]
pub enum ConnectionEvent {
    /// Nothing new has arrived: the connection has just been opened, or the
    /// response to the last request has been sent.
    Ready,
    /// These bytes were read from the socket.
    Received(Vec<u8>),
    /// The peer has closed its side: no more bytes will come.
    EndOfStream,
    /// Reading from or writing to the socket failed.
    TransportFailed,
}

/// What a [`ConnectionEvent`] holds.
pub ghost enum ConnectionEventView {
    Ready,
    Received(Seq<u8>),
    EndOfStream,
    TransportFailed,
}

impl View for ConnectionEvent {
    type V = ConnectionEventView;

    open spec fn view(&self) -> ConnectionEventView {
        match self {
            ConnectionEvent::Ready => ConnectionEventView::Ready,
            ConnectionEvent::Received(bytes) => ConnectionEventView::Received(bytes@),
            ConnectionEvent::EndOfStream => ConnectionEventView::EndOfStream,
            ConnectionEvent::TransportFailed => ConnectionEventView::TransportFailed,
        }
    }
}

/// What the machine asks of the caller.
#[derive(Debug, PartialEq, Eq)]
pub enum ConnectionAction {
    /// Read more bytes from the socket and report them.
    Read,
    /// Send this response, then report [`ConnectionEvent::Ready`].
    Respond(Vec<u8>),
    /// Perform this file system action, send the response that
    /// `handle_file_request` makes of its outcome, then report
    /// [`ConnectionEvent::Ready`].
    File(FileAction),
    /// Close the socket: the connection has come to its end.
    Close,
    /// Close the socket without a response: what the peer sent is no request.
    Abort(ParseError),
}

/// What a [`ConnectionAction`] holds.
pub ghost enum ConnectionActionView {
    Read,
    Respond(Seq<u8>),
    File(FileActionView),
    Close,
    Abort(ParseError),
}

impl View for ConnectionAction {
    type V = ConnectionActionView;

    open spec fn view(&self) -> ConnectionActionView {
        match self {
            ConnectionAction::Read => ConnectionActionView::Read,
            ConnectionAction::Respond(bytes) => ConnectionActionView::Respond(bytes@),
            ConnectionAction::File(action) => ConnectionActionView::File(action@),
            ConnectionAction::Close => ConnectionActionView::Close,
            ConnectionAction::Abort(e) => ConnectionActionView::Abort(*e),
        }
    }
}

/// A connection that has just been opened.
pub open spec fn fresh() -> ConnectionView {
    ConnectionView { state: ConnectionState::Reading, buffer: Seq::empty(), eof: false }
}

/// The bytes at hand once `event` is taken in.
pub open spec fn buffer_after(c: ConnectionView, event: ConnectionEventView) -> Seq<u8> {
    match event {
        ConnectionEventView::Received(bytes) => c.buffer + bytes,
        _ => c.buffer,
    }
}

/// Whether the peer has closed its side once `event` is taken in.
pub open spec fn eof_after(c: ConnectionView, event: ConnectionEventView) -> bool {
    c.eof || event is EndOfStream
}

/// The action that serves a routed request.
pub open spec fn serve(routed: RoutedView) -> ConnectionActionView {
    match routed {
        RoutedView::Response(bytes) => ConnectionActionView::Respond(bytes),
        RoutedView::File(action) => ConnectionActionView::File(action),
    }
}

/// One step of a connection: the state after `event`, and what to do.
///
/// A closed connection stays closed, and a transport failure closes it. Else
/// the event's bytes join the buffer and a request is read from its start.
/// An incomplete request asks for more bytes. A clean end of the stream
/// closes the connection, and so does a request that cannot be parsed, which
/// gets no response. A whole request leaves the buffer and is served; the
/// connection then goes on reading, unless the request asked for it to be
/// closed.
pub open spec fn advance(c: ConnectionView, event: ConnectionEventView) -> (
    ConnectionView,
    ConnectionActionView,
) {
    if c.state == ConnectionState::Closed || event is TransportFailed {
        (
            ConnectionView { state: ConnectionState::Closed, buffer: c.buffer, eof: c.eof },
            ConnectionActionView::Close,
        )
    } else {
        let buffer = buffer_after(c, event);
        let eof = eof_after(c, event);
        match parse_request(buffer, eof) {
            ParsedView::Incomplete => (
                ConnectionView { state: ConnectionState::Reading, buffer, eof },
                ConnectionActionView::Read,
            ),
            ParsedView::EndOfStream => (
                ConnectionView { state: ConnectionState::Closed, buffer, eof },
                ConnectionActionView::Close,
            ),
            ParsedView::Failed(e) => (
                ConnectionView { state: ConnectionState::Closed, buffer, eof },
                ConnectionActionView::Abort(e),
            ),
            ParsedView::Request { request, consumed } => (
                ConnectionView {
                    state: if wants_close(request.headers) {
                        ConnectionState::Closed
                    } else {
                        ConnectionState::Reading
                    },
                    buffer: buffer.skip(consumed),
                    eof,
                },
                serve(route(request)),
            ),
        }
    }
}

impl Connection {
    /// A connection that has just been opened: reading, with nothing received.
    pub fn new() -> (c: Connection)
        ensures
            c@ == fresh(),
    {
        Connection { state: ConnectionState::Reading, buffer: Vec::new(), eof: false }
    }

    /// Takes in `event` and says what to do next.
    pub fn step(&mut self, event: ConnectionEvent) -> (action: ConnectionAction)
        ensures
            (final(self)@, action@) == advance(old(self)@, event@),
    {
        match self.state {
            ConnectionState::Closed => {
                return ConnectionAction::Close;
            },
            ConnectionState::Reading => {},
        }
        match event {
            ConnectionEvent::TransportFailed => {
                self.state = ConnectionState::Closed;
                return ConnectionAction::Close;
            },
            ConnectionEvent::Received(bytes) => {
                append_bytes(&mut self.buffer, bytes.as_slice());
            },
            ConnectionEvent::EndOfStream => {
                self.eof = true;
            },
            ConnectionEvent::Ready => {},
        }
        proof {
            lemma_parse_request_consumes(self.buffer@, self.eof);
        }
        match HttpRequest::from_stream(self.buffer.as_slice(), self.eof) {
            Parsed::Incomplete => ConnectionAction::Read,
            Parsed::EndOfStream => {
                self.state = ConnectionState::Closed;
                ConnectionAction::Close
            },
            Parsed::Failed(e) => {
                self.state = ConnectionState::Closed;
                ConnectionAction::Abort(e)
            },
            Parsed::Request { request, consumed } => {
                let ghost before = self.buffer@;
                let rest = self.buffer.split_off(consumed);
                self.buffer = rest;
                assert(self.buffer@ =~= before.skip(consumed as int));
                let (routed, close) = handle_request(&request);
                if close {
                    self.state = ConnectionState::Closed;
                }
                match routed {
                    Routed::Response(bytes) => ConnectionAction::Respond(bytes),
                    Routed::File(action) => ConnectionAction::File(action),
                }
            },
        }
    }
}

/// A closed connection stays closed: whatever is reported, nothing more is
/// read, served or sent.
pub proof fn lemma_closed_is_final(c: ConnectionView, event: ConnectionEventView)
    requires
        c.state == ConnectionState::Closed,
    ensures
        advance(c, event).0 == c,
        advance(c, event).1 == ConnectionActionView::Close,
{
}

/// A request that carries `Connection: close` is the last one of its
/// connection. It is served, and with that the connection is closed: whatever
/// is reported next, even more bytes on a socket that is still open, is
/// answered with `Close` and no further read.
pub proof fn lemma_close_after_response(
    c: ConnectionView,
    event: ConnectionEventView,
    next: ConnectionEventView,
)
    requires
        c.state == ConnectionState::Reading,
        !(event is TransportFailed),
        parse_request(buffer_after(c, event), eof_after(c, event)) matches ParsedView::Request {
            request,
            ..
        } && lookup(request.headers, text("Connection")) == Some(text("close")),
    ensures
        advance(c, event).1 is Respond || advance(c, event).1 is File,
        advance(c, event).0.state == ConnectionState::Closed,
        advance(advance(c, event).0, next).1 == ConnectionActionView::Close,
        advance(advance(c, event).0, next).0 == advance(c, event).0,
{
}

/// A request without `Connection: close` leaves the connection reading.
pub proof fn lemma_keep_alive(c: ConnectionView, event: ConnectionEventView)
    requires
        c.state == ConnectionState::Reading,
        !(event is TransportFailed),
        parse_request(buffer_after(c, event), eof_after(c, event)) matches ParsedView::Request {
            request,
            ..
        } && lookup(request.headers, text("Connection")) != Some(text("close")),
    ensures
        advance(c, event).1 is Respond || advance(c, event).1 is File,
        advance(c, event).0.state == ConnectionState::Reading,
{
}

/// The machine asks for more bytes only from a connection that is reading and
/// whose peer has not closed its side; and what cannot be parsed closes the
/// connection without a response.
pub proof fn lemma_reads_and_aborts(c: ConnectionView, event: ConnectionEventView)
    ensures
        advance(c, event).1 is Read ==> advance(c, event).0.state == ConnectionState::Reading
            && !advance(c, event).0.eof,
        advance(c, event).1 is Abort ==> advance(c, event).0.state == ConnectionState::Closed,
        advance(c, event).1 is Close ==> advance(c, event).0.state == ConnectionState::Closed,
{
    lemma_end_of_stream_decides(buffer_after(c, event));
}

/// Serving a request takes it out of the buffer: what is left is shorter.
pub proof fn lemma_serving_consumes(c: ConnectionView, event: ConnectionEventView)
    ensures
        advance(c, event).1 is Respond || advance(c, event).1 is File ==> advance(
            c,
            event,
        ).0.buffer.len() < buffer_after(c, event).len(),
{
    lemma_parse_request_consumes(buffer_after(c, event), eof_after(c, event));
}

/// How the peer's bytes are cut into pieces does not matter while a request
/// is incomplete: taking in one piece, being asked for more, and taking in
/// the next piece comes to the same as taking in both at once.
pub proof fn lemma_pieces_add_up(c: ConnectionView, first: Seq<u8>, second: Seq<u8>)
    requires
        advance(c, ConnectionEventView::Received(first)).1 is Read,
    ensures
        advance(
            advance(c, ConnectionEventView::Received(first)).0,
            ConnectionEventView::Received(second),
        ) == advance(c, ConnectionEventView::Received(first + second)),
{
    assert((c.buffer + first) + second =~= c.buffer + (first + second));
}

/// Nor does it matter once a request is decided: bytes that arrive together
/// with a request, but after its end, change neither what is done about the
/// request nor the state; they wait in the buffer.
pub proof fn lemma_later_bytes_wait(c: ConnectionView, first: Seq<u8>, second: Seq<u8>)
    requires
        c.state == ConnectionState::Reading,
        !c.eof,
        !(advance(c, ConnectionEventView::Received(first)).1 is Read),
    ensures
        advance(c, ConnectionEventView::Received(first + second)).1 == advance(
            c,
            ConnectionEventView::Received(first),
        ).1,
        advance(c, ConnectionEventView::Received(first + second)).0.state == advance(
            c,
            ConnectionEventView::Received(first),
        ).0.state,
        advance(c, ConnectionEventView::Received(first + second)).0.buffer == advance(
            c,
            ConnectionEventView::Received(first),
        ).0.buffer + second,
{
    let buffer = c.buffer + first;
    assert(buffer + second =~= c.buffer + (first + second));
    lemma_parse_request_stable(buffer, second, false);
    lemma_parse_request_consumes(buffer, false);
    if let ParsedView::Request { consumed, .. } = parse_request(buffer, false) {
        assert((buffer + second).skip(consumed) =~= buffer.skip(consumed) + second);
    }
}

} // verus!
