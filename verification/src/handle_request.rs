//! Routing: from a request to its response, or to the file system action that
//! has to come first.

use vstd::prelude::*;
use vstd::string::is_ascii_spec_bytes;
use crate::compression_utils::{gz_encoding, gzip_bytes};
use crate::files_util::{
    bare, bare_response, file_action, file_action_of, file_response, is_file_path, FileAction,
    FileActionView, FileEventView,
};
use crate::headers::{
    find_header, header_views, lemma_header_views_push, lemma_lookup_from_joined, lookup,
    lookup_from,
};
use crate::http_request::{
    lemma_bare_request, parse_request, request_head, HttpRequest, ParsedView, Request,
    RequestMethod,
};
use crate::http_response::{
    announces_length, construct_http_response, header_block, header_line, status_line, wire,
    Response, ResponseStatus,
};
use crate::text::{
    decimal, is_space, is_text, is_word, lemma_scan_unique, split, split_from, split_on,
    starts_with, stops, text, text_bytes, to_decimal, to_vec, trim, trimmed, views, Stop, COMMA,
    SLASH,
};

verus! {

/// Whether the headers ask for the connection to be closed: the first
/// `Connection` header, matched exactly, has the value `close`.
pub open spec fn wants_close(headers: Seq<(Seq<u8>, Seq<u8>)>) -> bool {
    lookup(headers, text("Connection")) == Some(text("close"))
}

/// Whether the server can produce the content encoding that `token` names.
pub open spec fn is_supported_encoding(token: Seq<u8>) -> bool {
    token == text("gzip")
}

/// The first of the listed encodings, from index `from` on and each trimmed,
/// that the server supports.
pub open spec fn first_supported(tokens: Seq<Seq<u8>>, from: int) -> Option<Seq<u8>>
    decreases tokens.len() - from,
{
    if from < 0 || from >= tokens.len() {
        None
    } else if is_supported_encoding(trim(tokens[from])) {
        Some(trim(tokens[from]))
    } else {
        first_supported(tokens, from + 1)
    }
}

/// The encoding that a value of `Accept-Encoding` settles on: the first
/// supported one of its comma-separated entries. Quality values are not read.
pub open spec fn accepted_encoding(value: Seq<u8>) -> Option<Seq<u8>> {
    first_supported(split(value, COMMA), 0)
}

/// The content encoding agreed for a response to a request with these
/// headers, if any.
pub open spec fn negotiated_encoding(headers: Seq<(Seq<u8>, Seq<u8>)>) -> Option<Seq<u8>> {
    match lookup(headers, text("Accept-Encoding")) {
        None => None,
        Some(value) => accepted_encoding(value),
    }
}

/// The body that carries `content` to a client that sent these headers, and
/// the headers that describe its encoding.
pub open spec fn encoded_content(headers: Seq<(Seq<u8>, Seq<u8>)>, content: Seq<u8>) -> (
    Seq<u8>,
    Seq<(Seq<u8>, Seq<u8>)>,
) {
    match negotiated_encoding(headers) {
        Some(method) => (gzip_bytes(content), seq![(text("Content-Encoding"), method)]),
        None => (content, Seq::empty()),
    }
}

/// `Connection: close`, where the request asked for it.
pub open spec fn close_headers(request: Request) -> Seq<(Seq<u8>, Seq<u8>)> {
    if wants_close(request.headers) {
        seq![(text("Connection"), text("close"))]
    } else {
        Seq::empty()
    }
}

/// A plain-text response with the given body: its type, the headers that
/// describe its encoding, its length, and `Connection: close` where the
/// request asked for it.
pub open spec fn text_response(
    request: Request,
    body: Seq<u8>,
    encoding_headers: Seq<(Seq<u8>, Seq<u8>)>,
) -> Response {
    Response {
        status: ResponseStatus::SuccessfulResponse,
        headers: seq![(text("Content-Type"), text("text/plain"))] + encoding_headers + seq![
            (text("Content-Length"), decimal(body.len())),
        ] + close_headers(request),
        body: Some(body),
    }
}

/// What a request under `/echo` asks to have sent back: its body where it has
/// one, else the third of the three segments of its target. `None` where the
/// target does not have exactly three segments.
pub open spec fn echo_content(request: Request) -> Option<Seq<u8>> {
    let segments = split(request.path, SLASH);
    if segments.len() != 3 {
        None
    } else {
        Some(
            match request.body {
                Some(b) => b,
                None => segments[2],
            },
        )
    }
}

/// The response to a request under `/echo`.
pub open spec fn echo_response(request: Request) -> Response {
    match echo_content(request) {
        None => bare_response(ResponseStatus::NotFoundResponse),
        Some(content) => {
            let (body, encoding_headers) = encoded_content(request.headers, content);
            text_response(request, body, encoding_headers)
        },
    }
}

/// The user agent that a request names: the value of its first `User-Agent`
/// header, matched exactly, or nothing where it has none.
pub open spec fn user_agent(request: Request) -> Seq<u8> {
    match lookup(request.headers, text("User-Agent")) {
        Some(value) => value,
        None => Seq::empty(),
    }
}

/// The response to a request for `/user-agent`.
pub open spec fn user_agent_response(request: Request) -> Response {
    text_response(request, user_agent(request), Seq::empty())
}

/// Where a request is routed to.
#[derive(Debug, PartialEq, Eq)]
pub enum Routed {
    /// The response, ready to be sent.
    Response(Vec<u8>),
    /// The file system action to perform; its outcome gives the response.
    File(FileAction),
}

/// What a [`Routed`] holds.
pub ghost enum RoutedView {
    Response(Seq<u8>),
    File(FileActionView),
}

impl View for Routed {
    type V = RoutedView;

    open spec fn view(&self) -> RoutedView {
        match self {
            Routed::Response(bytes) => RoutedView::Response(bytes@),
            Routed::File(action) => RoutedView::File(action@),
        }
    }
}

/// Where a request goes. The rules are tried in this order: `/` exactly;
/// targets that begin with `/echo`; targets that begin with `/files/`;
/// `/user-agent` exactly; everything else is not found.
pub open spec fn route(request: Request) -> RoutedView {
    if request.path == text("/") {
        RoutedView::Response(wire(bare_response(ResponseStatus::SuccessfulResponse)))
    } else if text("/echo").is_prefix_of(request.path) {
        RoutedView::Response(wire(echo_response(request)))
    } else if is_file_path(request.path) {
        RoutedView::File(file_action_of(request))
    } else if request.path == text("/user-agent") {
        RoutedView::Response(wire(user_agent_response(request)))
    } else {
        RoutedView::Response(wire(bare_response(ResponseStatus::NotFoundResponse)))
    }
}

/// Whether the request asks for the connection to be closed after its
/// response.
pub fn should_close_connection(request: &HttpRequest) -> (r: bool)
    ensures
        r == wants_close(request@.headers),
{
    match find_header(request.headers.as_slice(), "Connection") {
        Some(value) => is_text(value.as_slice(), "close"),
        None => false,
    }
}

/// The response to a request for `/`.
pub fn handle_root() -> (out: Vec<u8>)
    ensures
        out@ == wire(bare_response(ResponseStatus::SuccessfulResponse)),
{
    bare(ResponseStatus::SuccessfulResponse)
}

/// The response to a request that nothing answers.
pub fn handle_not_found() -> (out: Vec<u8>)
    ensures
        out@ == wire(bare_response(ResponseStatus::NotFoundResponse)),
{
    bare(ResponseStatus::NotFoundResponse)
}

/// The body for `content` sent as it is, with no encoding headers.
pub fn get_unencoded_body(content: &Vec<u8>) -> (r: (Vec<u8>, Vec<(Vec<u8>, Vec<u8>)>))
    ensures
        r.0@ == content@,
        header_views(r.1@) == Seq::<(Seq<u8>, Seq<u8>)>::empty(),
{
    let headers: Vec<(Vec<u8>, Vec<u8>)> = Vec::new();
    assert(header_views(headers@) =~= Seq::<(Seq<u8>, Seq<u8>)>::empty());
    (to_vec(content.as_slice()), headers)
}

/// Picks the encoding from a value of `Accept-Encoding`.
pub fn choose_encoding(value: &[u8]) -> (r: Option<Vec<u8>>)
    ensures
        match r {
            Some(method) => accepted_encoding(value@) == Some(method@),
            None => accepted_encoding(value@) is None,
        },
{
    let tokens = split_on(value, COMMA);
    let mut i: usize = 0;
    while i < tokens.len()
        invariant
            i <= tokens.len(),
            views(tokens@) == split(value@, COMMA),
            accepted_encoding(value@) == first_supported(views(tokens@), i as int),
        decreases tokens.len() - i,
    {
        assert(views(tokens@)[i as int] == tokens@[i as int]@);
        let token = trimmed(tokens[i].as_slice());
        if is_text(token, "gzip") {
            return Some(to_vec(token));
        }
        i += 1;
    }
    None
}

/// Encodes `content` as the request's `Accept-Encoding` allows. Returns the
/// body to send and the headers that describe its encoding.
pub fn handle_content_encoding(request: &HttpRequest, content: &Vec<u8>) -> (r: (
    Vec<u8>,
    Vec<(Vec<u8>, Vec<u8>)>,
))
    ensures
        (r.0@, header_views(r.1@)) == encoded_content(request@.headers, content@),
{
    let accepted = match find_header(request.headers.as_slice(), "Accept-Encoding") {
        Some(value) => value,
        None => {
            return get_unencoded_body(content);
        },
    };
    match choose_encoding(accepted.as_slice()) {
        Some(method) => {
            let body = gz_encoding(content);
            let mut headers: Vec<(Vec<u8>, Vec<u8>)> = Vec::new();
            let encoding = (text_bytes("Content-Encoding"), method);
            proof {
                lemma_header_views_push(headers@, encoding);
            }
            headers.push(encoding);
            assert(header_views(headers@) =~= seq![(text("Content-Encoding"), encoding.1@)]);
            (body, headers)
        },
        None => get_unencoded_body(content),
    }
}

/// Builds the plain-text response that carries `body`, which
/// `encoding_headers` describe.
pub fn text_reply(
    request: &HttpRequest,
    body: &Vec<u8>,
    encoding_headers: Vec<(Vec<u8>, Vec<u8>)>,
) -> (out: Vec<u8>)
    ensures
        out@ == wire(text_response(request@, body@, header_views(encoding_headers@))),
{
    let mut headers: Vec<(Vec<u8>, Vec<u8>)> = Vec::new();
    let kind = (text_bytes("Content-Type"), text_bytes("text/plain"));
    proof {
        lemma_header_views_push(headers@, kind);
    }
    headers.push(kind);
    let mut encoding_headers = encoding_headers;
    let ghost encoding = header_views(encoding_headers@);
    headers.append(&mut encoding_headers);
    assert(header_views(headers@) =~= seq![(text("Content-Type"), text("text/plain"))] + encoding);
    let length = (text_bytes("Content-Length"), to_decimal(body.len()));
    proof {
        lemma_header_views_push(headers@, length);
    }
    headers.push(length);
    if should_close_connection(request) {
        let close = (text_bytes("Connection"), text_bytes("close"));
        proof {
            lemma_header_views_push(headers@, close);
        }
        headers.push(close);
    }
    assert(header_views(headers@) =~= text_response(request@, body@, encoding).headers);
    construct_http_response(
        ResponseStatus::SuccessfulResponse,
        headers.as_slice(),
        Some(body.as_slice()),
    )
}

/// Answers a request under `/echo`.
pub fn handle_echo(request: &HttpRequest) -> (out: Vec<u8>)
    ensures
        out@ == wire(echo_response(request@)),
{
    let segments = split_on(request.path.as_slice(), SLASH);
    if segments.len() != 3 {
        return handle_not_found();
    }
    assert(views(segments@)[2] == segments@[2]@);
    let content: &Vec<u8> = match &request.body {
        Some(body) => body,
        None => &segments[2],
    };
    let (body, encoding_headers) = handle_content_encoding(request, content);
    text_reply(request, &body, encoding_headers)
}

/// Answers a request for `/user-agent`.
pub fn handle_user_agent(request: &HttpRequest) -> (out: Vec<u8>)
    ensures
        out@ == wire(user_agent_response(request@)),
{
    let body: Vec<u8> = match find_header(request.headers.as_slice(), "User-Agent") {
        Some(value) => to_vec(value.as_slice()),
        None => Vec::new(),
    };
    let encoding_headers: Vec<(Vec<u8>, Vec<u8>)> = Vec::new();
    assert(header_views(encoding_headers@) =~= Seq::<(Seq<u8>, Seq<u8>)>::empty());
    text_reply(request, &body, encoding_headers)
}

/// Routes a request.
pub fn route_request(request: &HttpRequest) -> (r: Routed)
    ensures
        r@ == route(request@),
{
    let path = request.path.as_slice();
    if is_text(path, "/") {
        return Routed::Response(handle_root());
    }
    if starts_with(path, "/echo".as_bytes()) {
        return Routed::Response(handle_echo(request));
    }
    match file_action(request) {
        Some(action) => {
            return Routed::File(action);
        },
        None => {},
    }
    if is_text(path, "/user-agent") {
        Routed::Response(handle_user_agent(request))
    } else {
        Routed::Response(handle_not_found())
    }
}

/// Serves one request: where it is routed to, and whether the connection is
/// to be closed once its response has been sent.
pub fn handle_request(request: &HttpRequest) -> (r: (Routed, bool))
    ensures
        r.0@ == route(request@),
        r.1 == wants_close(request@.headers),
{
    let close = should_close_connection(request);
    let routed = route_request(request);
    (routed, close)
}

/// The target `/echo/` followed by a segment without a slash has three
/// segments, and the segment is the third.
pub proof fn lemma_echo_path_segments(segment: Seq<u8>)
    requires
        forall|i: int| 0 <= i < segment.len() ==> #[trigger] segment[i] != SLASH,
    ensures
        split(text("/echo/") + segment, SLASH).len() == 3,
        split(text("/echo/") + segment, SLASH)[2] == segment,
        text("/echo").is_prefix_of(text("/echo/") + segment),
        text("/echo/") + segment != text("/"),
{
    reveal_strlit("/echo/");
    reveal_strlit("/echo");
    reveal_strlit("/");
    broadcast use is_ascii_spec_bytes;

    assert(vstd::string::is_ascii("/echo/"));
    assert(vstd::string::is_ascii("/echo"));
    assert(vstd::string::is_ascii("/"));
    assert(text("/echo/") =~= seq![47u8, 101u8, 99u8, 104u8, 111u8, 47u8]);
    assert(text("/echo") =~= seq![47u8, 101u8, 99u8, 104u8, 111u8]);
    assert(text("/") =~= seq![47u8]);
    let path = text("/echo/") + segment;
    let n = path.len() as int;
    assert(path[0] == 47u8);
    assert(path[1] == 101u8);
    assert(path[2] == 99u8);
    assert(path[3] == 104u8);
    assert(path[4] == 111u8);
    assert(path[5] == 47u8);
    assert forall|j: int| 6 <= j < n implies !stops(Stop::At(SLASH), #[trigger] path[j]) by {
        assert(path[j] == segment[j - 6]);
    }
    lemma_scan_unique(path, 0, Stop::At(SLASH), 0);
    lemma_scan_unique(path, 1, Stop::At(SLASH), 5);
    lemma_scan_unique(path, 6, Stop::At(SLASH), n);
    assert(split_from(path, SLASH, 6) =~= seq![path.subrange(6, n)]);
    assert(split_from(path, SLASH, 1) =~= seq![path.subrange(1, 5)] + split_from(path, SLASH, 6));
    assert(split_from(path, SLASH, 0) =~= seq![path.subrange(0, 0)] + split_from(path, SLASH, 1));
    assert(path.subrange(6, n) =~= segment);
    assert(text("/echo") =~= path.subrange(0, 5));
}

/// A request for `/echo/` and a segment, without a body and without an
/// `Accept-Encoding` header, is answered with that segment as the body, byte
/// for byte, and with its length in bytes as the `Content-Length`.
pub proof fn lemma_echo_round_trip(request: Request, segment: Seq<u8>)
    requires
        request.path == text("/echo/") + segment,
        forall|i: int| 0 <= i < segment.len() ==> #[trigger] segment[i] != SLASH,
        request.body is None,
        lookup(request.headers, text("Accept-Encoding")) is None,
    ensures
        route(request) == RoutedView::Response(wire(echo_response(request))),
        echo_response(request).status == ResponseStatus::SuccessfulResponse,
        echo_response(request).body == Some(segment),
        lookup(echo_response(request).headers, text("Content-Length")) == Some(
            decimal(segment.len()),
        ),
        echo_response(request).headers == seq![
            (text("Content-Type"), text("text/plain")),
            (text("Content-Length"), decimal(segment.len())),
        ] + close_headers(request),
{
    lemma_echo_path_segments(segment);
    reveal_strlit("Content-Type");
    reveal_strlit("Content-Length");
    broadcast use is_ascii_spec_bytes;

    assert(vstd::string::is_ascii("Content-Type"));
    assert(vstd::string::is_ascii("Content-Length"));
    assert(text("Content-Type").len() == 12);
    assert(text("Content-Length").len() == 14);
    let headers = echo_response(request).headers;
    let name = text("Content-Length");
    assert(headers =~= seq![
        (text("Content-Type"), text("text/plain")),
        (text("Content-Length"), decimal(segment.len())),
    ] + close_headers(request));
    assert(headers[0].0 == text("Content-Type"));
    assert(headers[1] == (name, decimal(segment.len())));
    assert(lookup_from(headers, name, 1) == Some(decimal(segment.len())));
    assert(lookup_from(headers, name, 0) == lookup_from(headers, name, 1));
}

/// The target `/echo/` followed by a segment without white space is a word,
/// and so is the version `HTTP/1.1`.
pub proof fn lemma_echo_request_words(segment: Seq<u8>)
    requires
        forall|i: int| 0 <= i < segment.len() ==> !is_space(#[trigger] segment[i]),
    ensures
        is_word(text("/echo/") + segment),
        is_word(text("HTTP/1.1")),
{
    reveal_strlit("/echo/");
    reveal_strlit("HTTP/1.1");
    broadcast use is_ascii_spec_bytes;

    assert(vstd::string::is_ascii("/echo/"));
    assert(vstd::string::is_ascii("HTTP/1.1"));
    assert(text("/echo/") =~= seq![47u8, 101u8, 99u8, 104u8, 111u8, 47u8]);
    assert(text("HTTP/1.1") =~= seq![72u8, 84u8, 84u8, 80u8, 47u8, 49u8, 46u8, 49u8]);
    let path = text("/echo/") + segment;
    assert forall|i: int| 0 <= i < path.len() implies !is_space(#[trigger] path[i]) by {
        if i >= 6 {
            assert(path[i] == segment[i - 6]);
        }
    }
}

/// Two headers on the wire are the line of the first and then the line of the
/// second.
pub proof fn lemma_header_block_of_two(first: (Seq<u8>, Seq<u8>), second: (Seq<u8>, Seq<u8>))
    ensures
        header_block(seq![first, second]) == header_line(first) + header_line(second),
{
    let none = Seq::<(Seq<u8>, Seq<u8>)>::empty();
    let one = seq![first];
    let both = seq![first, second];
    assert(header_block(none) =~= Seq::<u8>::empty());
    assert(one.drop_last() =~= none);
    assert(one.last() == first);
    assert(header_block(one) =~= header_block(none) + header_line(first));
    assert(header_block(one) =~= header_line(first));
    assert(both.drop_last() =~= one);
    assert(both.last() == second);
    assert(header_block(both) =~= header_block(one) + header_line(second));
}

/// The whole way from bytes to bytes: a bare `GET` for `/echo/` and a segment
/// is read as a request that takes up all its bytes, and is answered with
/// 200, the plain-text type, the segment's length, and the segment itself.
pub proof fn lemma_echo_pipeline(segment: Seq<u8>, eof: bool)
    requires
        forall|i: int|
            0 <= i < segment.len() ==> !is_space(#[trigger] segment[i]) && segment[i] != SLASH,
    ensures
        ({
            let raw = request_head(
                RequestMethod::GET,
                text("/echo/") + segment,
                text("HTTP/1.1"),
            ) + text("\r\n");
            &&& parse_request(raw, eof) matches ParsedView::Request { request, consumed }
            &&& consumed == raw.len()
            &&& route(request) == RoutedView::Response(
                status_line(ResponseStatus::SuccessfulResponse) + header_line(
                    (text("Content-Type"), text("text/plain")),
                ) + header_line((text("Content-Length"), decimal(segment.len()))) + text("\r\n")
                    + segment,
            )
        }),
{
    let path = text("/echo/") + segment;
    let version = text("HTTP/1.1");
    lemma_echo_request_words(segment);
    lemma_bare_request(RequestMethod::GET, path, version, eof);
    let request = Request {
        method: RequestMethod::GET,
        path,
        version,
        headers: Seq::empty(),
        body: None,
    };
    lemma_echo_round_trip(request, segment);
    let first = (text("Content-Type"), text("text/plain"));
    let second = (text("Content-Length"), decimal(segment.len()));
    assert(close_headers(request) =~= Seq::<(Seq<u8>, Seq<u8>)>::empty());
    assert(echo_response(request).headers =~= seq![first, second]);
    lemma_header_block_of_two(first, second);
    assert(wire(echo_response(request)) =~= status_line(ResponseStatus::SuccessfulResponse)
        + header_line(first) + header_line(second) + text("\r\n") + segment);
}

/// Compression depends on the content alone: the same content compressed
/// twice gives byte-identical output.
pub proof fn lemma_compression_repeats(first: Seq<u8>, second: Seq<u8>)
    requires
        first == second,
    ensures
        gzip_bytes(first) == gzip_bytes(second),
{
}

/// The names of the headers that responses carry differ from one another.
pub proof fn lemma_header_names_differ()
    ensures
        text("Content-Type") != text("Content-Length"),
        text("Content-Encoding") != text("Content-Length"),
        text("Connection") != text("Content-Length"),
{
    reveal_strlit("Content-Type");
    reveal_strlit("Content-Length");
    reveal_strlit("Content-Encoding");
    reveal_strlit("Connection");
    broadcast use is_ascii_spec_bytes;

    assert(vstd::string::is_ascii("Content-Type"));
    assert(vstd::string::is_ascii("Content-Length"));
    assert(vstd::string::is_ascii("Content-Encoding"));
    assert(vstd::string::is_ascii("Connection"));
    assert(text("Content-Type").len() == 12);
    assert(text("Content-Length").len() == 14);
    assert(text("Content-Encoding").len() == 16);
    assert(text("Connection").len() == 10);
}

/// A plain-text response announces the length of its body, whatever the
/// encoding headers, as long as they do not themselves hold a
/// `Content-Length`.
pub proof fn lemma_text_response_announces_length(
    request: Request,
    body: Seq<u8>,
    encoding_headers: Seq<(Seq<u8>, Seq<u8>)>,
)
    requires
        lookup(encoding_headers, text("Content-Length")) is None,
    ensures
        announces_length(text_response(request, body, encoding_headers)),
{
    lemma_header_names_differ();
    let name = text("Content-Length");
    let kind = seq![(text("Content-Type"), text("text/plain"))];
    let length = seq![(name, decimal(body.len()))];
    let close = close_headers(request);
    assert(lookup_from(kind, name, 1) is None);
    assert(lookup(kind, name) is None);
    lemma_lookup_from_joined(kind, encoding_headers, name, 0);
    assert(lookup(length, name) == Some(decimal(body.len())));
    lemma_lookup_from_joined(length, close, name, 0);
    lemma_lookup_from_joined(kind + encoding_headers, length + close, name, 0);
    assert(text_response(request, body, encoding_headers).headers =~= (kind + encoding_headers)
        + (length + close));
}

/// Every response that the server builds is consistent: it announces the
/// length of the body that it carries, after any compression, and announces
/// none where it carries no body.
pub proof fn lemma_responses_announce_length(
    request: Request,
    action: FileActionView,
    event: FileEventView,
    status: ResponseStatus,
)
    ensures
        announces_length(bare_response(status)),
        announces_length(echo_response(request)),
        announces_length(user_agent_response(request)),
        announces_length(file_response(action, event)),
{
    lemma_header_names_differ();
    let name = text("Content-Length");
    if let Some(content) = echo_content(request) {
        let (body, encoding_headers) = encoded_content(request.headers, content);
        assert(lookup_from(encoding_headers, name, 1) is None);
        assert(lookup(encoding_headers, name) is None);
        lemma_text_response_announces_length(request, body, encoding_headers);
    }
    lemma_text_response_announces_length(request, user_agent(request), Seq::empty());
    let headers = file_response(action, event).headers;
    if file_response(action, event).body is Some {
        assert(lookup_from(headers, name, 1) == Some(headers[1].1));
        assert(lookup_from(headers, name, 0) == lookup_from(headers, name, 1));
    }
}

} // verus!
