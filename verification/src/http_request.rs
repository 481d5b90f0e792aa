//! Requests, and the parser that reads one from the bytes of a connection.
//!
//! The parser is a function of the bytes received so far, and of whether the
//! peer has closed its side. It can be asked again whenever more bytes have
//! arrived: while the request is incomplete it says so, and once it has an
//! answer, later bytes do not change it ([`lemma_parse_request_stable`]).
//!
//! A line ends with a line feed. White space is ASCII white space, so the
//! carriage return before the line feed is trimmed away with the rest.

use vstd::prelude::*;
use vstd::string::is_ascii_spec_bytes;
use vstd::utf8::valid_utf8;
use crate::headers::{
    find_header_ignoring_case, header_views, lemma_header_views_push, lookup_ignoring_case,
};
use crate::text::{
    all_digits, all_spaces, digits_value, is_digit, is_digit_byte, is_text, is_word, join_words,
    lemma_joined_spaces, lemma_scan, lemma_scan_extend, lemma_scan_unique, lemma_words_of_joined,
    parse_decimal, parse_number, scan, scan_bytes, split_words, stops, text, to_vec, trim,
    trim_start, trimmed, views, words, Stop, CARRIAGE_RETURN, COLON, LINE_FEED,
};
use crate::utf8::is_utf8;

verus! {

/// The methods that the server answers.
#[derive(Clone, Copy, Debug, PartialEq, Eq, Structural)]
pub enum RequestMethod {
    POST,
    GET,
}

/// Why the bytes of a connection are not a request. Each of these ends the
/// connection without a response.
#[derive(Clone, Copy, Debug, PartialEq, Eq, Structural)]
pub enum ParseError {
    /// The first line does not consist of exactly three words.
    MalformedRequestLine,
    /// The first word of the first line is neither `GET` nor `POST`.
    UnsupportedMethod,
    /// `Content-Length` begins with a digit but is no number that fits.
    MalformedContentLength,
    /// The body is not well-formed UTF-8.
    InvalidBodyEncoding,
    /// The peer closed the connection in the middle of a request.
    UnexpectedEof,
}

/// A parsed request.
#[derive(Debug, PartialEq, Eq)]
pub struct HttpRequest {
    pub method: RequestMethod,
    /// The request target, as received.
    pub path: Vec<u8>,
    /// The protocol version, as received.
    pub _http_version: Vec<u8>,
    /// The headers in the order received, names and values trimmed.
    pub headers: Vec<(Vec<u8>, Vec<u8>)>,
    /// The body, present where `Content-Length` is a positive number.
    pub body: Option<Vec<u8>>,
}

/// What a request holds.
pub ghost struct Request {
    pub method: RequestMethod,
    pub path: Seq<u8>,
    pub version: Seq<u8>,
    pub headers: Seq<(Seq<u8>, Seq<u8>)>,
    pub body: Option<Seq<u8>>,
}

impl View for HttpRequest {
    type V = Request;

    open spec fn view(&self) -> Request {
        Request {
            method: self.method,
            path: self.path@,
            version: self._http_version@,
            headers: header_views(self.headers@),
            body: match self.body {
                Some(b) => Some(b@),
                None => None,
            },
        }
    }
}

/// What reading a request from the bytes received so far comes to.
#[derive(Debug, PartialEq, Eq)]
pub enum Parsed {
    /// A whole request, which took up the first `consumed` bytes.
    Request { request: HttpRequest, consumed: usize },
    /// The bytes so far are the beginning of a request: more are needed.
    Incomplete,
    /// The peer closed the connection between two requests.
    EndOfStream,
    /// The bytes are not a request.
    Failed(ParseError),
}

/// What a [`Parsed`] holds.
pub ghost enum ParsedView {
    Request { request: Request, consumed: int },
    Incomplete,
    EndOfStream,
    Failed(ParseError),
}

impl View for Parsed {
    type V = ParsedView;

    open spec fn view(&self) -> ParsedView {
        match self {
            Parsed::Request { request, consumed } => ParsedView::Request {
                request: request@,
                consumed: *consumed as int,
            },
            Parsed::Incomplete => ParsedView::Incomplete,
            Parsed::EndOfStream => ParsedView::EndOfStream,
            Parsed::Failed(e) => ParsedView::Failed(*e),
        }
    }
}

/// The method that a word names, if it names one. The match is exact.
pub open spec fn method_of(word: Seq<u8>) -> Option<RequestMethod> {
    if word == text("GET") {
        Some(RequestMethod::GET)
    } else if word == text("POST") {
        Some(RequestMethod::POST)
    } else {
        None
    }
}

/// The word that names a method.
pub open spec fn method_text(method: RequestMethod) -> Seq<u8> {
    match method {
        RequestMethod::GET => text("GET"),
        RequestMethod::POST => text("POST"),
    }
}

/// The method, target and version of a request line: its three words.
pub open spec fn request_line(line: Seq<u8>) -> Result<
    (RequestMethod, Seq<u8>, Seq<u8>),
    ParseError,
> {
    let tokens = words(line);
    if tokens.len() != 3 {
        Err(ParseError::MalformedRequestLine)
    } else {
        match method_of(tokens[0]) {
            None => Err(ParseError::UnsupportedMethod),
            Some(method) => Ok((method, tokens[1], tokens[2])),
        }
    }
}

/// Whether a line holds nothing but white space.
pub open spec fn is_blank(line: Seq<u8>) -> bool {
    trim(line).len() == 0
}

/// The header on a line: what stands before the first colon and what stands
/// after it, both trimmed. A line without a colon holds no header.
pub open spec fn header_of(line: Seq<u8>) -> Option<(Seq<u8>, Seq<u8>)> {
    let colon = scan(line, 0, Stop::At(COLON));
    if colon < line.len() {
        Some((trim(line.subrange(0, colon)), trim(line.subrange(colon + 1, line.len() as int))))
    } else {
        None
    }
}

/// The header section that begins at index `from` of `s`: the headers of its
/// lines up to the first blank line, and the index just after that line.
/// `None` where `s` ends before a blank line does.
pub open spec fn header_section(s: Seq<u8>, from: int) -> Option<(Seq<(Seq<u8>, Seq<u8>)>, int)>
    decreases s.len() - from,
{
    let end = scan(s, from, Stop::At(LINE_FEED));
    if from <= end && end < s.len() {
        let line = s.subrange(from, end);
        if is_blank(line) {
            Some((Seq::empty(), end + 1))
        } else {
            match header_section(s, end + 1) {
                None => None,
                Some((rest, after)) => Some(
                    (
                        match header_of(line) {
                            Some(h) => seq![h] + rest,
                            None => rest,
                        },
                        after,
                    ),
                ),
            }
        }
    } else {
        None
    }
}

/// The length of the body that the headers announce. The first
/// `Content-Length`, in any case of letters, decides: a value that does not
/// begin with a digit counts as none and gives 0; one that does must be a
/// number that fits in `usize`.
pub open spec fn body_length(headers: Seq<(Seq<u8>, Seq<u8>)>) -> Result<usize, ParseError> {
    match lookup_ignoring_case(headers, text("Content-Length")) {
        None => Ok(0),
        Some(value) => if value.len() == 0 || !is_digit(value[0]) {
            Ok(0)
        } else {
            match parse_number(value) {
                Some(n) => Ok(n),
                None => Err(ParseError::MalformedContentLength),
            }
        },
    }
}

/// What is made of bytes that end before the request does: with more to come
/// the request is incomplete; at the end of the stream, nothing at all is a
/// clean end and anything else is a failure.
pub open spec fn unfinished(s: Seq<u8>, eof: bool) -> ParsedView {
    if !eof {
        ParsedView::Incomplete
    } else if s.len() == 0 {
        ParsedView::EndOfStream
    } else {
        ParsedView::Failed(ParseError::UnexpectedEof)
    }
}

/// The request at the start of `s`, the bytes received so far; `eof` says
/// that no more will come.
///
/// Lines end with a line feed; a carriage return before it is white space
/// like any other. The first line gives method, target and version. Header
/// lines follow up to a blank line. Then comes the body, of exactly the
/// announced length, where that is positive.
pub open spec fn parse_request(s: Seq<u8>, eof: bool) -> ParsedView {
    let end = scan(s, 0, Stop::At(LINE_FEED));
    if end >= s.len() {
        unfinished(s, eof)
    } else {
        match request_line(s.subrange(0, end)) {
            Err(e) => ParsedView::Failed(e),
            Ok((method, path, version)) => match header_section(s, end + 1) {
                None => unfinished(s, eof),
                Some((headers, after)) => match body_length(headers) {
                    Err(e) => ParsedView::Failed(e),
                    Ok(n) => if n == 0 {
                        ParsedView::Request {
                            request: Request { method, path, version, headers, body: None },
                            consumed: after,
                        }
                    } else if after + n > s.len() {
                        unfinished(s, eof)
                    } else if valid_utf8(s.subrange(after, after + n)) {
                        ParsedView::Request {
                            request: Request {
                                method,
                                path,
                                version,
                                headers,
                                body: Some(s.subrange(after, after + n)),
                            },
                            consumed: after + n,
                        }
                    } else {
                        ParsedView::Failed(ParseError::InvalidBodyEncoding)
                    },
                },
            },
        }
    }
}

impl RequestMethod {
    /// The method that `word` names.
    pub fn from_bytes(word: &[u8]) -> (r: Result<RequestMethod, ParseError>)
        ensures
            r == match method_of(word@) {
                Some(m) => Ok::<RequestMethod, ParseError>(m),
                None => Err(ParseError::UnsupportedMethod),
            },
    {
        if is_text(word, "GET") {
            Ok(RequestMethod::GET)
        } else if is_text(word, "POST") {
            Ok(RequestMethod::POST)
        } else {
            Err(ParseError::UnsupportedMethod)
        }
    }

    /// The method that `s` names: `GET` or `POST`, in exactly this case.
    pub fn from_str(s: &str) -> (r: Result<RequestMethod, ParseError>)
        ensures
            r == match method_of(text(s)) {
                Some(m) => Ok::<RequestMethod, ParseError>(m),
                None => Err(ParseError::UnsupportedMethod),
            },
    {
        RequestMethod::from_bytes(s.as_bytes())
    }
}

/// Reads the header on one line.
pub fn parse_header_line(line: &[u8]) -> (r: Option<(Vec<u8>, Vec<u8>)>)
    ensures
        match r {
            Some(h) => header_of(line@) == Some((h.0@, h.1@)),
            None => header_of(line@) is None,
        },
{
    let colon = scan_bytes(line, 0, Stop::At(COLON));
    if colon < line.len() {
        let name = to_vec(trimmed(&line[0..colon]));
        let value = to_vec(trimmed(&line[colon + 1..line.len()]));
        Some((name, value))
    } else {
        None
    }
}

/// Reads the header section that begins at index `from`.
pub fn parse_headers(stream: &[u8], from: usize) -> (r: Option<(Vec<(Vec<u8>, Vec<u8>)>, usize)>)
    ensures
        match r {
            Some((headers, after)) => header_section(stream@, from as int) == Some(
                (header_views(headers@), after as int),
            ) && after <= stream.len(),
            None => header_section(stream@, from as int) is None,
        },
{
    if from > stream.len() {
        return None;
    }
    let mut headers: Vec<(Vec<u8>, Vec<u8>)> = Vec::new();
    let mut pos: usize = from;
    assert(header_views(headers@) =~= Seq::<(Seq<u8>, Seq<u8>)>::empty());
    loop
        invariant
            from <= pos <= stream.len(),
            header_section(stream@, from as int) == match header_section(stream@, pos as int) {
                Some((rest, after)) => Some((header_views(headers@) + rest, after)),
                None => None,
            },
        decreases stream.len() - pos,
    {
        let end = scan_bytes(stream, pos, Stop::At(LINE_FEED));
        if end >= stream.len() {
            return None;
        }
        let line = &stream[pos..end];
        if trimmed(line).len() == 0 {
            assert(header_views(headers@) + Seq::<(Seq<u8>, Seq<u8>)>::empty() =~= header_views(
                headers@,
            ));
            return Some((headers, end + 1));
        }
        let ghost before = header_views(headers@);
        let ghost rest = header_section(stream@, end + 1);
        match parse_header_line(line) {
            Some(h) => {
                proof {
                    lemma_header_views_push(headers@, h);
                    if let Some((tail, after)) = rest {
                        assert(before + (seq![(h.0@, h.1@)] + tail) =~= before.push((h.0@, h.1@))
                            + tail);
                    }
                }
                headers.push(h);
            },
            None => {},
        }
        pos = end + 1;
    }
}

/// Reads the length of the body from the headers.
pub fn read_body_length(headers: &[(Vec<u8>, Vec<u8>)]) -> (r: Result<usize, ParseError>)
    ensures
        r == body_length(header_views(headers@)),
{
    match find_header_ignoring_case(headers, "Content-Length") {
        None => Ok(0),
        Some(value) => {
            if value.len() == 0 || !is_digit_byte(value[0]) {
                Ok(0)
            } else {
                match parse_decimal(value.as_slice()) {
                    Some(n) => Ok(n),
                    None => Err(ParseError::MalformedContentLength),
                }
            }
        },
    }
}

/// The outcome for bytes that end before the request does.
pub fn cut_short(stream: &[u8], eof: bool) -> (r: Parsed)
    ensures
        r@ == unfinished(stream@, eof),
{
    if !eof {
        Parsed::Incomplete
    } else if stream.len() == 0 {
        Parsed::EndOfStream
    } else {
        Parsed::Failed(ParseError::UnexpectedEof)
    }
}

impl HttpRequest {
    /// Reads one request from the start of `stream`, the bytes that the
    /// connection has delivered and that no request has taken up yet. `eof`
    /// says that the peer has closed the connection, so that `stream` is all
    /// there will ever be.
    pub fn from_stream(stream: &[u8], eof: bool) -> (r: Parsed)
        ensures
            r@ == parse_request(stream@, eof),
    {
        let end = scan_bytes(stream, 0, Stop::At(LINE_FEED));
        if end >= stream.len() {
            return cut_short(stream, eof);
        }
        let tokens = split_words(&stream[0..end]);
        if tokens.len() != 3 {
            return Parsed::Failed(ParseError::MalformedRequestLine);
        }
        assert(views(tokens@)[0] == tokens@[0]@);
        assert(views(tokens@)[1] == tokens@[1]@);
        assert(views(tokens@)[2] == tokens@[2]@);
        let method = match RequestMethod::from_bytes(tokens[0].as_slice()) {
            Ok(m) => m,
            Err(e) => {
                return Parsed::Failed(e);
            },
        };
        let path = to_vec(tokens[1].as_slice());
        let version = to_vec(tokens[2].as_slice());
        let (headers, after) = match parse_headers(stream, end + 1) {
            Some(section) => section,
            None => {
                return cut_short(stream, eof);
            },
        };
        let length = match read_body_length(headers.as_slice()) {
            Ok(n) => n,
            Err(e) => {
                return Parsed::Failed(e);
            },
        };
        if length == 0 {
            return Parsed::Request {
                request: HttpRequest { method, path, _http_version: version, headers, body: None },
                consumed: after,
            };
        }
        if length > stream.len() - after {
            return cut_short(stream, eof);
        }
        let body = &stream[after..after + length];
        if !is_utf8(body) {
            return Parsed::Failed(ParseError::InvalidBodyEncoding);
        }
        Parsed::Request {
            request: HttpRequest {
                method,
                path,
                _http_version: version,
                headers,
                body: Some(to_vec(body)),
            },
            consumed: after + length,
        }
    }
}

/// The start of a request: its first line, made of the method's name, the
/// target and the version with single spaces between them, and a line break.
pub open spec fn request_head(method: RequestMethod, path: Seq<u8>, version: Seq<u8>) -> Seq<u8> {
    join_words(seq![method_text(method), path, version]) + text("\r\n")
}

/// The name of a method is a word, and names that method.
pub proof fn lemma_method_text(method: RequestMethod)
    ensures
        is_word(method_text(method)),
        method_of(method_text(method)) == Some(method),
{
    reveal_strlit("GET");
    reveal_strlit("POST");
    broadcast use is_ascii_spec_bytes;

    assert(vstd::string::is_ascii("GET"));
    assert(vstd::string::is_ascii("POST"));
    assert(text("GET") =~= seq![71u8, 69u8, 84u8]);
    assert(text("POST") =~= seq![80u8, 79u8, 83u8, 84u8]);
}

/// A line break is a carriage return and a line feed.
pub proof fn lemma_line_break()
    ensures
        text("\r\n") == seq![CARRIAGE_RETURN, LINE_FEED],
        text("\r") == seq![CARRIAGE_RETURN],
{
    reveal_strlit("\r\n");
    reveal_strlit("\r");
    broadcast use is_ascii_spec_bytes;

    assert(vstd::string::is_ascii("\r\n"));
    assert(vstd::string::is_ascii("\r"));
    assert(text("\r\n") =~= seq![CARRIAGE_RETURN, LINE_FEED]);
    assert(text("\r") =~= seq![CARRIAGE_RETURN]);
}

/// A line of nothing but white space is blank.
pub proof fn lemma_spaces_are_blank(line: Seq<u8>)
    requires
        all_spaces(line),
    ensures
        is_blank(line),
{
    lemma_scan_unique(line, 0, Stop::NonSpace, line.len() as int);
    assert(trim_start(line) =~= Seq::<u8>::empty());
}

/// Where the bytes begin with words joined by single spaces and a line break,
/// the first line ends with that line break and its words are those words.
pub proof fn lemma_first_line(ws: Seq<Seq<u8>>, rest: Seq<u8>)
    requires
        forall|i: int| 0 <= i < ws.len() ==> is_word(#[trigger] ws[i]),
    ensures
        scan(join_words(ws) + text("\r\n") + rest, 0, Stop::At(LINE_FEED)) == join_words(
            ws,
        ).len() + 1,
        words(
            (join_words(ws) + text("\r\n") + rest).subrange(0, join_words(ws).len() as int + 1),
        ) == ws,
{
    lemma_line_break();
    lemma_joined_spaces(ws);
    let joined = join_words(ws);
    let s = joined + text("\r\n") + rest;
    let n = joined.len() as int;
    assert forall|j: int| 0 <= j < n + 1 implies !stops(Stop::At(LINE_FEED), #[trigger] s[j]) by {
        if j < n {
            assert(s[j] == joined[j]);
        } else {
            assert(s[j] == CARRIAGE_RETURN);
        }
    }
    assert(s[n + 1] == LINE_FEED);
    lemma_scan_unique(s, 0, Stop::At(LINE_FEED), n + 1);
    assert(s.subrange(0, n + 1) =~= joined + seq![CARRIAGE_RETURN]);
    lemma_words_of_joined(ws, seq![CARRIAGE_RETURN]);
}

/// A request line of a method's name, a target and a version, each a word,
/// with single spaces between them and a line break at the end, is read back
/// as that method, target and version, whatever follows it.
pub proof fn lemma_request_line_recovered(
    method: RequestMethod,
    path: Seq<u8>,
    version: Seq<u8>,
    rest: Seq<u8>,
    eof: bool,
)
    requires
        is_word(path),
        is_word(version),
    ensures
        request_line(join_words(seq![method_text(method), path, version]) + text("\r")) == Ok::<
            (RequestMethod, Seq<u8>, Seq<u8>),
            ParseError,
        >((method, path, version)),
        match parse_request(request_head(method, path, version) + rest, eof) {
            ParsedView::Request { request, .. } => request.method == method && request.path
                == path && request.version == version,
            ParsedView::Failed(e) => e != ParseError::MalformedRequestLine && e
                != ParseError::UnsupportedMethod,
            _ => true,
        },
{
    lemma_method_text(method);
    lemma_line_break();
    let ws = seq![method_text(method), path, version];
    lemma_first_line(ws, rest);
    lemma_words_of_joined(ws, seq![CARRIAGE_RETURN]);
}

/// A request that is nothing but a request line and a blank line is read as
/// a request without headers or body that takes up all the bytes.
pub proof fn lemma_bare_request(method: RequestMethod, path: Seq<u8>, version: Seq<u8>, eof: bool)
    requires
        is_word(path),
        is_word(version),
    ensures
        parse_request(request_head(method, path, version) + text("\r\n"), eof)
            == (ParsedView::Request {
            request: Request { method, path, version, headers: Seq::empty(), body: None },
            consumed: (request_head(method, path, version) + text("\r\n")).len() as int,
        }),
{
    lemma_method_text(method);
    lemma_line_break();
    let ws = seq![method_text(method), path, version];
    let s = request_head(method, path, version) + text("\r\n");
    let n = join_words(ws).len() as int;
    lemma_first_line(ws, text("\r\n"));
    assert(s[n + 2] == CARRIAGE_RETURN);
    assert(s[n + 3] == LINE_FEED);
    lemma_scan_unique(s, n + 2, Stop::At(LINE_FEED), n + 3);
    assert(s.subrange(n + 2, n + 3) =~= seq![CARRIAGE_RETURN]);
    lemma_spaces_are_blank(seq![CARRIAGE_RETURN]);
}

/// A first line that does not hold exactly three words is rejected as
/// malformed, whatever follows it.
pub proof fn lemma_wrong_word_count_rejected(ws: Seq<Seq<u8>>, rest: Seq<u8>, eof: bool)
    requires
        forall|i: int| 0 <= i < ws.len() ==> is_word(#[trigger] ws[i]),
        ws.len() != 3,
    ensures
        parse_request(join_words(ws) + text("\r\n") + rest, eof) == ParsedView::Failed(
            ParseError::MalformedRequestLine,
        ),
{
    lemma_line_break();
    lemma_first_line(ws, rest);
}

/// A request has a body exactly where its headers announce a positive length;
/// the body then has that length and is well-formed UTF-8.
pub proof fn lemma_body_follows_length(s: Seq<u8>, eof: bool)
    ensures
        parse_request(s, eof) matches ParsedView::Request { request, .. } ==> match body_length(
            request.headers,
        ) {
            Ok(n) => if n == 0 {
                request.body is None
            } else {
                request.body matches Some(b) && b.len() == n && valid_utf8(b)
            },
            Err(_) => false,
        },
{
    let end = scan(s, 0, Stop::At(LINE_FEED));
    if end < s.len() {
        lemma_scan(s, 0, Stop::At(LINE_FEED));
        lemma_header_section_bounds(s, end + 1);
    }
}

/// A header section ends after its start and within the bytes.
pub proof fn lemma_header_section_bounds(s: Seq<u8>, from: int)
    requires
        0 <= from <= s.len(),
    ensures
        header_section(s, from) matches Some((_, after)) ==> from < after <= s.len(),
    decreases s.len() - from,
{
    lemma_scan(s, from, Stop::At(LINE_FEED));
    let end = scan(s, from, Stop::At(LINE_FEED));
    if end < s.len() {
        lemma_header_section_bounds(s, end + 1);
    }
}

/// A request that is read takes up at least one byte, and no more than there
/// are.
pub proof fn lemma_parse_request_consumes(s: Seq<u8>, eof: bool)
    ensures
        parse_request(s, eof) matches ParsedView::Request { consumed, .. } ==> 0 < consumed
            <= s.len(),
{
    lemma_scan(s, 0, Stop::At(LINE_FEED));
    let end = scan(s, 0, Stop::At(LINE_FEED));
    if end < s.len() {
        lemma_header_section_bounds(s, end + 1);
    }
}

/// Headers without a `Content-Length`, or with `Content-Length: 0`, announce
/// no body.
pub proof fn lemma_no_length_announced(headers: Seq<(Seq<u8>, Seq<u8>)>)
    requires
        lookup_ignoring_case(headers, text("Content-Length")) is None || lookup_ignoring_case(
            headers,
            text("Content-Length"),
        ) == Some(text("0")),
    ensures
        body_length(headers) == Ok::<usize, ParseError>(0),
{
    reveal_strlit("0");
    broadcast use is_ascii_spec_bytes;

    assert(vstd::string::is_ascii("0"));
    let zero = text("0");
    assert(zero =~= seq![48u8]);
    assert(zero.drop_last() =~= Seq::<u8>::empty());
    assert(digits_value(zero.drop_last()) == 0);
    assert(digits_value(zero) == 0);
    assert(all_digits(zero));
}

/// A request whose headers hold no `Content-Length`, or `Content-Length: 0`,
/// is read without a body.
pub proof fn lemma_no_body_without_length(s: Seq<u8>, eof: bool)
    ensures
        parse_request(s, eof) matches ParsedView::Request { request, .. } ==> (
        lookup_ignoring_case(request.headers, text("Content-Length")) is None
            || lookup_ignoring_case(request.headers, text("Content-Length")) == Some(text("0")))
            ==> request.body is None,
{
    lemma_body_follows_length(s, eof);
    if let ParsedView::Request { request, .. } = parse_request(s, eof) {
        if lookup_ignoring_case(request.headers, text("Content-Length")) is None
            || lookup_ignoring_case(request.headers, text("Content-Length")) == Some(text("0")) {
            lemma_no_length_announced(request.headers);
        }
    }
}

/// A header section that is complete stays as it is when more bytes follow.
pub proof fn lemma_header_section_extend(s: Seq<u8>, more: Seq<u8>, from: int)
    requires
        0 <= from <= s.len(),
        header_section(s, from) is Some,
    ensures
        header_section(s + more, from) == header_section(s, from),
    decreases s.len() - from,
{
    lemma_scan(s, from, Stop::At(LINE_FEED));
    let end = scan(s, from, Stop::At(LINE_FEED));
    lemma_scan_extend(s, more, from, Stop::At(LINE_FEED));
    assert((s + more).subrange(from, end) =~= s.subrange(from, end));
    if !is_blank(s.subrange(from, end)) {
        lemma_header_section_extend(s, more, end + 1);
    }
}

/// Once the bytes received decide what the request is, or that there is none,
/// nothing that arrives later changes it: the answer for the bytes so far is
/// the answer for the whole stream.
pub proof fn lemma_parse_request_stable(s: Seq<u8>, more: Seq<u8>, eof: bool)
    requires
        !(parse_request(s, false) is Incomplete),
    ensures
        parse_request(s + more, eof) == parse_request(s, false),
{
    lemma_scan(s, 0, Stop::At(LINE_FEED));
    let end = scan(s, 0, Stop::At(LINE_FEED));
    lemma_scan_extend(s, more, 0, Stop::At(LINE_FEED));
    assert((s + more).subrange(0, end) =~= s.subrange(0, end));
    if request_line(s.subrange(0, end)) is Ok {
        lemma_header_section_extend(s, more, end + 1);
        lemma_header_section_bounds(s, end + 1);
        let (headers, after) = header_section(s, end + 1)->0;
        if let Ok(n) = body_length(headers) {
            if n > 0 {
                assert((s + more).subrange(after, after + n) =~= s.subrange(after, after + n));
            }
        }
    }
}

/// At the end of the stream every outcome is final: nothing is left waiting
/// for more bytes.
pub proof fn lemma_end_of_stream_decides(s: Seq<u8>)
    ensures
        !(parse_request(s, true) is Incomplete),
        parse_request(s, true) is EndOfStream <==> s.len() == 0,
{
    lemma_scan(s, 0, Stop::At(LINE_FEED));
}

} // verus!
