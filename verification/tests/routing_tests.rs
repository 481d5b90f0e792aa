use http_server::compression_utils::gz_encoding;
use http_server::files_util::{file_action, handle_file_request, FileAction, FileEvent};
use http_server::handle_request::{
    choose_encoding, get_unencoded_body, handle_content_encoding, handle_echo, handle_not_found,
    handle_request, handle_root, handle_user_agent, route_request, should_close_connection,
    text_reply, Routed,
};
use http_server::http_request::{HttpRequest, Parsed, RequestMethod};

const NOT_FOUND: &[u8] = b"HTTP/1.1 404 Not Found\r\n\r\n";

fn read(raw: &[u8]) -> HttpRequest {
    match HttpRequest::from_stream(raw, true) {
        Parsed::Request { request, consumed } => {
            assert_eq!(consumed, raw.len());
            request
        }
        other => panic!("not a request: {:?}", other),
    }
}

fn answer(raw: &[u8]) -> Vec<u8> {
    match route_request(&read(raw)) {
        Routed::Response(bytes) => bytes,
        other => panic!("not a response: {:?}", other),
    }
}

fn get(path: &str, headers: &[(&str, &str)]) -> HttpRequest {
    HttpRequest {
        method: RequestMethod::GET,
        path: path.as_bytes().to_vec(),
        _http_version: b"HTTP/1.1".to_vec(),
        headers: headers
            .iter()
            .map(|(k, v)| (k.as_bytes().to_vec(), v.as_bytes().to_vec()))
            .collect(),
        body: None,
    }
}

fn echo_with(body: &[u8], extra: &str) -> Vec<u8> {
    let mut expected = format!(
        "HTTP/1.1 200 OK\r\nContent-Type: text/plain\r\n{}Content-Length: {}\r\n",
        extra,
        body.len()
    )
    .into_bytes();
    expected.extend_from_slice(b"\r\n");
    expected.extend_from_slice(body);
    expected
}

#[test]
fn root_is_ok() {
    assert_eq!(answer(b"GET / HTTP/1.1\r\n\r\n"), b"HTTP/1.1 200 OK\r\n\r\n".to_vec());
    assert_eq!(handle_root(), b"HTTP/1.1 200 OK\r\n\r\n".to_vec());
}

#[test]
fn echo_sends_the_segment_back() {
    assert_eq!(
        answer(b"GET /echo/abc HTTP/1.1\r\n\r\n"),
        b"HTTP/1.1 200 OK\r\nContent-Type: text/plain\r\nContent-Length: 3\r\n\r\nabc".to_vec()
    );
}

#[test]
fn echo_round_trip_for_many_segments() {
    for segment in ["", "a", "abc", "hello-world_42", "%20", "\u{e9}t\u{e9}", "0123456789ab"] {
        let raw = format!("GET /echo/{} HTTP/1.1\r\n\r\n", segment);
        assert_eq!(answer(raw.as_bytes()), echo_with(segment.as_bytes(), ""), "{:?}", segment);
    }
}

#[test]
fn echo_with_gzip_sends_the_compressed_segment() {
    let compressed = gz_encoding(&b"abc".to_vec());
    assert_eq!(
        answer(b"GET /echo/abc HTTP/1.1\r\nAccept-Encoding: gzip\r\n\r\n"),
        echo_with(&compressed, "Content-Encoding: gzip\r\n")
    );
    assert_ne!(compressed, b"abc".to_vec());
}

#[test]
fn echo_prefers_the_body() {
    assert_eq!(
        answer(b"POST /echo/abc HTTP/1.1\r\nContent-Length: 5\r\n\r\nhello"),
        echo_with(b"hello", "")
    );
}

#[test]
fn echo_needs_exactly_three_segments() {
    for path in ["/echo", "/echo/a/b", "/echo/a/", "/echo//", "/echoabc"] {
        assert_eq!(handle_echo(&get(path, &[])), NOT_FOUND.to_vec(), "{:?}", path);
        assert_eq!(route_request(&get(path, &[])), Routed::Response(NOT_FOUND.to_vec()));
    }
}

#[test]
fn echo_counts_segments_and_reads_the_third() {
    assert_eq!(handle_echo(&get("/echo/", &[])), echo_with(b"", ""));
    assert_eq!(route_request(&get("/echoes/abc", &[])), Routed::Response(echo_with(b"abc", "")));
}

#[test]
fn echo_adds_connection_close_where_asked() {
    assert_eq!(
        answer(b"GET /echo/abc HTTP/1.1\r\nConnection: close\r\n\r\n"),
        b"HTTP/1.1 200 OK\r\nContent-Type: text/plain\r\nContent-Length: 3\r\nConnection: close\r\n\r\nabc"
            .to_vec()
    );
    assert_eq!(
        answer(b"GET /echo/abc HTTP/1.1\r\nConnection: keep-alive\r\n\r\n"),
        echo_with(b"abc", "")
    );
}

#[test]
fn user_agent_is_sent_back() {
    assert_eq!(
        answer(b"GET /user-agent HTTP/1.1\r\nHost: a\r\nUser-Agent: curl/8.0\r\n\r\n"),
        echo_with(b"curl/8.0", "")
    );
    assert_eq!(
        handle_user_agent(&get("/user-agent", &[("User-Agent", "x"), ("Connection", "close")])),
        b"HTTP/1.1 200 OK\r\nContent-Type: text/plain\r\nContent-Length: 1\r\nConnection: close\r\n\r\nx"
            .to_vec()
    );
}

#[test]
fn user_agent_is_not_compressed() {
    assert_eq!(
        answer(b"GET /user-agent HTTP/1.1\r\nUser-Agent: abc\r\nAccept-Encoding: gzip\r\n\r\n"),
        echo_with(b"abc", "")
    );
}

#[test]
fn missing_user_agent_gives_an_empty_body() {
    assert_eq!(answer(b"GET /user-agent HTTP/1.1\r\n\r\n"), echo_with(b"", ""));
    assert_eq!(
        answer(b"GET /user-agent HTTP/1.1\r\nuser-agent: abc\r\n\r\n"),
        echo_with(b"", "")
    );
}

#[test]
fn other_paths_are_not_found() {
    for path in ["/nothing", "/user-agent/", "/user-agents", "/files", "/ech", "//", "/index.html", "*"] {
        assert_eq!(route_request(&get(path, &[])), Routed::Response(NOT_FOUND.to_vec()), "{:?}", path);
    }
    assert_eq!(handle_not_found(), NOT_FOUND.to_vec());
}

#[test]
fn close_is_asked_by_exact_header_and_value() {
    assert!(should_close_connection(&get("/", &[("Connection", "close")])));
    assert!(should_close_connection(&get("/", &[("Host", "a"), ("Connection", "close")])));
    assert!(!should_close_connection(&get("/", &[])));
    assert!(!should_close_connection(&get("/", &[("Connection", "Close")])));
    assert!(!should_close_connection(&get("/", &[("connection", "close")])));
    assert!(!should_close_connection(&get("/", &[("Connection", "keep-alive")])));
    assert!(!should_close_connection(&get("/", &[("Connection", "closed")])));
    assert!(!should_close_connection(&get(
        "/",
        &[("Connection", "keep-alive"), ("Connection", "close")]
    )));
}

#[test]
fn encoding_is_the_first_supported_entry() {
    assert_eq!(choose_encoding(b"gzip"), Some(b"gzip".to_vec()));
    assert_eq!(choose_encoding(b"br, gzip"), Some(b"gzip".to_vec()));
    assert_eq!(choose_encoding(b"deflate,  gzip  ,br"), Some(b"gzip".to_vec()));
    assert_eq!(choose_encoding(b"gzip, gzip"), Some(b"gzip".to_vec()));
    assert_eq!(choose_encoding(b""), None);
    assert_eq!(choose_encoding(b"br, deflate"), None);
    assert_eq!(choose_encoding(b"GZIP"), None);
    assert_eq!(choose_encoding(b"gzip;q=1.0"), None);
    assert_eq!(choose_encoding(b"invalid-encoding-1, gzip, invalid-encoding-2"), Some(b"gzip".to_vec()));
}

#[test]
fn content_is_encoded_as_negotiated() {
    let content = b"hello hello hello".to_vec();
    let plain = (content.clone(), Vec::<(Vec<u8>, Vec<u8>)>::new());
    assert_eq!(get_unencoded_body(&content), plain);
    assert_eq!(handle_content_encoding(&get("/", &[]), &content), plain);
    assert_eq!(handle_content_encoding(&get("/", &[("Accept-Encoding", "br")]), &content), plain);
    assert_eq!(handle_content_encoding(&get("/", &[("accept-encoding", "gzip")]), &content), plain);
    assert_eq!(
        handle_content_encoding(&get("/", &[("Accept-Encoding", "br, gzip")]), &content),
        (gz_encoding(&content), vec![(b"Content-Encoding".to_vec(), b"gzip".to_vec())])
    );
}

#[test]
fn text_reply_describes_the_body_it_is_given() {
    let request = get("/x", &[("Connection", "close")]);
    let encoding = vec![(b"Content-Encoding".to_vec(), b"gzip".to_vec())];
    assert_eq!(
        text_reply(&request, &vec![1u8, 2, 3, 4], encoding),
        b"HTTP/1.1 200 OK\r\nContent-Type: text/plain\r\nContent-Encoding: gzip\r\nContent-Length: 4\r\nConnection: close\r\n\r\n\x01\x02\x03\x04"
            .to_vec()
    );
    assert_eq!(text_reply(&get("/x", &[]), &Vec::new(), Vec::new()), echo_with(b"", ""));
}

#[test]
fn file_requests_become_actions() {
    assert_eq!(
        route_request(&read(b"GET /files/note.txt HTTP/1.1\r\n\r\n")),
        Routed::File(FileAction::Read { filename: b"note.txt".to_vec() })
    );
    assert_eq!(
        route_request(&read(b"POST /files/note.txt HTTP/1.1\r\nContent-Length: 2\r\n\r\nhi")),
        Routed::File(FileAction::Write { filename: b"note.txt".to_vec(), contents: b"hi".to_vec() })
    );
    assert_eq!(
        file_action(&get("/files/a/b/../c", &[])),
        Some(FileAction::Read { filename: b"a/b/../c".to_vec() })
    );
    assert_eq!(file_action(&get("/files/", &[])), Some(FileAction::Read { filename: Vec::new() }));
    assert_eq!(file_action(&get("/files", &[])), None);
    assert_eq!(file_action(&get("/", &[])), None);
    assert_eq!(file_action(&get("/echo/files/", &[])), None);
}

#[test]
fn post_without_a_body_writes_nothing_into_the_file() {
    assert_eq!(
        route_request(&read(b"POST /files/empty HTTP/1.1\r\n\r\n")),
        Routed::File(FileAction::Write { filename: b"empty".to_vec(), contents: Vec::new() })
    );
}

#[test]
fn file_outcomes_become_responses() {
    let reading = FileAction::Read { filename: b"a".to_vec() };
    let writing = FileAction::Write { filename: b"a".to_vec(), contents: b"hi".to_vec() };
    assert_eq!(
        handle_file_request(&reading, &FileEvent::Contents(b"hi".to_vec())),
        b"HTTP/1.1 200 OK\r\nContent-Type: application/octet-stream\r\nContent-Length: 2\r\n\r\nhi"
            .to_vec()
    );
    assert_eq!(
        handle_file_request(&reading, &FileEvent::Contents(Vec::new())),
        b"HTTP/1.1 200 OK\r\nContent-Type: application/octet-stream\r\nContent-Length: 0\r\n\r\n"
            .to_vec()
    );
    assert_eq!(handle_file_request(&reading, &FileEvent::Missing), NOT_FOUND.to_vec());
    assert_eq!(handle_file_request(&writing, &FileEvent::Written), b"HTTP/1.1 201 Created\r\n\r\n".to_vec());
    assert_eq!(handle_file_request(&writing, &FileEvent::WriteFailed), NOT_FOUND.to_vec());
}

#[test]
fn outcomes_that_do_not_fit_the_action_are_not_found() {
    let reading = FileAction::Read { filename: b"a".to_vec() };
    let writing = FileAction::Write { filename: b"a".to_vec(), contents: b"hi".to_vec() };
    assert_eq!(handle_file_request(&reading, &FileEvent::Written), NOT_FOUND.to_vec());
    assert_eq!(handle_file_request(&reading, &FileEvent::WriteFailed), NOT_FOUND.to_vec());
    assert_eq!(handle_file_request(&writing, &FileEvent::Missing), NOT_FOUND.to_vec());
    assert_eq!(handle_file_request(&writing, &FileEvent::Contents(b"x".to_vec())), NOT_FOUND.to_vec());
}

#[test]
fn handling_gives_route_and_close_flag() {
    let (routed, close) = handle_request(&get("/", &[("Connection", "close")]));
    assert_eq!(routed, Routed::Response(b"HTTP/1.1 200 OK\r\n\r\n".to_vec()));
    assert!(close);
    let (routed, close) = handle_request(&get("/files/x", &[]));
    assert_eq!(routed, Routed::File(FileAction::Read { filename: b"x".to_vec() }));
    assert!(!close);
}
