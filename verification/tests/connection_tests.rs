use http_server::connection::{Connection, ConnectionAction, ConnectionEvent, ConnectionState};
use http_server::files_util::{handle_file_request, FileAction, FileEvent};
use http_server::http_request::ParseError;
use std::collections::HashMap;

const OK: &[u8] = b"HTTP/1.1 200 OK\r\n\r\n";

fn received(bytes: &[u8]) -> ConnectionEvent {
    ConnectionEvent::Received(bytes.to_vec())
}

/// Plays a whole connection: `chunks` is what the peer sends, piece by piece,
/// before it closes its side; `files` stands for the base directory. Returns
/// what was written to the socket, and how often the socket was read.
fn play(chunks: &[&[u8]], files: &mut HashMap<Vec<u8>, Vec<u8>>) -> (Vec<Vec<u8>>, usize) {
    let mut connection = Connection::new();
    let mut written = Vec::new();
    let mut reads = 0;
    let mut next = 0;
    let mut event = ConnectionEvent::Ready;
    for _ in 0..1000 {
        match connection.step(event) {
            ConnectionAction::Read => {
                reads += 1;
                if next < chunks.len() {
                    event = received(chunks[next]);
                    next += 1;
                } else {
                    event = ConnectionEvent::EndOfStream;
                }
            }
            ConnectionAction::Respond(bytes) => {
                written.push(bytes);
                event = ConnectionEvent::Ready;
            }
            ConnectionAction::File(action) => {
                let outcome = match &action {
                    FileAction::Read { filename } => match files.get(filename) {
                        Some(contents) => FileEvent::Contents(contents.clone()),
                        None => FileEvent::Missing,
                    },
                    FileAction::Write { filename, contents } => {
                        files.insert(filename.clone(), contents.clone());
                        FileEvent::Written
                    }
                };
                written.push(handle_file_request(&action, &outcome));
                event = ConnectionEvent::Ready;
            }
            ConnectionAction::Close | ConnectionAction::Abort(_) => {
                assert_eq!(connection.state, ConnectionState::Closed);
                return (written, reads);
            }
        }
    }
    panic!("the connection did not come to an end");
}

#[test]
fn a_new_connection_reads() {
    let mut connection = Connection::new();
    assert_eq!(connection.state, ConnectionState::Reading);
    assert!(connection.buffer.is_empty());
    assert!(!connection.eof);
    assert_eq!(connection.step(ConnectionEvent::Ready), ConnectionAction::Read);
    assert_eq!(connection.state, ConnectionState::Reading);
}

#[test]
fn a_request_is_served_and_the_connection_reads_on() {
    let mut connection = Connection::new();
    assert_eq!(
        connection.step(received(b"GET / HTTP/1.1\r\n\r\n")),
        ConnectionAction::Respond(OK.to_vec())
    );
    assert_eq!(connection.state, ConnectionState::Reading);
    assert!(connection.buffer.is_empty());
    assert_eq!(connection.step(ConnectionEvent::Ready), ConnectionAction::Read);
}

#[test]
fn a_request_may_arrive_in_pieces() {
    let mut connection = Connection::new();
    assert_eq!(connection.step(received(b"GET / HT")), ConnectionAction::Read);
    assert_eq!(connection.step(received(b"TP/1.1\r\n")), ConnectionAction::Read);
    assert_eq!(connection.step(received(b"Host: a\r\n\r")), ConnectionAction::Read);
    assert_eq!(connection.step(received(b"\n")), ConnectionAction::Respond(OK.to_vec()));
    assert!(connection.buffer.is_empty());
}

#[test]
fn connection_close_ends_the_connection_after_one_response() {
    let mut connection = Connection::new();
    let action = connection.step(received(
        b"GET /echo/abc HTTP/1.1\r\nConnection: close\r\n\r\nGET / HTTP/1.1\r\n\r\n",
    ));
    assert_eq!(
        action,
        ConnectionAction::Respond(
            b"HTTP/1.1 200 OK\r\nContent-Type: text/plain\r\nContent-Length: 3\r\nConnection: close\r\n\r\nabc"
                .to_vec()
        )
    );
    assert_eq!(connection.state, ConnectionState::Closed);
    assert_eq!(connection.step(ConnectionEvent::Ready), ConnectionAction::Close);
    assert_eq!(connection.step(received(b"GET / HTTP/1.1\r\n\r\n")), ConnectionAction::Close);
    assert_eq!(connection.step(ConnectionEvent::EndOfStream), ConnectionAction::Close);
    assert_eq!(connection.state, ConnectionState::Closed);
}

#[test]
fn after_connection_close_the_socket_is_not_read_again() {
    let mut files = HashMap::new();
    let (written, reads) = play(
        &[b"GET / HTTP/1.1\r\nConnection: close\r\n\r\n", b"GET / HTTP/1.1\r\n\r\n"],
        &mut files,
    );
    assert_eq!(written, vec![OK.to_vec()]);
    assert_eq!(reads, 1);
}

#[test]
fn requests_are_served_in_order() {
    let mut files = HashMap::new();
    let (written, _) = play(
        &[b"GET /echo/one HTTP/1.1\r\n\r\nGET /echo/t", b"wo HTTP/1.1\r\n\r\n", b"GET /nope HTTP/1.1\r\n\r\n"],
        &mut files,
    );
    assert_eq!(
        written,
        vec![
            b"HTTP/1.1 200 OK\r\nContent-Type: text/plain\r\nContent-Length: 3\r\n\r\none".to_vec(),
            b"HTTP/1.1 200 OK\r\nContent-Type: text/plain\r\nContent-Length: 3\r\n\r\ntwo".to_vec(),
            b"HTTP/1.1 404 Not Found\r\n\r\n".to_vec(),
        ]
    );
}

#[test]
fn buffered_requests_are_served_one_at_a_time() {
    let mut connection = Connection::new();
    assert_eq!(
        connection.step(received(b"GET / HTTP/1.1\r\n\r\nGET /nope HTTP/1.1\r\n\r\n")),
        ConnectionAction::Respond(OK.to_vec())
    );
    assert_eq!(connection.buffer, b"GET /nope HTTP/1.1\r\n\r\n".to_vec());
    assert_eq!(
        connection.step(ConnectionEvent::Ready),
        ConnectionAction::Respond(b"HTTP/1.1 404 Not Found\r\n\r\n".to_vec())
    );
    assert_eq!(connection.step(ConnectionEvent::Ready), ConnectionAction::Read);
}

#[test]
fn end_of_stream_between_requests_closes_quietly() {
    let mut connection = Connection::new();
    assert_eq!(connection.step(ConnectionEvent::EndOfStream), ConnectionAction::Close);
    assert_eq!(connection.state, ConnectionState::Closed);

    let mut served = Connection::new();
    assert_eq!(served.step(received(b"GET / HTTP/1.1\r\n\r\n")), ConnectionAction::Respond(OK.to_vec()));
    assert_eq!(served.step(ConnectionEvent::Ready), ConnectionAction::Read);
    assert_eq!(served.step(ConnectionEvent::EndOfStream), ConnectionAction::Close);
    assert_eq!(served.state, ConnectionState::Closed);
}

#[test]
fn end_of_stream_inside_a_request_aborts() {
    let mut connection = Connection::new();
    assert_eq!(connection.step(received(b"GET / HTTP/1.1\r\nHost: a\r\n")), ConnectionAction::Read);
    assert_eq!(
        connection.step(ConnectionEvent::EndOfStream),
        ConnectionAction::Abort(ParseError::UnexpectedEof)
    );
    assert_eq!(connection.state, ConnectionState::Closed);
    assert_eq!(connection.step(ConnectionEvent::Ready), ConnectionAction::Close);
}

#[test]
fn what_is_buffered_at_the_end_of_the_stream_is_still_served() {
    let mut connection = Connection::new();
    assert_eq!(connection.step(received(b"GET / HTTP/1.1\r\n\r\nGET / HTTP/1.1\r\n")), ConnectionAction::Respond(OK.to_vec()));
    assert_eq!(connection.step(ConnectionEvent::Ready), ConnectionAction::Read);
    assert_eq!(connection.step(received(b"\r\n")), ConnectionAction::Respond(OK.to_vec()));
    assert_eq!(connection.step(ConnectionEvent::EndOfStream), ConnectionAction::Close);
}

#[test]
fn a_request_that_cannot_be_parsed_gets_no_response() {
    for (raw, error) in [
        (&b"PUT / HTTP/1.1\r\n\r\n"[..], ParseError::UnsupportedMethod),
        (b"GET /\r\n\r\n", ParseError::MalformedRequestLine),
        (b"POST / HTTP/1.1\r\nContent-Length: 1x\r\n\r\n", ParseError::MalformedContentLength),
        (b"POST / HTTP/1.1\r\nContent-Length: 1\r\n\r\n\xff", ParseError::InvalidBodyEncoding),
    ] {
        let mut connection = Connection::new();
        assert_eq!(connection.step(received(raw)), ConnectionAction::Abort(error));
        assert_eq!(connection.state, ConnectionState::Closed);
        assert_eq!(connection.step(ConnectionEvent::Ready), ConnectionAction::Close);
        let mut files = HashMap::new();
        let (written, _) = play(&[raw, b"GET / HTTP/1.1\r\n\r\n"], &mut files);
        assert!(written.is_empty());
    }
}

#[test]
fn a_transport_failure_closes_the_connection() {
    let mut connection = Connection::new();
    assert_eq!(connection.step(received(b"GET / HT")), ConnectionAction::Read);
    assert_eq!(connection.step(ConnectionEvent::TransportFailed), ConnectionAction::Close);
    assert_eq!(connection.state, ConnectionState::Closed);
    assert_eq!(connection.step(received(b"TP/1.1\r\n\r\n")), ConnectionAction::Close);
}

#[test]
fn a_posted_file_can_be_read_back() {
    let mut files = HashMap::new();
    let (written, _) = play(
        &[
            b"POST /files/note.txt HTTP/1.1\r\nContent-Length: 2\r\n\r\nhi",
            b"GET /files/note.txt HTTP/1.1\r\n\r\n",
        ],
        &mut files,
    );
    assert_eq!(
        written,
        vec![
            b"HTTP/1.1 201 Created\r\n\r\n".to_vec(),
            b"HTTP/1.1 200 OK\r\nContent-Type: application/octet-stream\r\nContent-Length: 2\r\n\r\nhi"
                .to_vec(),
        ]
    );
    assert_eq!(files.get(&b"note.txt".to_vec()), Some(&b"hi".to_vec()));
}

#[test]
fn a_missing_file_is_not_found() {
    let mut files = HashMap::new();
    let (written, _) = play(&[b"GET /files/missing.txt HTTP/1.1\r\n\r\n"], &mut files);
    assert_eq!(written, vec![b"HTTP/1.1 404 Not Found\r\n\r\n".to_vec()]);
}

#[test]
fn a_file_request_with_connection_close_closes_after_its_action() {
    let mut connection = Connection::new();
    assert_eq!(
        connection.step(received(b"GET /files/a HTTP/1.1\r\nConnection: close\r\n\r\n")),
        ConnectionAction::File(FileAction::Read { filename: b"a".to_vec() })
    );
    assert_eq!(connection.state, ConnectionState::Closed);
    assert_eq!(connection.step(ConnectionEvent::Ready), ConnectionAction::Close);
}
