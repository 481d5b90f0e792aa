//! Requests under `/files/`: what to do on the file system, and what to answer
//! once it is done.
//!
//! The library does not touch the file system. It names the action, the
//! caller performs it against its base directory and reports what happened,
//! and the library turns that report into the response.

use vstd::prelude::*;
use crate::headers::{header_views, lemma_header_views_push};
use crate::http_request::{HttpRequest, Request, RequestMethod};
use crate::http_response::{construct_http_response, wire, Response, ResponseStatus};
use crate::text::{decimal, starts_with, text, text_bytes, to_decimal, to_vec};

verus! {

/// What a request under `/files/` asks of the file system. `filename` is what
/// follows `/files/` in the request target, as it stands.
#[derive(Debug, PartialEq, Eq)]
pub enum FileAction {
    /// Read the whole file.
    Read { filename: Vec<u8> },
    /// Create or truncate the file and write `contents` to it.
    Write { filename: Vec<u8>, contents: Vec<u8> },
}

/// What a [`FileAction`] holds.
pub ghost enum FileActionView {
    Read { filename: Seq<u8> },
    Write { filename: Seq<u8>, contents: Seq<u8> },
}

impl View for FileAction {
    type V = FileActionView;

    open spec fn view(&self) -> FileActionView {
        match self {
            FileAction::Read { filename } => FileActionView::Read { filename: filename@ },
            FileAction::Write { filename, contents } => FileActionView::Write {
                filename: filename@,
                contents: contents@,
            },
        }
    }
}

/// What came of a [`FileAction`].
#[derive(Debug, PartialEq, Eq)]
pub enum FileEvent {
    /// There is no regular file of that name.
    Missing,
    /// The file was read; these are its contents.
    Contents(Vec<u8>),
    /// The file was written.
    Written,
    /// The file could not be written.
    WriteFailed,
}

/// What a [`FileEvent`] holds.
pub ghost enum FileEventView {
    Missing,
    Contents(Seq<u8>),
    Written,
    WriteFailed,
}

impl View for FileEvent {
    type V = FileEventView;

    open spec fn view(&self) -> FileEventView {
        match self {
            FileEvent::Missing => FileEventView::Missing,
            FileEvent::Contents(c) => FileEventView::Contents(c@),
            FileEvent::Written => FileEventView::Written,
            FileEvent::WriteFailed => FileEventView::WriteFailed,
        }
    }
}

/// Whether a request target lies under `/files/`.
pub open spec fn is_file_path(path: Seq<u8>) -> bool {
    text("/files/").is_prefix_of(path)
}

/// The action that a request under `/files/` asks for: `GET` reads the named
/// file, `POST` writes the body to it. A `POST` without a body writes nothing
/// into the file.
pub open spec fn file_action_of(request: Request) -> FileActionView {
    let filename = request.path.skip(text("/files/").len() as int);
    match request.method {
        RequestMethod::GET => FileActionView::Read { filename },
        RequestMethod::POST => FileActionView::Write {
            filename,
            contents: match request.body {
                Some(b) => b,
                None => Seq::empty(),
            },
        },
    }
}

/// The response with no headers and no body.
pub open spec fn bare_response(status: ResponseStatus) -> Response {
    Response { status, headers: Seq::empty(), body: None }
}

/// The response to a request under `/files/`, given what came of its action.
/// Contents that were read are sent as they are; a write that succeeded is
/// answered with 201; everything else, a failed write too, with 404.
pub open spec fn file_response(action: FileActionView, event: FileEventView) -> Response {
    match (action, event) {
        (FileActionView::Read { .. }, FileEventView::Contents(contents)) => Response {
            status: ResponseStatus::SuccessfulResponse,
            headers: seq![
                (text("Content-Type"), text("application/octet-stream")),
                (text("Content-Length"), decimal(contents.len())),
            ],
            body: Some(contents),
        },
        (FileActionView::Write { .. }, FileEventView::Written) => bare_response(
            ResponseStatus::CreatedResponse,
        ),
        _ => bare_response(ResponseStatus::NotFoundResponse),
    }
}

/// The file system action that `request` asks for, where its target lies
/// under `/files/`.
pub fn file_action(request: &HttpRequest) -> (r: Option<FileAction>)
    ensures
        match r {
            Some(action) => is_file_path(request@.path) && action@ == file_action_of(request@),
            None => !is_file_path(request@.path),
        },
{
    if !starts_with(request.path.as_slice(), "/files/".as_bytes()) {
        return None;
    }
    let filename = to_vec(&request.path.as_slice()["/files/".len()..request.path.len()]);
    Some(
        match request.method {
            RequestMethod::GET => FileAction::Read { filename },
            RequestMethod::POST => {
                let contents = match &request.body {
                    Some(b) => to_vec(b.as_slice()),
                    None => Vec::new(),
                };
                FileAction::Write { filename, contents }
            },
        },
    )
}

/// The bytes of a response without headers or body.
pub fn bare(status: ResponseStatus) -> (out: Vec<u8>)
    ensures
        out@ == wire(bare_response(status)),
{
    let headers: Vec<(Vec<u8>, Vec<u8>)> = Vec::new();
    assert(header_views(headers@) =~= Seq::<(Seq<u8>, Seq<u8>)>::empty());
    construct_http_response(status, headers.as_slice(), None)
}

/// Answers a request under `/files/`, once its action has been performed.
pub fn handle_file_request(action: &FileAction, event: &FileEvent) -> (out: Vec<u8>)
    ensures
        out@ == wire(file_response(action@, event@)),
{
    match (action, event) {
        (FileAction::Read { .. }, FileEvent::Contents(contents)) => {
            let mut headers: Vec<(Vec<u8>, Vec<u8>)> = Vec::new();
            let kind = (text_bytes("Content-Type"), text_bytes("application/octet-stream"));
            let length = (text_bytes("Content-Length"), to_decimal(contents.len()));
            proof {
                lemma_header_views_push(headers@, kind);
                lemma_header_views_push(headers@.push(kind), length);
            }
            headers.push(kind);
            headers.push(length);
            assert(header_views(headers@) =~= seq![
                (text("Content-Type"), text("application/octet-stream")),
                (text("Content-Length"), decimal(contents@.len())),
            ]);
            construct_http_response(
                ResponseStatus::SuccessfulResponse,
                headers.as_slice(),
                Some(contents.as_slice()),
            )
        },
        (FileAction::Write { .. }, FileEvent::Written) => bare(ResponseStatus::CreatedResponse),
        _ => bare(ResponseStatus::NotFoundResponse),
    }
}

} // verus!
