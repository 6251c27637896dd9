//! The per-connection server object: it owns the carry state of the
//! resumable request decoder and the `alive` flag that ends a session after
//! its first `404` response.  The connection loop around it (sockets, TLS,
//! the filesystem) lives outside this crate and only calls in with plain
//! values.

pub mod http;
pub mod post;

use vstd::prelude::*;

use crate::server::http::model::{
    spec_decode, spec_rfind, spec_state_default, SpecRequest, SpecRequestError, SpecRequestState,
};
use crate::server::http::{ContentType, Request, RequestState, Status};

verus! {

/// How long a connection may sit idle before it is torn down, in
/// milliseconds.
pub const IDLE_TIMEOUT_MS: u64 = 5000;

/// The pause between two polls of a quiet connection, in milliseconds.
pub const POLL_INTERVAL_MS: u64 = 100;

/// Model of [`Error`].
pub enum SpecServerError {
    HttpError(SpecRequestError),
    Unimplemented,
    WritingError(Seq<char>),
    DirectoryError,
    InvalidExtension(Option<Seq<char>>),
}

/// Connection-level errors: protocol failures bubbled up from the request
/// decoder, plus the failures the dispatch path can hit.
#[derive(Debug)]
pub enum Error {
    HttpError(http::Error),
    Unimplemented,
    WritingError(String),
    DirectoryError,
    InvalidExtension(Option<String>),
}

impl View for Error {
    type V = SpecServerError;

    open spec fn view(&self) -> SpecServerError {
        match self {
            Error::HttpError(e) => SpecServerError::HttpError(e@),
            Error::Unimplemented => SpecServerError::Unimplemented,
            Error::WritingError(m) => SpecServerError::WritingError(m@),
            Error::DirectoryError => SpecServerError::DirectoryError,
            Error::InvalidExtension(e) => SpecServerError::InvalidExtension(
                match e {
                    Some(x) => Some(x@),
                    None => None,
                },
            ),
        }
    }
}

/// The description of each connection-level error.
pub open spec fn spec_server_error_message(e: SpecServerError) -> Seq<char> {
    match e {
        SpecServerError::HttpError(inner) => http::spec_error_message(inner),
        SpecServerError::Unimplemented => "unimplemented"@,
        SpecServerError::WritingError(m) => "error writing response ("@ + m + ")"@,
        SpecServerError::DirectoryError => "invalid path"@,
        SpecServerError::InvalidExtension(e) => match e {
            Some(x) => "invalid extension ("@ + x + ")"@,
            None => "invalid extension"@,
        },
    }
}

impl Error {
    /// The human-readable description of this error.
    pub fn message(&self) -> (r: String)
        ensures
            r@ == spec_server_error_message(self@),
    {
        match self {
            Error::HttpError(e) => e.message(),
            Error::Unimplemented => String::from_str("unimplemented"),
            Error::WritingError(m) => {
                let mut s = String::from_str("error writing response (");
                s.append(m.as_str());
                s.append(")");
                s
            },
            Error::DirectoryError => String::from_str("invalid path"),
            Error::InvalidExtension(e) => match e {
                Some(x) => {
                    let mut s = String::from_str("invalid extension (");
                    s.append(x.as_str());
                    s.append(")");
                    s
                },
                None => String::from_str("invalid extension"),
            },
        }
    }
}

/// The text after the last `.` of a file name, if any.
pub open spec fn spec_extension(name: Seq<char>) -> Option<Seq<char>> {
    match spec_rfind(name, '.') {
        None => None,
        Some(i) => Some(name.subrange(i + 1, name.len() as int)),
    }
}

/// What looking a file name up in the content-type table yields: the type
/// for a known extension, and an `InvalidExtension` error for a missing or
/// unknown one.
pub open spec fn spec_extension_content_type(name: Seq<char>) -> Result<
    ContentType,
    SpecServerError,
> {
    match spec_extension(name) {
        None => Err(SpecServerError::InvalidExtension(None)),
        Some(ext) => match http::model::content_type_of(ext) {
            Some(ct) => Ok(ct),
            None => Err(SpecServerError::InvalidExtension(Some(ext))),
        },
    }
}

/// Model of [`SmolServer`].
pub struct SpecServer {
    pub alive: bool,
    pub carried: Option<SpecRequest>,
    pub state: SpecRequestState,
}

/// One connection's server: the carried pair of the resumable decoder and
/// the liveness flag.
pub struct SmolServer {
    alive: bool,
    carried: Option<Request>,
    state: RequestState,
}

impl View for SmolServer {
    type V = SpecServer;

    closed spec fn view(&self) -> SpecServer {
        SpecServer {
            alive: self.alive,
            carried: http::carried_view(self.carried),
            state: self.state@,
        }
    }
}

impl SmolServer {
    /// A fresh connection: alive, with nothing carried.
    pub fn new() -> (r: Self)
        ensures
            r@.alive,
            r@.carried is None,
            r@.state == spec_state_default(),
    {
        SmolServer { alive: true, carried: None, state: RequestState::default() }
    }

    /// Is this connection still to be served?
    pub fn alive(&self) -> (r: bool)
        ensures
            r == self@.alive,
    {
        self.alive
    }

    /// The canned `404` response; producing it ends the session.
    pub fn not_found(&mut self) -> (r: Vec<u8>)
        ensures
            r@ == http::model::response_bytes(
                Status::NotFound,
                ContentType::Html,
                http::model::encoded("404 not found"@),
            ),
            !final(self)@.alive,
            final(self)@.carried == old(self)@.carried,
            final(self)@.state == old(self)@.state,
    {
        self.alive = false;
        let body = "404 not found";
        proof {
            reveal_strlit("404 not found");
            assert(body.is_ascii());
        }
        let body_bytes = http::text::ascii_bytes(body);
        http::response(Status::NotFound, ContentType::Html, body_bytes.as_slice())
    }

    /// The fixed table from a file name's extension to its content type.
    pub fn extension_content_type(filename: &str) -> (r: Result<ContentType, Error>)
        ensures
            match spec_extension_content_type(filename@) {
                Ok(ct) => r is Ok && r->Ok_0 == ct,
                Err(e) => r is Err && r->Err_0@ == e,
            },
    {
        let n = filename.unicode_len();
        match http::text::rfind_char(filename, '.') {
            None => Err(Error::InvalidExtension(None)),
            Some(i) => {
                proof {
                    http::model::lemma_spec_rfind(filename@, '.');
                }
                let ext = filename.substring_char(i + 1, n);
                match ContentType::create(ext) {
                    Some(ct) => Ok(ct),
                    None => Err(Error::InvalidExtension(Some(String::from_str(ext)))),
                }
            },
        }
    }

    /// Feed one chunk of decrypted bytes to the resumable decoder.  A
    /// completed request is handed back for dispatch and nothing is carried;
    /// a partial one is carried for the next chunk.
    pub fn feed(&mut self, chunk: &[u8]) -> (r: Result<Option<Request>, http::Error>)
        ensures
            final(self)@.alive == old(self)@.alive,
            match spec_decode(old(self)@.carried, old(self)@.state, chunk@) {
                Ok(d) => {
                    &&& r is Ok
                    &&& final(self)@.state == d.state
                    &&& if d.is_partial {
                        r->Ok_0 is None && final(self)@.carried == Some(d.request)
                    } else {
                        r->Ok_0 is Some && r->Ok_0->Some_0@ == d.request
                            && final(self)@.carried is None
                    }
                },
                Err(e) => r is Err && r->Err_0@ == e && final(self)@.carried is None,
            },
    {
        let carried = self.carried.take();
        proof {
            assert(http::carried_view(carried) == old(self)@.carried);
        }
        match http::PartialRequest::parse(carried, &mut self.state, chunk) {
            Err(e) => Err(e),
            Ok(pr) => {
                if pr.is_partial {
                    self.carried = Some(pr.request);
                    Ok(None)
                } else {
                    Ok(Some(pr.request))
                }
            },
        }
    }

    /// Answer a `GET` once the collaborating file responder has looked the
    /// path up: a found file is served under its extension's content type, a
    /// missing one gets the session-ending `404`.
    pub fn respond_get(&mut self, path: &str, file: Option<Vec<u8>>) -> (r: Result<Vec<u8>, Error>)
        ensures
            final(self)@.carried == old(self)@.carried,
            final(self)@.state == old(self)@.state,
            match file {
                None => r is Ok && r->Ok_0@ == http::model::response_bytes(
                    Status::NotFound,
                    ContentType::Html,
                    http::model::encoded("404 not found"@),
                ) && !final(self)@.alive,
                Some(bytes) => {
                    &&& final(self)@.alive == old(self)@.alive
                    &&& match spec_extension_content_type(path@) {
                        Ok(ct) => r is Ok && r->Ok_0@ == http::model::response_bytes(
                            Status::Okay,
                            ct,
                            bytes@,
                        ),
                        Err(e) => r is Err && r->Err_0@ == e,
                    }
                },
            },
    {
        match file {
            None => Ok(self.not_found()),
            Some(bytes) => {
                let content_type = match Self::extension_content_type(path) {
                    Ok(ct) => ct,
                    Err(e) => {
                        return Err(e);
                    },
                };
                Ok(http::response(Status::Okay, content_type, bytes.as_slice()))
            },
        }
    }
}

/// Has a connection been idle past the threshold that tears it down?
pub fn timed_out(idle_ms: u64) -> (r: bool)
    ensures
        r == (idle_ms > IDLE_TIMEOUT_MS),
{
    idle_ms > IDLE_TIMEOUT_MS
}

} // verus!
