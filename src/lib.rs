//! An incremental, zero-copy HTTP/1.1 response engine.
//!
//! The engine works on caller-supplied byte slices: it parses the status
//! line and headers, fixes how the body is delimited, and decodes the body
//! across any number of calls.
use vstd::prelude::*;
use vstd::string::*;

pub mod body;
pub mod chunk;
pub mod head;
pub mod length;
pub mod res;

pub use body::{BodyPart, Header, RecvBodyMode};
pub use chunk::Dechunker;
pub use length::LengthChecker;
pub use res::{AttemptNext, Response, ResponseAttempt, Status, ENDED, RECV_BODY, RECV_RESPONSE};

verus! {

/// The HTTP protocol version negotiated for an exchange.
#[derive(Clone, Copy, PartialEq, Eq, Structural, Debug)]
pub enum HttpVersion {
    Http10,
    Http11,
}

/// A request method.
#[allow(non_camel_case_types)]
#[derive(Clone, Copy, PartialEq, Eq, Structural, Debug)]
pub enum Method {
    OPTIONS,
    GET,
    POST,
    PUT,
    DELETE,
    HEAD,
    TRACE,
    CONNECT,
    PATCH,
}

impl HttpVersion {
    /// The version of an `HTTP/1.x` token from its minor number `x`.
    pub open spec fn spec_from_minor(v: u8) -> Option<HttpVersion> {
        if v == 0 {
            Some(HttpVersion::Http10)
        } else if v == 1 {
            Some(HttpVersion::Http11)
        } else {
            None
        }
    }

    /// The version of an `HTTP/1.x` token from its minor number `x`;
    /// `None` for any other than 0 and 1.
    pub fn from_minor(v: u8) -> (r: Option<HttpVersion>)
        ensures
            r == HttpVersion::spec_from_minor(v),
    {
        if v == 0 {
            Some(HttpVersion::Http10)
        } else if v == 1 {
            Some(HttpVersion::Http11)
        } else {
            None
        }
    }
}

/// Whether two byte strings are equal.
fn bytes_eq(a: &[u8], b: &[u8]) -> (r: bool)
    ensures
        r == (a@ == b@),
{
    if a.len() != b.len() {
        return false;
    }
    let mut i: usize = 0;
    while i < a.len()
        invariant
            a@.len() == b@.len(),
            i <= a@.len(),
            forall|k: int| 0 <= k < i ==> a@[k] == b@[k],
        decreases a@.len() - i,
    {
        if a[i] != b[i] {
            return false;
        }
        i = i + 1;
    }
    assert(a@ =~= b@);
    true
}

impl Method {
    /// The method's name on the wire, in ASCII.
    pub open spec fn spec_name(self) -> Seq<u8> {
        match self {
            Method::OPTIONS => seq![79u8, 80, 84, 73, 79, 78, 83],
            Method::GET => seq![71u8, 69, 84],
            Method::POST => seq![80u8, 79, 83, 84],
            Method::PUT => seq![80u8, 85, 84],
            Method::DELETE => seq![68u8, 69, 76, 69, 84, 69],
            Method::HEAD => seq![72u8, 69, 65, 68],
            Method::TRACE => seq![84u8, 82, 65, 67, 69],
            Method::CONNECT => seq![67u8, 79, 78, 78, 69, 67, 84],
            Method::PATCH => seq![80u8, 65, 84, 67, 72],
        }
    }

    /// `b` is the name of some method.
    pub open spec fn is_name(b: Seq<u8>) -> bool {
        ||| b == Method::OPTIONS.spec_name()
        ||| b == Method::GET.spec_name()
        ||| b == Method::POST.spec_name()
        ||| b == Method::PUT.spec_name()
        ||| b == Method::DELETE.spec_name()
        ||| b == Method::HEAD.spec_name()
        ||| b == Method::TRACE.spec_name()
        ||| b == Method::CONNECT.spec_name()
        ||| b == Method::PATCH.spec_name()
    }

    /// The method with the name `name`, which is case-sensitive.
    pub fn from_name(name: &str) -> (r: Result<Method, HootError>)
        ensures
            match r {
                Ok(m) => name.spec_bytes() == m.spec_name(),
                Err(e) => e == HootError::UnknownMethod && !Method::is_name(name.spec_bytes()),
            },
    {
        let b = name.as_bytes();
        let options: [u8; 7] = [79, 80, 84, 73, 79, 78, 83];
        let get: [u8; 3] = [71, 69, 84];
        let post: [u8; 4] = [80, 79, 83, 84];
        let put: [u8; 3] = [80, 85, 84];
        let delete: [u8; 6] = [68, 69, 76, 69, 84, 69];
        let head: [u8; 4] = [72, 69, 65, 68];
        let trace: [u8; 5] = [84, 82, 65, 67, 69];
        let connect: [u8; 7] = [67, 79, 78, 78, 69, 67, 84];
        let patch: [u8; 5] = [80, 65, 84, 67, 72];
        proof {
            assert(options@ =~= Method::OPTIONS.spec_name());
            assert(get@ =~= Method::GET.spec_name());
            assert(post@ =~= Method::POST.spec_name());
            assert(put@ =~= Method::PUT.spec_name());
            assert(delete@ =~= Method::DELETE.spec_name());
            assert(head@ =~= Method::HEAD.spec_name());
            assert(trace@ =~= Method::TRACE.spec_name());
            assert(connect@ =~= Method::CONNECT.spec_name());
            assert(patch@ =~= Method::PATCH.spec_name());
        }
        if bytes_eq(b, options.as_slice()) {
            Ok(Method::OPTIONS)
        } else if bytes_eq(b, get.as_slice()) {
            Ok(Method::GET)
        } else if bytes_eq(b, post.as_slice()) {
            Ok(Method::POST)
        } else if bytes_eq(b, put.as_slice()) {
            Ok(Method::PUT)
        } else if bytes_eq(b, delete.as_slice()) {
            Ok(Method::DELETE)
        } else if bytes_eq(b, head.as_slice()) {
            Ok(Method::HEAD)
        } else if bytes_eq(b, trace.as_slice()) {
            Ok(Method::TRACE)
        } else if bytes_eq(b, connect.as_slice()) {
            Ok(Method::CONNECT)
        } else if bytes_eq(b, patch.as_slice()) {
            Ok(Method::PATCH)
        } else {
            Err(HootError::UnknownMethod)
        }
    }

    pub open spec fn spec_has_request_body(self) -> bool {
        self is POST || self is PUT || self is PATCH
    }

    /// Whether a request with this method carries a body.
    pub fn has_request_body(&self) -> (r: bool)
        ensures
            r == self.spec_has_request_body(),
    {
        match self {
            Method::POST | Method::PUT | Method::PATCH => true,
            _ => false,
        }
    }
}

/// Everything that can go wrong while receiving a response.
#[derive(Clone, Copy, PartialEq, Eq, Structural, Debug)]
pub enum HootError {
    /// The status line or a header is malformed.
    Parse,
    /// The status line names an HTTP version other than 1.0 or 1.1.
    Version,
    /// More headers arrived than the scratch buffer has room for.
    TooManyHeaders,
    /// A header value is not what its name requires (Content-Length not a number).
    InvalidHeaderValue,
    /// More than one Content-Length header.
    DuplicateContentLength,
    /// More body bytes than Content-Length declared.
    RecvMoreThanContentLength,
    /// Fewer body bytes than Content-Length declared when the body was finished.
    RecvLessThanContentLength,
    /// The body was finished before its end was reached.
    BodyNotFinished,
    /// A chunk-size line or a chunk delimiter is malformed.
    InvalidChunk,
    /// An unknown request method.
    UnknownMethod,
}

} // verus!
