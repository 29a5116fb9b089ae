//! The status line and header block, as the tokenizer hands them over.
use httparse::{Error as E, Status as S};
use vstd::prelude::*;

use crate::body::{headers_view, Header};
use crate::HootError;

verus! {

/// A parsed status line and header block as plain values.
pub struct HeadView {
    pub consumed: nat,
    pub version: u8,
    pub code: u16,
    pub reason: Seq<char>,
    pub headers: Seq<(Seq<u8>, Seq<u8>)>,
}

/// What the tokenizer makes of a buffer.
pub enum HeadParse {
    /// The buffer does not yet hold a whole status line and header block.
    Partial,
    /// A whole status line and header block.
    Complete(HeadView),
    /// The buffer breaks the syntax, or holds more headers than there is room for.
    Invalid(HootError),
}

/// What httparse's response parser makes of `input` with room for
/// `capacity` headers.
pub uninterp spec fn response_head_of(input: Seq<u8>, capacity: nat) -> HeadParse;

/// A status line and header block, borrowed from the input.
pub struct RawHead<'a> {
    pub consumed: usize,
    pub version: u8,
    pub code: u16,
    pub reason: &'a str,
    pub headers: Vec<Header<'a>>,
}

impl<'a> View for RawHead<'a> {
    type V = HeadView;

    open spec fn view(&self) -> HeadView {
        HeadView {
            consumed: self.consumed as nat,
            version: self.version,
            code: self.code,
            reason: self.reason@,
            headers: headers_view(self.headers@),
        }
    }
}

/// Relies on httparse::Response::parse, with room for `capacity` headers:
/// `Partial` where the status line and headers are not yet complete, else
/// the bytes used (no more than the input) and the fields that were read,
/// or the kind of syntax error.
#[verifier::external_body]
pub(crate) fn parse_head<'a>(input: &'a [u8], capacity: usize) -> (r: Result<
    Option<RawHead<'a>>,
    HootError,
>)
    ensures
        match r {
            Ok(None) => response_head_of(input@, capacity as nat) is Partial,
            Ok(Some(h)) => {
                &&& response_head_of(input@, capacity as nat) == HeadParse::Complete(h@)
                &&& h.consumed <= input@.len()
            },
            Err(e) => response_head_of(input@, capacity as nat) == HeadParse::Invalid(e),
        },
{
    let mut slots = vec![httparse::EMPTY_HEADER; capacity];
    let mut resp = httparse::Response::new(&mut slots);
    match resp.parse(input) {
        Ok(S::Complete(consumed)) => Ok(Some(RawHead {
            consumed,
            version: resp.version.unwrap_or(0),
            code: resp.code.unwrap_or(0),
            reason: resp.reason.unwrap_or(""),
            headers: resp.headers.iter().map(|h| Header { name: h.name, value: h.value }).collect(),
        })),
        Ok(S::Partial) => Ok(None),
        Err(E::TooManyHeaders) => Err(HootError::TooManyHeaders),
        Err(E::Version) => Err(HootError::Version),
        Err(E::HeaderName | E::HeaderValue | E::NewLine | E::Status | E::Token) => Err(HootError::Parse),
    }
}

} // verus!
