//! The response engine: a typestate wrapper around the state of one exchange.
//!
//! `Response<RECV_RESPONSE>` reads the status line and headers,
//! `Response<RECV_BODY>` reads the body, and `Response<ENDED>` is the end.
//! Each transition moves the exchange's state into a value of the next phase.
use core::marker::PhantomData;
use vstd::prelude::*;

use crate::body::{body_mode, BodyPart, Header, RecvBodyMode};
use crate::chunk::{decode_run, start_state, ChunkState, Dechunker};
use crate::head::{parse_head, response_head_of, HeadParse};
use crate::length::LengthChecker;
use crate::{HootError, HttpVersion, Method};

verus! {

/// Phase: awaiting the status line and headers.
#[allow(non_camel_case_types)]
pub struct RECV_RESPONSE;

/// Phase: receiving the body.
#[allow(non_camel_case_types)]
pub struct RECV_BODY;

/// Phase: the exchange has ended.
#[allow(non_camel_case_types)]
pub struct ENDED;

/// Bytes of scratch buffer that make room for one header.
pub const HEADER_SLOT_BYTES: usize = 32;

/// Headers that a scratch buffer of `len` bytes has room for.
pub open spec fn header_capacity(len: nat) -> nat {
    len / (HEADER_SLOT_BYTES as nat)
}

/// The facts of one exchange.
pub struct CallState {
    version: Option<HttpVersion>,
    method: Option<Method>,
    recv_body_mode: Option<RecvBodyMode>,
    recv_checker: Option<LengthChecker>,
    dechunker: Option<Dechunker>,
    did_read_to_end: bool,
}

/// The facts of one exchange as plain values.
pub struct CallView {
    pub version: Option<HttpVersion>,
    pub method: Option<Method>,
    /// How the body is delimited, once the headers are read.
    pub mode: Option<RecvBodyMode>,
    /// Body bytes counted against a nonzero Content-Length.
    pub body_read: nat,
    /// Where the chunk decoder stands, once chunked reading began.
    pub chunk: Option<ChunkState>,
    pub read_to_end: bool,
}

/// What an attempt to read the status line and headers gave.
pub struct AttemptView {
    pub success: bool,
    pub input_used: nat,
    pub status: Option<(HttpVersion, u16, Seq<char>)>,
    pub headers: Option<Seq<(Seq<u8>, Seq<u8>)>>,
}

pub open spec fn empty_attempt() -> AttemptView {
    AttemptView { success: false, input_used: 0, status: None, headers: None }
}

/// Reading the status line and headers from `input` with room for
/// `capacity` headers: the new state and the attempt, or the error.
/// Once the body mode is known, or while the input is incomplete, nothing changes.
pub open spec fn head_step(st: CallView, input: Seq<u8>, capacity: nat) -> Result<
    (CallView, AttemptView),
    HootError,
> {
    if st.mode is Some {
        Ok((st, empty_attempt()))
    } else {
        match response_head_of(input, capacity) {
            HeadParse::Partial => Ok((st, empty_attempt())),
            HeadParse::Invalid(e) => Err(e),
            HeadParse::Complete(h) => match HttpVersion::spec_from_minor(h.version) {
                None => Err(HootError::Version),
                Some(ver) => match body_mode(
                    ver == HttpVersion::Http10,
                    st.method == Some(Method::HEAD),
                    h.code,
                    h.headers,
                ) {
                    Err(e) => Err(e),
                    Ok(mode) => Ok(
                        (
                            CallView {
                                version: st.version,
                                method: st.method,
                                mode: Some(mode),
                                body_read: st.body_read,
                                chunk: st.chunk,
                                read_to_end: st.read_to_end,
                            },
                            AttemptView {
                                success: true,
                                input_used: h.consumed,
                                status: Some((ver, h.code, h.reason)),
                                headers: Some(h.headers),
                            },
                        ),
                    ),
                },
            },
        }
    }
}

/// The status line of a response, borrowed from the input.
#[derive(Clone, Copy, PartialEq, Eq, Debug)]
pub struct Status<'a>(pub HttpVersion, pub u16, pub &'a str);

impl<'a> View for Status<'a> {
    type V = (HttpVersion, u16, Seq<char>);

    open spec fn view(&self) -> (HttpVersion, u16, Seq<char>) {
        (self.0, self.1, self.2@)
    }
}

impl<'a> Status<'a> {
    pub fn version(&self) -> (r: HttpVersion)
        ensures
            r == self.0,
    {
        self.0
    }

    pub fn code(&self) -> (r: u16)
        ensures
            r == self.1,
    {
        self.1
    }

    pub fn text(&self) -> (r: &'a str)
        ensures
            r@ == self.2@,
    {
        self.2
    }
}

/// The outcome of one attempt to read the status line and headers.
pub struct ResponseAttempt<'a> {
    success: bool,
    input_used: usize,
    status: Option<Status<'a>>,
    headers: Option<Vec<Header<'a>>>,
}

impl<'a> View for ResponseAttempt<'a> {
    type V = AttemptView;

    closed spec fn view(&self) -> AttemptView {
        AttemptView {
            success: self.success,
            input_used: self.input_used as nat,
            status: match self.status {
                Some(s) => Some(s@),
                None => None,
            },
            headers: match self.headers {
                Some(h) => Some(crate::body::headers_view(h@)),
                None => None,
            },
        }
    }
}

impl<'a> ResponseAttempt<'a> {
    fn empty() -> (r: Self)
        ensures
            r@ == empty_attempt(),
    {
        ResponseAttempt { success: false, input_used: 0, status: None, headers: None }
    }

    /// Whether a whole status line and header block was read.
    pub fn is_success(&self) -> (r: bool)
        ensures
            r == self@.success,
    {
        self.success
    }

    /// Input bytes that the status line and headers took.
    pub fn input_used(&self) -> (r: usize)
        ensures
            r == self@.input_used,
    {
        self.input_used
    }

    pub fn status(&self) -> (r: Option<&Status<'a>>)
        ensures
            match r {
                Some(s) => self@.status == Some(s@),
                None => self@.status is None,
            },
    {
        match &self.status {
            Some(s) => Some(s),
            None => None,
        }
    }

    pub fn headers(&self) -> (r: Option<&Vec<Header<'a>>>)
        ensures
            match r {
                Some(h) => self@.headers == Some(crate::body::headers_view(h@)),
                None => self@.headers is None,
            },
    {
        match &self.headers {
            Some(h) => Some(h),
            None => None,
        }
    }
}

/// One exchange's response, in phase `S`.
pub struct Response<S> {
    _typ: PhantomData<S>,
    state: CallState,
}

impl<S> View for Response<S> {
    type V = CallView;

    closed spec fn view(&self) -> CallView {
        CallView {
            version: self.state.version,
            method: self.state.method,
            mode: self.state.recv_body_mode,
            body_read: match self.state.recv_checker {
                Some(c) => c.consumed(),
                None => 0,
            },
            chunk: match self.state.dechunker {
                Some(d) => Some(d@),
                None => None,
            },
            read_to_end: self.state.did_read_to_end,
        }
    }
}

/// The rules that every state of an exchange keeps.
pub open spec fn call_wf(v: CallView) -> bool {
    &&& v.method is Some
    &&& v.read_to_end ==> v.mode is Some
    &&& v.chunk is Some ==> v.mode == Some(RecvBodyMode::Chunked)
    &&& match v.mode {
        Some(RecvBodyMode::LengthDelimited(n)) => {
            &&& v.body_read <= n
            &&& n > 0 ==> v.read_to_end == (v.body_read == n)
        },
        Some(RecvBodyMode::Chunked) => {
            &&& v.body_read == 0
            &&& v.read_to_end == (v.chunk == Some(ChunkState::Ended))
        },
        Some(RecvBodyMode::CloseDelimited) => v.body_read == 0 && !v.read_to_end,
        None => v.body_read == 0,
    }
}

impl<S> Response<S> {
    /// The exchange's state is well formed.
    pub closed spec fn wf(&self) -> bool {
        &&& call_wf(self@)
        &&& match self.state.recv_body_mode {
            Some(RecvBodyMode::LengthDelimited(n)) => if n > 0 {
                &&& self.state.recv_checker is Some
                &&& self.state.recv_checker.unwrap().wf()
                &&& self.state.recv_checker.unwrap().expected() == n
            } else {
                self.state.recv_checker is None
            },
            _ => self.state.recv_checker is None,
        }
    }

    /// A well-formed response keeps the rules of `call_wf` on its state.
    pub proof fn lemma_wf_keeps_rules(&self)
        requires
            self.wf(),
        ensures
            call_wf(self@),
    {
    }

    fn transition<S2>(self) -> (r: Response<S2>)
        ensures
            r@ == self@,
            r.wf() == self.wf(),
    {
        Response { _typ: PhantomData, state: self.state }
    }
}


/// The state in which an exchange starts receiving its response.
pub open spec fn fresh_call(version: HttpVersion, method: Method) -> CallView {
    CallView {
        version: Some(version),
        method: Some(method),
        mode: None,
        body_read: 0,
        chunk: None,
        read_to_end: false,
    }
}

impl Response<()> {
    /// Starts receiving the response to a request sent with `version` and `method`.
    pub fn resume(version: HttpVersion, method: Method) -> (r: Response<RECV_RESPONSE>)
        ensures
            r.wf(),
            r@ == fresh_call(version, method),
    {
        Response {
            _typ: PhantomData,
            state: CallState {
                version: Some(version),
                method: Some(method),
                recv_body_mode: None,
                recv_checker: None,
                dechunker: None,
                did_read_to_end: false,
            },
        }
    }

    /// A response to an HTTP/1.1 GET request.
    pub fn new_test() -> (r: Response<RECV_RESPONSE>)
        ensures
            r.wf(),
            r@ == fresh_call(HttpVersion::Http11, Method::GET),
    {
        Response::resume(HttpVersion::Http11, Method::GET)
    }
}

impl<S> Response<S> {
    /// Reads the status line and headers once, and fixes the body mode.
    fn do_try_read_response<'a>(&mut self, input: &'a [u8], capacity: usize) -> (r: Result<
        ResponseAttempt<'a>,
        HootError,
    >)
        requires
            old(self).wf(),
        ensures
            final(self).wf(),
            match r {
                Ok(a) => {
                    &&& head_step(old(self)@, input@, capacity as nat) == Ok::<
                        (CallView, AttemptView),
                        HootError,
                    >((final(self)@, a@))
                    &&& a@.input_used <= input@.len()
                },
                Err(e) => {
                    &&& head_step(old(self)@, input@, capacity as nat) == Err::<
                        (CallView, AttemptView),
                        HootError,
                    >(e)
                    &&& final(self)@ == old(self)@
                },
            },
    {
        if self.state.recv_body_mode.is_some() {
            return Ok(ResponseAttempt::empty());
        }
        let head = match parse_head(input, capacity) {
            Ok(Some(h)) => h,
            Ok(None) => {
                return Ok(ResponseAttempt::empty());
            },
            Err(e) => {
                return Err(e);
            },
        };
        let ver = match HttpVersion::from_minor(head.version) {
            Some(v) => v,
            None => {
                return Err(HootError::Version);
            },
        };
        let is_head = match self.state.method {
            Some(Method::HEAD) => true,
            _ => false,
        };
        let http10 = match ver {
            HttpVersion::Http10 => true,
            HttpVersion::Http11 => false,
        };
        let mode = match RecvBodyMode::from(http10, is_head, head.code, head.headers.as_slice()) {
            Ok(m) => m,
            Err(e) => {
                return Err(e);
            },
        };
        if let RecvBodyMode::LengthDelimited(len) = mode {
            if len > 0 {
                self.state.recv_checker = Some(LengthChecker::new(len));
            }
        }
        self.state.recv_body_mode = Some(mode);
        let status = Status(ver, head.code, head.reason);
        Ok(ResponseAttempt {
            success: true,
            input_used: head.consumed,
            status: Some(status),
            headers: Some(head.headers),
        })
    }
}

/// Where an exchange goes after reading the status line and headers.
pub enum AttemptNext {
    /// The status line and headers are not complete yet.
    Retry(Response<RECV_RESPONSE>),
    /// A body follows.
    Body(Response<RECV_BODY>),
    /// No body follows.
    NoBody(Response<ENDED>),
}

impl AttemptNext {
    pub fn unwrap_retry(self) -> (r: Response<RECV_RESPONSE>)
        requires
            self is Retry,
        ensures
            r == self->Retry_0,
    {
        match self {
            AttemptNext::Retry(r) => r,
            _ => unreached(),
        }
    }

    pub fn unwrap_body(self) -> (r: Response<RECV_BODY>)
        requires
            self is Body,
        ensures
            r == self->Body_0,
    {
        match self {
            AttemptNext::Body(r) => r,
            _ => unreached(),
        }
    }

    pub fn unwrap_no_body(self) -> (r: Response<ENDED>)
        requires
            self is NoBody,
        ensures
            r == self->NoBody_0,
    {
        match self {
            AttemptNext::NoBody(r) => r,
            _ => unreached(),
        }
    }
}

impl Response<RECV_RESPONSE> {
    /// Tries to read the status line and headers from `input`, using `buf`
    /// as scratch space: it has room for one header per `HEADER_SLOT_BYTES`
    /// bytes. The status and the headers that come back borrow their bytes
    /// from `input`. On success the body mode is fixed; a later call reads
    /// nothing.
    pub fn try_read_response<'a>(&mut self, input: &'a [u8], buf: &mut [u8]) -> (r: Result<
        ResponseAttempt<'a>,
        HootError,
    >)
        requires
            old(self).wf(),
        ensures
            final(self).wf(),
            match r {
                Ok(a) => head_step(
                    old(self)@,
                    input@,
                    header_capacity(old(buf)@.len()),
                ) == Ok::<(CallView, AttemptView), HootError>((final(self)@, a@)),
                Err(e) => {
                    &&& head_step(
                        old(self)@,
                        input@,
                        header_capacity(old(buf)@.len()),
                    ) == Err::<(CallView, AttemptView), HootError>(e)
                    &&& final(self)@ == old(self)@
                },
            },
    {
        let capacity = buf.len() / HEADER_SLOT_BYTES;
        self.do_try_read_response(input, capacity)
    }

    /// Moves on to receiving the body.
    pub fn proceed(self) -> (r: Response<RECV_BODY>)
        requires
            self.wf(),
        ensures
            r.wf(),
            r@ == self@,
    {
        self.transition()
    }

    /// Moves on according to what has been read: `Retry` while the headers
    /// are incomplete, `NoBody` where the body is known to be empty, else `Body`.
    pub fn next(self) -> (r: AttemptNext)
        requires
            self.wf(),
        ensures
            match r {
                AttemptNext::Retry(n) => self@.mode is None && n@ == self@ && n.wf(),
                AttemptNext::NoBody(n) => self@.mode == Some(RecvBodyMode::LengthDelimited(0))
                    && n@ == self@ && n.wf(),
                AttemptNext::Body(n) => self@.mode is Some && self@.mode != Some(
                    RecvBodyMode::LengthDelimited(0),
                ) && n@ == self@ && n.wf(),
            },
    {
        match self.state.recv_body_mode {
            None => AttemptNext::Retry(self.transition()),
            Some(RecvBodyMode::LengthDelimited(0)) => AttemptNext::NoBody(self.transition()),
            Some(_) => AttemptNext::Body(self.transition()),
        }
    }
}


/// Bytes that a length- or close-delimited read copies: as many as both
/// the input and the destination hold.
pub open spec fn copy_len(avail: int, room: int) -> int {
    if avail < room {
        avail
    } else {
        room
    }
}

/// What reading the body from `src[start..]` into a destination of `room`
/// bytes may give, once the body mode is known: the result `r`, the state
/// `fin` after it and the destination `out` after it.
pub open spec fn body_outcome(
    st: CallView,
    src: Seq<u8>,
    start: int,
    room: int,
    r: Result<BodyPart, HootError>,
    fin: CallView,
    out: Seq<u8>,
    old_out: Seq<u8>,
) -> bool {
    if st.read_to_end {
        &&& r == Ok::<BodyPart, HootError>(
            BodyPart { input_used: start as usize, output_used: 0, finished: true },
        )
        &&& fin == st
        &&& out == old_out
    } else {
        match st.mode {
            Some(RecvBodyMode::LengthDelimited(n)) => if n == 0 {
                &&& r == Ok::<BodyPart, HootError>(
                    BodyPart { input_used: start as usize, output_used: 0, finished: true },
                )
                &&& fin == CallView { read_to_end: true, ..st }
                &&& out == old_out
            } else {
                let m = copy_len(src.len() - start, room);
                if st.body_read + m > n {
                    &&& r == Err::<BodyPart, HootError>(HootError::RecvMoreThanContentLength)
                    &&& fin == st
                    &&& out == old_out
                } else {
                    &&& r == Ok::<BodyPart, HootError>(
                        BodyPart {
                            input_used: (start + m) as usize,
                            output_used: m as usize,
                            finished: st.body_read + m == n,
                        },
                    )
                    &&& fin == CallView {
                        body_read: (st.body_read + m) as nat,
                        read_to_end: st.body_read + m == n,
                        ..st
                    }
                    &&& out.subrange(0, m) == src.subrange(start, start + m)
                    &&& out.subrange(m, out.len() as int) == old_out.subrange(
                        m,
                        old_out.len() as int,
                    )
                &&& out.subrange(m, out.len() as int) == old_out.subrange(m, old_out.len() as int)
                }
            },
            Some(RecvBodyMode::CloseDelimited) => {
                let m = copy_len(src.len() - start, room);
                &&& r == Ok::<BodyPart, HootError>(
                    BodyPart { input_used: (start + m) as usize, output_used: m as usize, finished: false },
                )
                &&& fin == st
                &&& out.subrange(0, m) == src.subrange(start, start + m)
                &&& out.subrange(m, out.len() as int) == old_out.subrange(m, old_out.len() as int)
            },
            Some(RecvBodyMode::Chunked) => {
                let c0 = match st.chunk {
                    Some(c) => c,
                    None => start_state(),
                };
                match r {
                    Ok(p) => {
                        &&& start <= p.input_used <= src.len()
                        &&& p.output_used <= room
                        &&& fin.chunk is Some
                        &&& decode_run(c0, src.subrange(start, p.input_used as int)) == Some(
                            (fin.chunk.unwrap(), out.subrange(0, p.output_used as int)),
                        )
                        &&& out.subrange(p.output_used as int, out.len() as int)
                            == old_out.subrange(p.output_used as int, old_out.len() as int)
                        &&& p.finished == (fin.chunk == Some(ChunkState::Ended))
                        &&& fin == CallView { chunk: fin.chunk, read_to_end: p.finished, ..st }
                        &&& (p.input_used == src.len() || p.finished || (fin.chunk.unwrap() is Data
                            && p.output_used == room))
                    },
                    Err(e) => {
                        &&& e == HootError::InvalidChunk
                        &&& fin == CallView { chunk: fin.chunk, ..st }
                        &&& exists|k: int|
                            start <= k < src.len() && decode_run(
                                c0,
                                #[trigger] src.subrange(start, k + 1),
                            ) is None
                    },
                }
            },
            None => false,
        }
    }
}

/// Copies `src[start..]` into the front of `dst`, as much as fits.
fn copy_body(src: &[u8], start: usize, dst: &mut [u8]) -> (m: usize)
    requires
        start <= src@.len(),
    ensures
        m == copy_len(src@.len() - start, old(dst)@.len() as int),
        final(dst)@.len() == old(dst)@.len(),
        final(dst)@.subrange(0, m as int) == src@.subrange(start as int, start + m),
        final(dst)@.subrange(m as int, final(dst)@.len() as int) == old(dst)@.subrange(
            m as int,
            old(dst)@.len() as int,
        ),
{
    let avail = src.len() - start;
    let m = if avail < dst.len() {
        avail
    } else {
        dst.len()
    };
    let n = src.len();
    let mut i: usize = 0;
    while i < m
        invariant
            n == src@.len(),
            i <= m,
            m <= dst@.len(),
            start + m <= src@.len(),
            dst@.len() == old(dst)@.len(),
            forall|k: int| 0 <= k < i ==> dst@[k] == src@[start + k],
            forall|k: int| i <= k < dst@.len() ==> dst@[k] == old(dst)@[k],
        decreases m - i,
    {
        dst[i] = src[start + i];
        i = i + 1;
    }
    assert(dst@.subrange(0, m as int) =~= src@.subrange(start as int, start + m));
    assert(dst@.subrange(m as int, dst@.len() as int) =~= old(dst)@.subrange(
        m as int,
        old(dst)@.len() as int,
    ));
    m
}

impl Response<RECV_BODY> {
    /// Reads body bytes from `src` into `dst` as the body mode says. Where
    /// the status line and headers were not read yet, they are read first
    /// (with `dst` as scratch space) and the body follows them in `src`.
    pub fn read_body(&mut self, src: &[u8], dst: &mut [u8]) -> (r: Result<BodyPart, HootError>)
        requires
            old(self).wf(),
        ensures
            final(self).wf(),
            final(dst)@.len() == old(dst)@.len(),
            match head_step(old(self)@, src@, header_capacity(old(dst)@.len())) {
                Err(e) => r == Err::<BodyPart, HootError>(e) && final(self)@ == old(self)@
                    && final(dst)@ == old(dst)@,
                Ok((st, a)) => if st.mode is None {
                    r == Ok::<BodyPart, HootError>(
                        BodyPart { input_used: 0, output_used: 0, finished: false },
                    ) && final(self)@ == old(self)@ && final(dst)@ == old(dst)@
                } else {
                    body_outcome(
                        st,
                        src@,
                        a.input_used as int,
                        old(dst)@.len() as int,
                        r,
                        final(self)@,
                        final(dst)@,
                        old(dst)@,
                    )
                },
            },
    {
        let mut start: usize = 0;
        if self.state.recv_body_mode.is_none() {
            let capacity = dst.len() / HEADER_SLOT_BYTES;
            let a = match self.do_try_read_response(src, capacity) {
                Ok(a) => a,
                Err(e) => {
                    return Err(e);
                },
            };
            if !a.success {
                return Ok(BodyPart::empty());
            }
            start = a.input_used;
        }
        if self.state.did_read_to_end {
            return Ok(BodyPart { input_used: start, output_used: 0, finished: true });
        }
        match self.state.recv_body_mode {
            Some(RecvBodyMode::LengthDelimited(n)) => {
                if n == 0 {
                    self.state.did_read_to_end = true;
                    return Ok(BodyPart { input_used: start, output_used: 0, finished: true });
                }
                self.read_limit(src, start, dst, n)
            },
            Some(RecvBodyMode::Chunked) => self.read_chunked(src, start, dst),
            _ => {
                let total = src.len();
                let m = copy_body(src, start, dst);
                assert(start + m <= total);
                Ok(BodyPart { input_used: start + m, output_used: m, finished: false })
            },
        }
    }

    /// Reads a body delimited by a nonzero length `n`.
    fn read_limit(&mut self, src: &[u8], start: usize, dst: &mut [u8], n: u64) -> (r: Result<
        BodyPart,
        HootError,
    >)
        requires
            old(self).wf(),
            old(self)@.mode == Some(RecvBodyMode::LengthDelimited(n)),
            n > 0,
            !old(self)@.read_to_end,
            start <= src@.len(),
        ensures
            final(self).wf(),
            final(dst)@.len() == old(dst)@.len(),
            body_outcome(
                old(self)@,
                src@,
                start as int,
                old(dst)@.len() as int,
                r,
                final(self)@,
                final(dst)@,
                old(dst)@,
            ),
    {
        let avail = src.len() - start;
        let m = if avail < dst.len() {
            avail
        } else {
            dst.len()
        };
        let mut checker = self.state.recv_checker.unwrap();
        match checker.append(m, HootError::RecvMoreThanContentLength) {
            Ok(()) => {},
            Err(e) => {
                return Err(e);
            },
        }
        let finished = checker.complete();
        self.state.recv_checker = Some(checker);
        let copied = copy_body(src, start, dst);
        self.state.did_read_to_end = finished;
        Ok(BodyPart { input_used: start + copied, output_used: copied, finished })
    }

    /// Reads a chunked body, starting the decoder on first use.
    fn read_chunked(&mut self, src: &[u8], start: usize, dst: &mut [u8]) -> (r: Result<
        BodyPart,
        HootError,
    >)
        requires
            old(self).wf(),
            old(self)@.mode == Some(RecvBodyMode::Chunked),
            !old(self)@.read_to_end,
            start <= src@.len(),
        ensures
            final(self).wf(),
            final(dst)@.len() == old(dst)@.len(),
            body_outcome(
                old(self)@,
                src@,
                start as int,
                old(dst)@.len() as int,
                r,
                final(self)@,
                final(dst)@,
                old(dst)@,
            ),
    {
        let mut d = match self.state.dechunker {
            Some(d) => d,
            None => Dechunker::new(),
        };
        let total = src.len();
        let res = d.decode_at(src, start, dst);
        self.state.dechunker = Some(d);
        match res {
            Ok((used, produced)) => {
                assert(start + used <= total);
                let finished = d.is_ended();
                self.state.did_read_to_end = finished;
                Ok(BodyPart { input_used: start + used, output_used: produced, finished })
            },
            Err(e) => Err(e),
        }
    }

    /// Whether the body has been read to its end; never for a close-delimited body.
    pub fn is_finished(&self) -> (r: bool)
        requires
            self.wf(),
        ensures
            r == (self@.mode != Some(RecvBodyMode::CloseDelimited) && self@.read_to_end),
            self@.mode is None ==> !r,
    {
        let close_delimited = match self.state.recv_body_mode {
            Some(RecvBodyMode::CloseDelimited) => true,
            _ => false,
        };
        !close_delimited && self.state.did_read_to_end
    }

    /// Ends the body: fails where fewer bytes than a nonzero Content-Length
    /// were read, and where the body was not read to its end.
    pub fn finish(self) -> (r: Result<Response<ENDED>, HootError>)
        requires
            self.wf(),
        ensures
            match finish_outcome(self@) {
                Ok(()) => r is Ok,
                Err(e) => r == Err::<Response<ENDED>, HootError>(e),
            },
            r matches Ok(e) ==> e@ == self@ && e.wf(),
    {
        if let Some(checker) = &self.state.recv_checker {
            match checker.assert_expected(HootError::RecvLessThanContentLength) {
                Ok(()) => {},
                Err(e) => {
                    return Err(e);
                },
            }
        }
        if !self.is_finished() {
            return Err(HootError::BodyNotFinished);
        }
        Ok(self.transition())
    }
}

/// What `finish` gives: the under-read error, the unfinished-body error, or success.
pub open spec fn finish_outcome(st: CallView) -> Result<(), HootError> {
    match st.mode {
        Some(RecvBodyMode::LengthDelimited(n)) if n > 0 && st.body_read < n => Err(
            HootError::RecvLessThanContentLength,
        ),
        _ => if st.mode != Some(RecvBodyMode::CloseDelimited) && st.read_to_end {
            Ok(())
        } else {
            Err(HootError::BodyNotFinished)
        },
    }
}


/// Reading the status line and headers does not depend on how the input
/// arrived: an attempt on a first part of it that comes back incomplete
/// uses nothing and changes nothing, so an attempt on the whole input then
/// gives what a single attempt on it gives.
pub proof fn lemma_head_fragmentation(
    st: CallView,
    whole: Seq<u8>,
    cut: int,
    capacity: nat,
)
    requires
        0 <= cut <= whole.len(),
        head_step(st, whole.subrange(0, cut), capacity) matches Ok((_, a)) && !a.success,
    ensures
        head_step(st, whole.subrange(0, cut), capacity) matches Ok((st1, a)) && a.input_used == 0
            && head_step(st1, whole, capacity) == head_step(st, whole, capacity),
{
}

/// A body of nonzero declared length can be finished exactly when all of it
/// was read: before that, finishing fails with the under-read error.
pub proof fn lemma_finish_length_delimited(st: CallView, n: u64)
    requires
        call_wf(st),
        st.mode == Some(RecvBodyMode::LengthDelimited(n)),
        n > 0,
    ensures
        st.body_read < n ==> finish_outcome(st) == Err::<(), HootError>(
            HootError::RecvLessThanContentLength,
        ),
        st.body_read == n ==> finish_outcome(st) == Ok::<(), HootError>(()),
{
}

/// Reading more bytes than a nonzero declared length leaves room for fails
/// with the overrun error and counts nothing; reading exactly the rest
/// finishes the body.
pub proof fn lemma_length_overrun(
    st: CallView,
    n: u64,
    src: Seq<u8>,
    start: int,
    room: int,
    r: Result<BodyPart, HootError>,
    fin: CallView,
    out: Seq<u8>,
    old_out: Seq<u8>,
)
    requires
        call_wf(st),
        st.mode == Some(RecvBodyMode::LengthDelimited(n)),
        n > 0,
        !st.read_to_end,
        body_outcome(st, src, start, room, r, fin, out, old_out),
    ensures
        st.body_read + copy_len(src.len() - start, room) > n ==> r == Err::<BodyPart, HootError>(
            HootError::RecvMoreThanContentLength,
        ) && fin == st && out == old_out,
        st.body_read + copy_len(src.len() - start, room) == n ==> (r matches Ok(p) && p.finished
            && fin.read_to_end && finish_outcome(fin) == Ok::<(), HootError>(())),
{
}

} // verus!
