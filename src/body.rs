//! How a response body is delimited, and how that is decided from the
//! status line and the headers.
use vstd::prelude::*;
use vstd::string::*;
use vstd::utf8::valid_utf8;

use crate::HootError;

verus! {

/// A header as received: a name and a value, both borrowed from the input.
#[derive(Clone, Copy, Debug, PartialEq, Eq)]
pub struct Header<'a> {
    pub name: &'a str,
    pub value: &'a [u8],
}

impl<'a> View for Header<'a> {
    type V = (Seq<u8>, Seq<u8>);

    open spec fn view(&self) -> (Seq<u8>, Seq<u8>) {
        (self.name.spec_bytes(), self.value@)
    }
}

impl<'a> Header<'a> {
    pub fn name(&self) -> (r: &'a str)
        ensures
            r == self.name,
    {
        self.name
    }

    pub fn value(&self) -> (r: &'a [u8])
        ensures
            r == self.value,
    {
        self.value
    }
}

/// The headers of a list, each as its (name, value) bytes.
pub open spec fn headers_view<'a>(hs: Seq<Header<'a>>) -> Seq<(Seq<u8>, Seq<u8>)> {
    hs.map_values(|h: Header<'a>| h@)
}

/// How the end of a response body is found.
#[derive(Clone, Copy, PartialEq, Eq, Structural, Debug)]
pub enum RecvBodyMode {
    /// Delimited by a length; 0 also where no body may come (HEAD, 1xx, 204, 304).
    LengthDelimited(u64),
    /// Chunked transfer coding.
    Chunked,
    /// The body ends where the peer closes the connection.
    CloseDelimited,
}

/// One step of reading a body: input bytes used, output bytes written to the
/// front of the destination, and whether the body is complete.
#[derive(Clone, Copy, PartialEq, Eq, Structural, Debug)]
pub struct BodyPart {
    pub input_used: usize,
    pub output_used: usize,
    pub finished: bool,
}

impl BodyPart {
    pub fn empty() -> (r: Self)
        ensures
            r == (BodyPart { input_used: 0, output_used: 0, finished: false }),
    {
        BodyPart { input_used: 0, output_used: 0, finished: false }
    }
}

pub open spec fn ascii_lower(b: u8) -> u8 {
    if 65 <= b <= 90 {
        (b + 32) as u8
    } else {
        b
    }
}

/// `s` equals the lower-case ASCII word `t`, ignoring ASCII case.
pub open spec fn ci_match(s: Seq<u8>, t: Seq<u8>) -> bool {
    s.len() == t.len() && forall|i: int| 0 <= i < s.len() ==> ascii_lower(#[trigger] s[i]) == t[i]
}

pub open spec fn content_length_name() -> Seq<u8> {
    seq![99u8, 111, 110, 116, 101, 110, 116, 45, 108, 101, 110, 103, 116, 104]
}

pub open spec fn transfer_encoding_name() -> Seq<u8> {
    seq![116u8, 114, 97, 110, 115, 102, 101, 114, 45, 101, 110, 99, 111, 100, 105, 110, 103]
}

pub open spec fn chunked_name() -> Seq<u8> {
    seq![99u8, 104, 117, 110, 107, 101, 100]
}

pub open spec fn is_digit(b: u8) -> bool {
    48 <= b <= 57
}

/// The number that a sequence of decimal digits writes.
pub open spec fn decimal_value(s: Seq<u8>) -> int
    decreases s.len(),
{
    if s.len() == 0 {
        0
    } else {
        decimal_value(s.drop_last()) * 10 + (s.last() - 48)
    }
}

/// A Content-Length value: one or more decimal digits whose number fits in
/// `u64`. As the grammar `1*DIGIT` says, no sign and no white space.
pub open spec fn parse_decimal(s: Seq<u8>) -> Option<u64> {
    if s.len() > 0 && (forall|i: int| 0 <= i < s.len() ==> is_digit(#[trigger] s[i]))
        && decimal_value(s) <= u64::MAX {
        Some(decimal_value(s) as u64)
    } else {
        None
    }
}

pub open spec fn is_ws(b: u8) -> bool {
    b == 32 || 9 <= b <= 13
}

pub open spec fn is_comma(b: u8) -> bool {
    b == 44
}

/// `v[a..b]` is one comma-separated element of the list `v`.
pub open spec fn is_segment(v: Seq<u8>, a: int, b: int) -> bool {
    &&& 0 <= a <= b <= v.len()
    &&& a == 0 || is_comma(v[a - 1])
    &&& b == v.len() || is_comma(v[b])
    &&& forall|k: int| a <= k < b ==> !is_comma(#[trigger] v[k])
}

/// `t`, with white space trimmed on both sides, is `chunked` in any case.
pub open spec fn token_is_chunked(t: Seq<u8>) -> bool {
    exists|p: int|
        0 <= p && p + 7 <= t.len() && (forall|k: int| 0 <= k < p ==> is_ws(#[trigger] t[k])) && (
        forall|k: int| p + 7 <= k < t.len() ==> is_ws(#[trigger] t[k])) && ci_match(
            #[trigger] t.subrange(p, p + 7),
            chunked_name(),
        )
}

/// A Transfer-Encoding value names the chunked coding among its elements.
pub open spec fn has_chunked(v: Seq<u8>) -> bool {
    exists|a: int, b: int| is_segment(v, a, b) && token_is_chunked(#[trigger] v.subrange(a, b))
}

pub open spec fn is_content_length(h: (Seq<u8>, Seq<u8>)) -> bool {
    ci_match(h.0, content_length_name())
}

pub open spec fn is_transfer_encoding(h: (Seq<u8>, Seq<u8>)) -> bool {
    ci_match(h.0, transfer_encoding_name())
}

/// The headers scanned in order: the Content-Length found, if any, and
/// whether some Transfer-Encoding names chunked; or the first error. Once
/// chunked is found, later Transfer-Encoding headers are not looked at;
/// before that, each must be valid UTF-8.
pub open spec fn scan_headers(hs: Seq<(Seq<u8>, Seq<u8>)>) -> Result<(Option<u64>, bool), HootError>
    decreases hs.len(),
{
    if hs.len() == 0 {
        Ok((None, false))
    } else {
        match scan_headers(hs.drop_last()) {
            Err(e) => Err(e),
            Ok((cl, ch)) => {
                let h = hs.last();
                if is_content_length(h) {
                    match parse_decimal(h.1) {
                        None => Err(HootError::InvalidHeaderValue),
                        Some(n) => if cl is Some {
                            Err(HootError::DuplicateContentLength)
                        } else {
                            Ok((Some(n), ch))
                        },
                    }
                } else if is_transfer_encoding(h) && !ch {
                    if valid_utf8(h.1) {
                        Ok((cl, has_chunked(h.1)))
                    } else {
                        Err(HootError::InvalidHeaderValue)
                    }
                } else {
                    Ok((cl, ch))
                }
            },
        }
    }
}

/// No body may follow: a response to HEAD, or a 1xx, 204 or 304 status.
pub open spec fn has_no_body(is_head: bool, status_code: u16) -> bool {
    is_head || (100 <= status_code <= 199) || status_code == 204 || status_code == 304
}

/// The body mode of a response, or the error that the headers give.
pub open spec fn body_mode(
    is_http10: bool,
    is_head: bool,
    status_code: u16,
    hs: Seq<(Seq<u8>, Seq<u8>)>,
) -> Result<RecvBodyMode, HootError> {
    if has_no_body(is_head, status_code) {
        Ok(RecvBodyMode::LengthDelimited(0))
    } else {
        match scan_headers(hs) {
            Err(e) => Err(e),
            Ok((cl, ch)) => if ch && !is_http10 {
                Ok(RecvBodyMode::Chunked)
            } else {
                match cl {
                    Some(n) => Ok(RecvBodyMode::LengthDelimited(n)),
                    None => Ok(RecvBodyMode::CloseDelimited),
                }
            },
        }
    }
}


/// Whether `v[a..a + t.len()]` equals the lower-case word `t`, ignoring ASCII case.
fn ci_match_at(v: &[u8], a: usize, t: &[u8]) -> (r: bool)
    requires
        a <= v@.len(),
    ensures
        r == (a + t@.len() <= v@.len() && ci_match(v@.subrange(a as int, a + t@.len()), t@)),
{
    if t.len() > v.len() - a {
        return false;
    }
    let n = v.len();
    let mut i: usize = 0;
    while i < t.len()
        invariant
            n == v@.len(),
            i <= t@.len(),
            a + t@.len() <= v@.len(),
            forall|k: int| 0 <= k < i ==> ascii_lower(v@[a + k]) == t@[k],
        decreases t@.len() - i,
    {
        let b = v[a + i];
        let low = if 65 <= b && b <= 90 {
            b + 32
        } else {
            b
        };
        if low != t[i] {
            proof {
                assert(v@.subrange(a as int, a + t@.len())[i as int] == v@[a + i]);
            }
            return false;
        }
        i = i + 1;
    }
    proof {
        assert forall|k: int| 0 <= k < t@.len() implies ascii_lower(
            #[trigger] v@.subrange(a as int, a + t@.len())[k],
        ) == t@[k] by {
            assert(v@.subrange(a as int, a + t@.len())[k] == v@[a + k]);
        }
    }
    true
}

proof fn lemma_decimal_nonneg(s: Seq<u8>)
    requires
        forall|i: int| 0 <= i < s.len() ==> is_digit(#[trigger] s[i]),
    ensures
        decimal_value(s) >= 0,
    decreases s.len(),
{
    if s.len() > 0 {
        lemma_decimal_nonneg(s.drop_last());
    }
}

/// A number of decimal digits is no smaller than that of any of its prefixes.
proof fn lemma_decimal_prefix(s: Seq<u8>, j: int)
    requires
        0 <= j <= s.len(),
        forall|i: int| 0 <= i < s.len() ==> is_digit(#[trigger] s[i]),
    ensures
        decimal_value(s) >= decimal_value(s.subrange(0, j)),
    decreases s.len(),
{
    if j == s.len() {
        assert(s.subrange(0, j) =~= s);
    } else {
        lemma_decimal_prefix(s.drop_last(), j);
        assert(s.drop_last().subrange(0, j) =~= s.subrange(0, j));
        lemma_decimal_nonneg(s.drop_last());
    }
}

/// Reads a Content-Length value.
pub fn parse_content_length(v: &[u8]) -> (r: Option<u64>)
    ensures
        r == parse_decimal(v@),
{
    if v.len() == 0 {
        return None;
    }
    let mut acc: u64 = 0;
    let mut i: usize = 0;
    proof {
        assert(v@.subrange(0, 0) =~= Seq::<u8>::empty());
    }
    while i < v.len()
        invariant
            i <= v@.len(),
            forall|k: int| 0 <= k < i ==> is_digit(#[trigger] v@[k]),
            acc == decimal_value(v@.subrange(0, i as int)),
        decreases v@.len() - i,
    {
        let b = v[i];
        proof {
            assert(v@.subrange(0, i + 1).drop_last() =~= v@.subrange(0, i as int));
        }
        if b < 48 || b > 57 {
            return None;
        }
        let next: u128 = acc as u128 * 10 + (b - 48) as u128;
        if next > u64::MAX as u128 {
            proof {
                if forall|k: int| 0 <= k < v@.len() ==> is_digit(#[trigger] v@[k]) {
                    lemma_decimal_prefix(v@, i + 1);
                }
            }
            return None;
        }
        acc = next as u64;
        i = i + 1;
    }
    proof {
        assert(v@.subrange(0, v@.len() as int) =~= v@);
    }
    Some(acc)
}


/// Whether `v[a..b]`, trimmed of white space, is `chunked` in any case.
fn token_is_chunked_at(v: &[u8], a: usize, b: usize) -> (r: bool)
    requires
        a <= b <= v@.len(),
    ensures
        r == token_is_chunked(v@.subrange(a as int, b as int)),
{
    let ghost t = v@.subrange(a as int, b as int);
    let mut p: usize = a;
    while p < b
        invariant_except_break
            a <= p <= b,
            b <= v@.len(),
            forall|k: int| a <= k < p ==> is_ws(#[trigger] v@[k]),
        ensures
            a <= p <= b,
            b <= v@.len(),
            forall|k: int| a <= k < p ==> is_ws(#[trigger] v@[k]),
            p == b || !is_ws(v@[p as int]),
        decreases b - p,
    {
        let c = v[p];
        if !(c == 32 || (9 <= c && c <= 13)) {
            break;
        }
        p = p + 1;
    }
    let mut q: usize = b;
    while q > p
        invariant_except_break
            p <= q <= b,
            b <= v@.len(),
            forall|k: int| q <= k < b ==> is_ws(#[trigger] v@[k]),
        ensures
            p <= q <= b,
            b <= v@.len(),
            forall|k: int| q <= k < b ==> is_ws(#[trigger] v@[k]),
            q == p || !is_ws(v@[q - 1]),
        decreases q - p,
    {
        let c = v[q - 1];
        if !(c == 32 || (9 <= c && c <= 13)) {
            break;
        }
        q = q - 1;
    }
    let chunked: [u8; 7] = [99, 104, 117, 110, 107, 101, 100];
    proof {
        assert(chunked@ =~= chunked_name());
    }
    let r = q - p == 7 && ci_match_at(v, p, chunked.as_slice());
    proof {
        if r {
            let w = p - a;
            assert(t.subrange(w, w + 7) =~= v@.subrange(p as int, p + 7));
            assert forall|k: int| 0 <= k < w implies is_ws(#[trigger] t[k]) by {
                assert(t[k] == v@[a + k]);
            }
            assert forall|k: int| w + 7 <= k < t.len() implies is_ws(#[trigger] t[k]) by {
                assert(t[k] == v@[a + k]);
            }
        } else if token_is_chunked(t) {
            let w = choose|w: int|
                0 <= w && w + 7 <= t.len() && (forall|k: int| 0 <= k < w ==> is_ws(#[trigger] t[k]))
                    && (forall|k: int| w + 7 <= k < t.len() ==> is_ws(#[trigger] t[k]))
                    && ci_match(#[trigger] t.subrange(w, w + 7), chunked_name());
            assert(t.subrange(w, w + 7)[0] == t[w]);
            assert(t.subrange(w, w + 7)[6] == t[w + 6]);
            assert(t[w] == v@[a + w]);
            assert(t[w + 6] == v@[a + w + 6]);
            if p - a < w {
                assert(t[p - a] == v@[p as int]);
            }
            if q - a > w + 7 {
                assert(t[q - 1 - a] == v@[q - 1]);
            }
            assert(p - a == w);
            assert(q - a == w + 7);
            assert(t.subrange(w, w + 7) =~= v@.subrange(p as int, p + 7));
        }
    }
    r
}

/// Whether a Transfer-Encoding value names the chunked coding.
pub fn value_has_chunked(v: &[u8]) -> (r: bool)
    ensures
        r == has_chunked(v@),
{
    let n = v.len();
    let mut start: usize = 0;
    loop
        invariant
            n == v@.len(),
            start <= n,
            start == 0 || is_comma(v@[start - 1]),
            forall|a: int, b: int|
                is_segment(v@, a, b) && a < start ==> !token_is_chunked(
                    #[trigger] v@.subrange(a, b),
                ),
        decreases n - start,
    {
        let mut j: usize = start;
        while j < n
            invariant_except_break
                n == v@.len(),
                start <= j <= n,
                forall|k: int| start <= k < j ==> !is_comma(#[trigger] v@[k]),
            ensures
                start <= j <= n,
                forall|k: int| start <= k < j ==> !is_comma(#[trigger] v@[k]),
                j == n || is_comma(v@[j as int]),
            decreases n - j,
        {
            if v[j] == 44 {
                break;
            }
            j = j + 1;
        }
        assert(is_segment(v@, start as int, j as int));
        if token_is_chunked_at(v, start, j) {
            return true;
        }
        assert forall|a: int, b: int|
            is_segment(v@, a, b) && a < j + 1 implies !token_is_chunked(
            #[trigger] v@.subrange(a, b),
        ) by {
            if a >= start {
                if a > start {
                    assert(is_comma(v@[a - 1]));
                }
                assert(a == start);
                if b < j {
                    assert(is_comma(v@[b]));
                }
                if b > j {
                    assert(!is_comma(v@[j as int]));
                }
                assert(b == j);
            }
        }
        if j == n {
            return false;
        }
        start = j + 1;
    }
}


/// The first error of a scan stands whatever headers follow.
proof fn lemma_scan_err_extends(hs: Seq<(Seq<u8>, Seq<u8>)>, k: int)
    requires
        0 <= k <= hs.len(),
        scan_headers(hs.subrange(0, k)) is Err,
    ensures
        scan_headers(hs) == scan_headers(hs.subrange(0, k)),
    decreases hs.len(),
{
    if k == hs.len() {
        assert(hs.subrange(0, k) =~= hs);
    } else {
        assert(hs.drop_last().subrange(0, k) =~= hs.subrange(0, k));
        lemma_scan_err_extends(hs.drop_last(), k);
    }
}

/// Relies on std's str::from_utf8: `Ok` exactly where the bytes are valid UTF-8.
#[verifier::external_body]
fn is_utf8(b: &[u8]) -> (r: bool)
    ensures
        r == valid_utf8(b@),
{
    core::str::from_utf8(b).is_ok()
}

/// Whether `name` is the lower-case word `t`, ignoring ASCII case.
fn name_is(name: &[u8], t: &[u8]) -> (r: bool)
    ensures
        r == ci_match(name@, t@),
{
    let r = name.len() == t.len() && ci_match_at(name, 0, t);
    proof {
        if name@.len() == t@.len() {
            assert(name@.subrange(0, t@.len() as int) =~= name@);
        }
    }
    r
}

impl RecvBodyMode {
    /// Decides how the body of a response is delimited, from the HTTP
    /// version, whether the request was HEAD, the status code and the headers.
    pub fn from<'a>(is_http10: bool, is_head: bool, status_code: u16, headers: &[Header<'a>]) -> (r:
        Result<Self, HootError>)
        ensures
            r == body_mode(is_http10, is_head, status_code, headers_view(headers@)),
    {
        if is_head || (100 <= status_code && status_code <= 199) || status_code == 204
            || status_code == 304 {
            return Ok(RecvBodyMode::LengthDelimited(0));
        }
        let cl_name: [u8; 14] = [99, 111, 110, 116, 101, 110, 116, 45, 108, 101, 110, 103, 116, 104];
        let te_name: [u8; 17] = [
            116, 114, 97, 110, 115, 102, 101, 114, 45, 101, 110, 99, 111, 100, 105, 110, 103,
        ];
        proof {
            assert(cl_name@ =~= content_length_name());
            assert(te_name@ =~= transfer_encoding_name());
        }
        let mut content_length: Option<u64> = None;
        let mut is_chunked = false;
        let mut i: usize = 0;
        proof {
            assert(headers_view(headers@.subrange(0, 0)) =~= Seq::<(Seq<u8>, Seq<u8>)>::empty());
        }
        while i < headers.len()
            invariant
                i <= headers@.len(),
                !has_no_body(is_head, status_code),
                cl_name@ == content_length_name(),
                te_name@ == transfer_encoding_name(),
                scan_headers(headers_view(headers@.subrange(0, i as int))) == Ok::<
                    (Option<u64>, bool),
                    HootError,
                >((content_length, is_chunked)),
            decreases headers@.len() - i,
        {
            let h = headers[i];
            let name = h.name.as_bytes();
            proof {
                let hv = headers_view(headers@.subrange(0, i + 1));
                assert(hv.drop_last() =~= headers_view(headers@.subrange(0, i as int)));
                assert(hv.last() == h@);
            }
            if name_is(name, cl_name.as_slice()) {
                let v = match parse_content_length(h.value) {
                    Some(v) => v,
                    None => {
                        proof {
                            assert(headers_view(headers@).subrange(0, i + 1) =~= headers_view(
                                headers@.subrange(0, i + 1),
                            ));
                            lemma_scan_err_extends(headers_view(headers@), i + 1);
                        }
                        return Err(HootError::InvalidHeaderValue);
                    },
                };
                if content_length.is_some() {
                    proof {
                        assert(headers_view(headers@).subrange(0, i + 1) =~= headers_view(
                            headers@.subrange(0, i + 1),
                        ));
                        lemma_scan_err_extends(headers_view(headers@), i + 1);
                    }
                    return Err(HootError::DuplicateContentLength);
                }
                content_length = Some(v);
            } else if name_is(name, te_name.as_slice()) {
                if !is_chunked {
                    if !is_utf8(h.value) {
                        proof {
                            assert(headers_view(headers@).subrange(0, i + 1) =~= headers_view(
                                headers@.subrange(0, i + 1),
                            ));
                            lemma_scan_err_extends(headers_view(headers@), i + 1);
                        }
                        return Err(HootError::InvalidHeaderValue);
                    }
                    is_chunked = value_has_chunked(h.value);
                }
            }
            i = i + 1;
        }
        proof {
            assert(headers@.subrange(0, i as int) =~= headers@);
        }
        if is_chunked && !is_http10 {
            return Ok(RecvBodyMode::Chunked);
        }
        match content_length {
            Some(n) => Ok(RecvBodyMode::LengthDelimited(n)),
            None => Ok(RecvBodyMode::CloseDelimited),
        }
    }
}


/// Every Content-Length header of the list has a numeric value, and every
/// Transfer-Encoding header a UTF-8 one.
pub open spec fn framing_values_valid(hs: Seq<(Seq<u8>, Seq<u8>)>) -> bool {
    &&& forall|k: int| 0 <= k < hs.len() && is_content_length(#[trigger] hs[k]) ==> parse_decimal(
        hs[k].1,
    ) is Some
    &&& forall|k: int| 0 <= k < hs.len() && is_transfer_encoding(#[trigger] hs[k]) ==> valid_utf8(
        hs[k].1,
    )
}

/// The list has at most one Content-Length header.
pub open spec fn at_most_one_length(hs: Seq<(Seq<u8>, Seq<u8>)>) -> bool {
    forall|a: int, b: int|
        0 <= a < hs.len() && 0 <= b < hs.len() && is_content_length(#[trigger] hs[a])
            && is_content_length(#[trigger] hs[b]) ==> a == b
}

/// Where every Content-Length is numeric, the only error a scan gives is
/// the duplicate one.
proof fn lemma_scan_only_duplicate(hs: Seq<(Seq<u8>, Seq<u8>)>)
    requires
        framing_values_valid(hs),
    ensures
        scan_headers(hs) is Ok || scan_headers(hs) == Err::<(Option<u64>, bool), HootError>(
            HootError::DuplicateContentLength,
        ),
    decreases hs.len(),
{
    if hs.len() > 0 {
        let dl = hs.drop_last();
        assert forall|k: int| 0 <= k < dl.len() && is_content_length(#[trigger] dl[k]) implies parse_decimal(dl[k].1) is Some by {
            assert(dl[k] == hs[k]);
        }
        assert forall|k: int| 0 <= k < dl.len() && is_transfer_encoding(#[trigger] dl[k]) implies valid_utf8(dl[k].1) by {
            assert(dl[k] == hs[k]);
        }
        lemma_scan_only_duplicate(dl);
        assert(hs.last() == hs[hs.len() - 1]);
    }
}

/// After a Content-Length header, a scan has found a length or failed on a duplicate.
proof fn lemma_scan_length_found(hs: Seq<(Seq<u8>, Seq<u8>)>, i: int)
    requires
        framing_values_valid(hs),
        0 <= i < hs.len(),
        is_content_length(hs[i]),
    ensures
        scan_headers(hs) == Err::<(Option<u64>, bool), HootError>(HootError::DuplicateContentLength)
            || scan_headers(hs) matches Ok((Some(_), _)),
    decreases hs.len(),
{
    let dl = hs.drop_last();
    assert forall|k: int| 0 <= k < dl.len() && is_content_length(#[trigger] dl[k]) implies parse_decimal(dl[k].1) is Some by {
        assert(dl[k] == hs[k]);
    }
    assert forall|k: int| 0 <= k < dl.len() && is_transfer_encoding(#[trigger] dl[k]) implies valid_utf8(dl[k].1) by {
        assert(dl[k] == hs[k]);
    }
    assert(hs.last() == hs[hs.len() - 1]);
    lemma_scan_only_duplicate(dl);
    if i < hs.len() - 1 {
        assert(dl[i] == hs[i]);
        lemma_scan_length_found(dl, i);
    }
}

/// Two Content-Length headers, numeric ones, make the scan fail on the duplicate.
proof fn lemma_scan_duplicate(hs: Seq<(Seq<u8>, Seq<u8>)>, i: int, j: int)
    requires
        framing_values_valid(hs),
        0 <= i < j < hs.len(),
        is_content_length(hs[i]),
        is_content_length(hs[j]),
    ensures
        scan_headers(hs) == Err::<(Option<u64>, bool), HootError>(HootError::DuplicateContentLength),
    decreases hs.len(),
{
    let dl = hs.drop_last();
    assert forall|k: int| 0 <= k < dl.len() && is_content_length(#[trigger] dl[k]) implies parse_decimal(dl[k].1) is Some by {
        assert(dl[k] == hs[k]);
    }
    assert forall|k: int| 0 <= k < dl.len() && is_transfer_encoding(#[trigger] dl[k]) implies valid_utf8(dl[k].1) by {
        assert(dl[k] == hs[k]);
    }
    assert(hs.last() == hs[hs.len() - 1]);
    assert(dl[i] == hs[i]);
    if j < hs.len() - 1 {
        assert(dl[j] == hs[j]);
        lemma_scan_duplicate(dl, i, j);
    } else {
        lemma_scan_length_found(dl, i);
    }
}

/// With numeric and unique Content-Length headers the scan succeeds, finds
/// a length exactly where there is such a header, and finds chunked where
/// some Transfer-Encoding names it.
proof fn lemma_scan_unique(hs: Seq<(Seq<u8>, Seq<u8>)>)
    requires
        framing_values_valid(hs),
        at_most_one_length(hs),
    ensures
        scan_headers(hs) is Ok,
        (scan_headers(hs)->Ok_0.0 is Some) == (exists|k: int|
            0 <= k < hs.len() && is_content_length(#[trigger] hs[k])),
        (exists|k: int|
            0 <= k < hs.len() && is_transfer_encoding(#[trigger] hs[k]) && has_chunked(hs[k].1))
            ==> scan_headers(hs)->Ok_0.1,
    decreases hs.len(),
{
    if hs.len() > 0 {
        let dl = hs.drop_last();
        let l = hs.len() - 1;
        assert forall|k: int| 0 <= k < dl.len() && is_content_length(#[trigger] dl[k]) implies parse_decimal(dl[k].1) is Some by {
            assert(dl[k] == hs[k]);
        }
        assert forall|k: int| 0 <= k < dl.len() && is_transfer_encoding(#[trigger] dl[k]) implies valid_utf8(dl[k].1) by {
            assert(dl[k] == hs[k]);
        }
        assert forall|a: int, b: int|
            0 <= a < dl.len() && 0 <= b < dl.len() && is_content_length(#[trigger] dl[a])
                && is_content_length(#[trigger] dl[b]) implies a == b by {
            assert(dl[a] == hs[a]);
            assert(dl[b] == hs[b]);
        }
        lemma_scan_unique(dl);
        assert(hs.last() == hs[l]);
        assert(content_length_name().len() == 14);
        assert(transfer_encoding_name().len() == 17);
        if is_content_length(hs[l]) {
            if exists|k: int| 0 <= k < dl.len() && is_content_length(#[trigger] dl[k]) {
                let k = choose|k: int| 0 <= k < dl.len() && is_content_length(#[trigger] dl[k]);
                assert(dl[k] == hs[k]);
            }
        }
        if exists|k: int| 0 <= k < hs.len() && is_content_length(#[trigger] hs[k]) {
            let k = choose|k: int| 0 <= k < hs.len() && is_content_length(#[trigger] hs[k]);
            if k < l {
                assert(dl[k] == hs[k]);
            }
        }
        if exists|k: int|
            0 <= k < hs.len() && is_transfer_encoding(#[trigger] hs[k]) && has_chunked(hs[k].1) {
            let k = choose|k: int|
                0 <= k < hs.len() && is_transfer_encoding(#[trigger] hs[k]) && has_chunked(hs[k].1);
            if k < l {
                assert(dl[k] == hs[k]);
            }
        }
    }
}

/// A response to HEAD, or with a 1xx, 204 or 304 status, has a body of
/// length zero, whatever its headers say.
pub proof fn lemma_no_body_whatever_headers(
    is_http10: bool,
    is_head: bool,
    status_code: u16,
    hs: Seq<(Seq<u8>, Seq<u8>)>,
)
    requires
        is_head || (100 <= status_code <= 199) || status_code == 204 || status_code == 304,
    ensures
        body_mode(is_http10, is_head, status_code, hs) == Ok::<RecvBodyMode, HootError>(
            RecvBodyMode::LengthDelimited(0),
        ),
{
}

/// A response that may have a body and carries two Content-Length headers
/// fails with the duplicate-length error, whether their values differ or
/// not (where every Content-Length value is a number and every
/// Transfer-Encoding value UTF-8; else the first bad value is the error).
pub proof fn lemma_duplicate_length_rejected(
    is_http10: bool,
    is_head: bool,
    status_code: u16,
    hs: Seq<(Seq<u8>, Seq<u8>)>,
    i: int,
    j: int,
)
    requires
        !has_no_body(is_head, status_code),
        framing_values_valid(hs),
        0 <= i < j < hs.len(),
        is_content_length(hs[i]),
        is_content_length(hs[j]),
    ensures
        body_mode(is_http10, is_head, status_code, hs) == Err::<RecvBodyMode, HootError>(
            HootError::DuplicateContentLength,
        ),
{
    lemma_scan_duplicate(hs, i, j);
}

/// Under HTTP/1.1 a response with a Transfer-Encoding that names chunked is
/// chunked, and its Content-Length, if any, is ignored.
pub proof fn lemma_chunked_overrides_length(
    is_head: bool,
    status_code: u16,
    hs: Seq<(Seq<u8>, Seq<u8>)>,
    i: int,
)
    requires
        !has_no_body(is_head, status_code),
        framing_values_valid(hs),
        at_most_one_length(hs),
        0 <= i < hs.len(),
        is_transfer_encoding(hs[i]),
        has_chunked(hs[i].1),
    ensures
        body_mode(false, is_head, status_code, hs) == Ok::<RecvBodyMode, HootError>(
            RecvBodyMode::Chunked,
        ),
{
    lemma_scan_unique(hs);
}

} // verus!
