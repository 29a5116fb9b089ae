use hoot::body::{parse_content_length, value_has_chunked};
use hoot::{Dechunker, Header, HootError, HttpVersion, LengthChecker, Method, RecvBodyMode};

fn h<'a>(name: &'a str, value: &'a [u8]) -> Header<'a> {
    Header { name, value }
}

#[test]
fn head_request_ignores_length_and_chunked() {
    let hs = [h("Content-Length", b"10"), h("Transfer-Encoding", b"chunked")];
    assert_eq!(RecvBodyMode::from(false, true, 200, &hs), Ok(RecvBodyMode::LengthDelimited(0)));
}

#[test]
fn no_content_statuses_have_no_body() {
    let hs = [h("Content-Length", b"10"), h("Transfer-Encoding", b"chunked")];
    for code in [100u16, 101, 150, 199, 204, 304] {
        assert_eq!(RecvBodyMode::from(false, false, code, &hs), Ok(RecvBodyMode::LengthDelimited(0)));
    }
    assert_eq!(RecvBodyMode::from(false, false, 200, &hs), Ok(RecvBodyMode::Chunked));
    assert_eq!(RecvBodyMode::from(false, false, 205, &hs), Ok(RecvBodyMode::Chunked));
}

#[test]
fn two_different_lengths_are_rejected() {
    let hs = [h("Content-Length", b"10"), h("content-length", b"11")];
    assert_eq!(RecvBodyMode::from(false, false, 200, &hs), Err(HootError::DuplicateContentLength));
}

#[test]
fn two_equal_lengths_are_rejected_too() {
    let hs = [h("Content-Length", b"10"), h("X", b"y"), h("CONTENT-LENGTH", b"10")];
    assert_eq!(RecvBodyMode::from(false, false, 200, &hs), Err(HootError::DuplicateContentLength));
}

#[test]
fn chunked_wins_over_length_under_http11() {
    let hs = [h("Content-Length", b"10"), h("transfer-encoding", b"gzip, chunked")];
    assert_eq!(RecvBodyMode::from(false, false, 200, &hs), Ok(RecvBodyMode::Chunked));
}

#[test]
fn chunked_is_ignored_under_http10() {
    let hs = [h("Content-Length", b"10"), h("Transfer-Encoding", b"chunked")];
    assert_eq!(RecvBodyMode::from(true, false, 200, &hs), Ok(RecvBodyMode::LengthDelimited(10)));
    let hs = [h("Transfer-Encoding", b"chunked")];
    assert_eq!(RecvBodyMode::from(true, false, 200, &hs), Ok(RecvBodyMode::CloseDelimited));
}

#[test]
fn no_framing_headers_is_close_delimited() {
    let hs = [h("Server", b"x")];
    assert_eq!(RecvBodyMode::from(false, false, 404, &hs), Ok(RecvBodyMode::CloseDelimited));
    assert_eq!(RecvBodyMode::from(false, false, 200, &[]), Ok(RecvBodyMode::CloseDelimited));
}

#[test]
fn length_value_must_be_a_number() {
    let hs = [h("Content-Length", b"abc")];
    assert_eq!(RecvBodyMode::from(false, false, 200, &hs), Err(HootError::InvalidHeaderValue));
    let hs = [h("Content-Length", b"")];
    assert_eq!(RecvBodyMode::from(false, false, 200, &hs), Err(HootError::InvalidHeaderValue));
}

#[test]
fn content_length_values() {
    assert_eq!(parse_content_length(b"0"), Some(0));
    assert_eq!(parse_content_length(b"12345"), Some(12345));
    assert_eq!(parse_content_length(b"18446744073709551615"), Some(u64::MAX));
    assert_eq!(parse_content_length(b"18446744073709551616"), None);
    assert_eq!(parse_content_length(b"99999999999999999999x"), None);
    assert_eq!(parse_content_length(b"+5"), None);
    assert_eq!(parse_content_length(b" 5"), None);
    assert_eq!(parse_content_length(b""), None);
}

#[test]
fn transfer_encoding_lists() {
    assert!(value_has_chunked(b"chunked"));
    assert!(value_has_chunked(b" ChUnKeD "));
    assert!(value_has_chunked(b"gzip,chunked"));
    assert!(value_has_chunked(b"chunked , gzip"));
    assert!(!value_has_chunked(b"gzip"));
    assert!(!value_has_chunked(b"chunkedx"));
    assert!(!value_has_chunked(b"x chunked"));
    assert!(!value_has_chunked(b""));
    assert!(!value_has_chunked(b","));
}

#[test]
fn dechunker_whole_stream() {
    let mut d = Dechunker::new();
    let mut dst = [0u8; 64];
    let src = b"3\r\nabc\r\nA; ext\r\n0123456789\r\n0\r\n\r\nNEXT";
    let (used, produced) = d.parse_input(src, &mut dst).unwrap();
    assert_eq!(&dst[..produced], b"abc0123456789");
    assert_eq!(used, src.len() - 4);
    assert!(d.is_ended());
    assert_eq!(d.parse_input(b"more", &mut dst), Ok((0, 0)));
}

#[test]
fn dechunker_stops_when_destination_full() {
    let mut d = Dechunker::new();
    let mut dst = [0u8; 0];
    let src = b"3\r\nabc\r\n";
    assert_eq!(d.parse_input(src, &mut dst), Ok((3, 0)));
    assert!(!d.is_ended());
}

#[test]
fn dechunker_split_size_line() {
    let mut d = Dechunker::new();
    let mut dst = [0u8; 16];
    assert_eq!(d.parse_input(b"1", &mut dst), Ok((1, 0)));
    assert_eq!(d.parse_input(b"0\r", &mut dst), Ok((2, 0)));
    let (used, produced) = d.parse_input(b"\n0123456789abcdef\r\n0\r\n\r\n", &mut dst).unwrap();
    assert_eq!(produced, 16);
    assert_eq!(used, 24);
    assert!(d.is_ended());
}

#[test]
fn dechunker_rejects_bad_syntax() {
    let mut dst = [0u8; 16];
    assert_eq!(Dechunker::new().parse_input(b"\r\n", &mut dst), Err(HootError::InvalidChunk));
    assert_eq!(Dechunker::new().parse_input(b"1\n", &mut dst), Err(HootError::InvalidChunk));
    assert_eq!(Dechunker::new().parse_input(b"1\r\nab", &mut dst), Err(HootError::InvalidChunk));
    assert_eq!(Dechunker::new().parse_input(b"0\r\n\rx", &mut dst), Err(HootError::InvalidChunk));
    assert_eq!(
        Dechunker::new().parse_input(b"10000000000000000\r\n", &mut dst),
        Err(HootError::InvalidChunk)
    );
}

#[test]
fn length_checker_counts() {
    let mut c = LengthChecker::new(5);
    assert_eq!(c.append(3, HootError::RecvMoreThanContentLength), Ok(()));
    assert!(!c.complete());
    assert_eq!(c.assert_expected(HootError::RecvLessThanContentLength), Err(HootError::RecvLessThanContentLength));
    assert_eq!(c.append(3, HootError::RecvMoreThanContentLength), Err(HootError::RecvMoreThanContentLength));
    assert_eq!(c.append(2, HootError::RecvMoreThanContentLength), Ok(()));
    assert!(c.complete());
    assert_eq!(c.assert_expected(HootError::RecvLessThanContentLength), Ok(()));
}

#[test]
fn methods_with_bodies() {
    assert!(Method::POST.has_request_body());
    assert!(Method::PUT.has_request_body());
    assert!(Method::PATCH.has_request_body());
    assert!(!Method::GET.has_request_body());
    assert!(!Method::HEAD.has_request_body());
}

#[test]
fn method_names() {
    assert_eq!(Method::from_name("GET"), Ok(Method::GET));
    assert_eq!(Method::from_name("OPTIONS"), Ok(Method::OPTIONS));
    assert_eq!(Method::from_name("CONNECT"), Ok(Method::CONNECT));
    assert_eq!(Method::from_name("PATCH"), Ok(Method::PATCH));
    assert_eq!(Method::from_name("get"), Err(HootError::UnknownMethod));
    assert_eq!(Method::from_name(""), Err(HootError::UnknownMethod));
}

#[test]
fn versions_from_minor() {
    assert_eq!(HttpVersion::from_minor(0), Some(HttpVersion::Http10));
    assert_eq!(HttpVersion::from_minor(1), Some(HttpVersion::Http11));
    assert_eq!(HttpVersion::from_minor(2), None);
}

#[test]
fn transfer_encoding_must_be_utf8_until_chunked_is_found() {
    let bad: &[u8] = &[0xff, b'x'];
    let hs = [h("Transfer-Encoding", bad)];
    assert_eq!(RecvBodyMode::from(false, false, 200, &hs), Err(HootError::InvalidHeaderValue));
    let hs = [h("Transfer-Encoding", b"chunked"), h("Transfer-Encoding", bad)];
    assert_eq!(RecvBodyMode::from(false, false, 200, &hs), Ok(RecvBodyMode::Chunked));
}
