use hoot::{HootError, HttpVersion, Method};
use hoot::{Response, Status, RECV_BODY, RECV_RESPONSE};

#[test]
fn test_recv_no_headers() -> Result<(), HootError> {
    let mut buf = [0; 1024];
    let mut r: Response<RECV_RESPONSE> = Response::new_test();

    let a = r.try_read_response(b"HTTP/1.1 404\r\n\r\n", &mut buf)?;
    assert!(a.is_success());

    let status = a.status().unwrap();
    assert_eq!(status, &Status(HttpVersion::Http11, 404, ""));

    assert!(a.headers().unwrap().is_empty());
    Ok(())
}

fn body_engine(method: Method) -> Response<RECV_BODY> {
    Response::resume(HttpVersion::Http11, method).proceed()
}

#[test]
fn not_found_without_length_is_close_delimited_and_empty() {
    let input = b"HTTP/1.1 404\r\n\r\n";
    let mut r = body_engine(Method::GET);
    let mut dst = [0u8; 1024];
    let part = r.read_body(input, &mut dst).unwrap();
    assert_eq!(part.input_used, input.len());
    assert_eq!(part.output_used, 0);
    assert!(!part.finished);
    assert!(!r.is_finished());
    assert_eq!(r.finish().err(), Some(HootError::BodyNotFinished));
}

#[test]
fn head_split_at_every_offset_matches_whole() {
    let input: &[u8] = b"HTTP/1.1 200 OK\r\nContent-Length: 3\r\nX-Tag: a\r\n\r\n";
    let mut buf = [0u8; 1024];
    let mut whole = Response::new_test();
    let w = whole.try_read_response(input, &mut buf).unwrap();
    assert!(w.is_success());
    assert_eq!(w.input_used(), input.len());
    for cut in 0..input.len() {
        let mut r = Response::new_test();
        let first = r.try_read_response(&input[..cut], &mut buf).unwrap();
        assert!(!first.is_success());
        assert_eq!(first.input_used(), 0);
        let second = r.try_read_response(input, &mut buf).unwrap();
        assert!(second.is_success());
        assert_eq!(second.input_used(), w.input_used());
        assert_eq!(second.status(), w.status());
        assert_eq!(second.headers(), w.headers());
    }
    let hs = w.headers().unwrap();
    assert_eq!(hs.len(), 2);
    assert_eq!(hs[0].name, "Content-Length");
    assert_eq!(hs[0].value, b"3");
    assert_eq!(w.status().unwrap().text(), "OK");
    assert_eq!(w.status().unwrap().code(), 200);
    assert_eq!(w.status().unwrap().version(), HttpVersion::Http11);
}

#[test]
fn second_read_after_success_is_empty() {
    let input: &[u8] = b"HTTP/1.0 200 OK\r\n\r\n";
    let mut buf = [0u8; 256];
    let mut r = Response::new_test();
    assert!(r.try_read_response(input, &mut buf).unwrap().is_success());
    let again = r.try_read_response(input, &mut buf).unwrap();
    assert!(!again.is_success());
    assert_eq!(again.input_used(), 0);
    assert!(again.status().is_none());
    assert!(again.headers().is_none());
}

#[test]
fn length_delimited_body_exact_then_finish() {
    let mut r = body_engine(Method::GET);
    let mut dst = [0u8; 64];
    let head = b"HTTP/1.1 200 OK\r\nContent-Length: 5\r\n\r\nhel";
    let p = r.read_body(head, &mut dst).unwrap();
    assert_eq!(p.input_used, head.len());
    assert_eq!(p.output_used, 3);
    assert_eq!(&dst[..3], b"hel");
    assert!(!p.finished);
    let p = r.read_body(b"lo", &mut dst).unwrap();
    assert_eq!((p.input_used, p.output_used, p.finished), (2, 2, true));
    assert_eq!(&dst[..2], b"lo");
    assert!(r.is_finished());
    let p = r.read_body(b"more", &mut dst).unwrap();
    assert_eq!((p.input_used, p.output_used, p.finished), (0, 0, true));
    assert!(r.finish().is_ok());
}

#[test]
fn length_delimited_finish_early_is_under_read() {
    let mut r = body_engine(Method::GET);
    let mut dst = [0u8; 64];
    let head = b"HTTP/1.1 200 OK\r\nContent-Length: 5\r\n\r\nhe";
    let p = r.read_body(head, &mut dst).unwrap();
    assert_eq!(p.output_used, 2);
    assert_eq!(r.finish().err(), Some(HootError::RecvLessThanContentLength));
}

#[test]
fn length_delimited_one_byte_too_many_is_overrun() {
    let mut r = body_engine(Method::GET);
    let mut dst = [0u8; 64];
    let p = r.read_body(b"HTTP/1.1 200 OK\r\nContent-Length: 5\r\n\r\n", &mut dst).unwrap();
    assert_eq!(p.output_used, 0);
    let e = r.read_body(b"hello!", &mut dst).err();
    assert_eq!(e, Some(HootError::RecvMoreThanContentLength));
    let p = r.read_body(b"hello", &mut dst).unwrap();
    assert!(p.finished);
}

#[test]
fn length_delimited_small_destination() {
    let mut r = body_engine(Method::GET);
    let mut dst = [0u8; 2];
    r.read_body(b"HTTP/1.1 200 OK\r\nContent-Length: 3\r\n\r\n", &mut [0u8; 64]).unwrap();
    let p = r.read_body(b"abc", &mut dst).unwrap();
    assert_eq!((p.input_used, p.output_used, p.finished), (2, 2, false));
    assert_eq!(&dst, b"ab");
    let p = r.read_body(b"c", &mut dst).unwrap();
    assert_eq!((p.input_used, p.output_used, p.finished), (1, 1, true));
}

#[test]
fn head_request_has_no_body() {
    let mut r = body_engine(Method::HEAD);
    let mut dst = [0u8; 64];
    let input = b"HTTP/1.1 200 OK\r\nContent-Length: 10\r\n\r\n";
    let p = r.read_body(input, &mut dst).unwrap();
    assert_eq!((p.input_used, p.output_used, p.finished), (input.len(), 0, true));
    assert!(r.is_finished());
    assert!(r.finish().is_ok());
}

#[test]
fn chunked_body_byte_by_byte_small_destination() {
    let mut r = body_engine(Method::GET);
    let mut scratch = [0u8; 256];
    let head = b"HTTP/1.1 200 OK\r\nTransfer-Encoding: chunked\r\nContent-Length: 99\r\n\r\n";
    let p = r.read_body(head, &mut scratch).unwrap();
    assert_eq!(p.input_used, head.len());
    let body: &[u8] = b"5\r\nhello\r\n6;name=v\r\n world\r\n0\r\nTrailer: x\r\n\r\n";
    let mut out = Vec::new();
    let mut dst = [0u8; 2];
    let mut pos = 0;
    while pos < body.len() {
        assert!(!r.is_finished());
        let p = r.read_body(&body[pos..pos + 1], &mut dst).unwrap();
        out.extend_from_slice(&dst[..p.output_used]);
        pos += p.input_used;
        assert_eq!(p.input_used, 1);
        assert_eq!(p.finished, pos == body.len());
    }
    assert_eq!(out, b"hello world");
    assert!(r.is_finished());
    assert!(r.finish().is_ok());
}

#[test]
fn chunked_destination_full_pauses() {
    let mut r = body_engine(Method::GET);
    r.read_body(b"HTTP/1.1 200 OK\r\nTransfer-Encoding: gzip, Chunked\r\n\r\n", &mut [0u8; 256])
        .unwrap();
    let body: &[u8] = b"4\r\nabcd\r\n0\r\n\r\n";
    let mut dst = [0u8; 3];
    let p = r.read_body(body, &mut dst).unwrap();
    assert_eq!((p.input_used, p.output_used, p.finished), (6, 3, false));
    assert_eq!(&dst, b"abc");
    let p = r.read_body(&body[6..], &mut dst).unwrap();
    assert_eq!((p.input_used, p.output_used, p.finished), (body.len() - 6, 1, true));
    assert_eq!(dst[0], b'd');
}

#[test]
fn chunked_bad_size_is_an_error() {
    let mut r = body_engine(Method::GET);
    r.read_body(b"HTTP/1.1 200 OK\r\nTransfer-Encoding: chunked\r\n\r\n", &mut [0u8; 256])
        .unwrap();
    let e = r.read_body(b"zz\r\n", &mut [0u8; 16]).err();
    assert_eq!(e, Some(HootError::InvalidChunk));
}

#[test]
fn chunked_missing_delimiter_is_an_error() {
    let mut r = body_engine(Method::GET);
    r.read_body(b"HTTP/1.1 200 OK\r\nTransfer-Encoding: chunked\r\n\r\n", &mut [0u8; 256])
        .unwrap();
    let e = r.read_body(b"2\r\nabX", &mut [0u8; 16]).err();
    assert_eq!(e, Some(HootError::InvalidChunk));
}

#[test]
fn incomplete_head_in_read_body_uses_nothing() {
    let mut r = body_engine(Method::GET);
    let p = r.read_body(b"HTTP/1.1 200 O", &mut [0u8; 256]).unwrap();
    assert_eq!((p.input_used, p.output_used, p.finished), (0, 0, false));
}

#[test]
fn too_many_headers_for_scratch() {
    let mut r = Response::new_test();
    let mut buf = [0u8; 32];
    let e = r.try_read_response(b"HTTP/1.1 200 OK\r\nA: 1\r\nB: 2\r\n\r\n", &mut buf).err();
    assert_eq!(e, Some(HootError::TooManyHeaders));
}

#[test]
fn unsupported_version_is_rejected() {
    let mut r = Response::new_test();
    let mut buf = [0u8; 256];
    let e = r.try_read_response(b"HTTP/2.0 200 OK\r\n\r\n", &mut buf).err();
    assert_eq!(e, Some(HootError::Version));
}

#[test]
fn malformed_status_is_rejected() {
    let mut r = Response::new_test();
    let mut buf = [0u8; 256];
    let e = r.try_read_response(b"HTTP/1.1 2x0 OK\r\n\r\n", &mut buf).err();
    assert_eq!(e, Some(HootError::Parse));
}

#[test]
fn bad_content_length_is_rejected() {
    let mut r = Response::new_test();
    let mut buf = [0u8; 256];
    let e = r.try_read_response(b"HTTP/1.1 200 OK\r\nContent-Length: 1x\r\n\r\n", &mut buf).err();
    assert_eq!(e, Some(HootError::InvalidHeaderValue));
    let again = r.try_read_response(b"HTTP/1.1 200 OK\r\n\r\n", &mut buf).unwrap();
    assert!(again.is_success());
}

#[test]
fn next_after_attempts() {
    let mut buf = [0u8; 256];
    let mut r = Response::new_test();
    r.try_read_response(b"HTTP/1.1 200", &mut buf).unwrap();
    let mut r = r.next().unwrap_retry();
    r.try_read_response(b"HTTP/1.1 204 No Content\r\n\r\n", &mut buf).unwrap();
    let _ended = r.next().unwrap_no_body();
    let mut r = Response::new_test();
    r.try_read_response(b"HTTP/1.1 200 OK\r\nContent-Length: 2\r\n\r\n", &mut buf).unwrap();
    let mut body = r.next().unwrap_body();
    let p = body.read_body(b"ok", &mut buf).unwrap();
    assert!(p.finished);
    assert!(body.finish().is_ok());
}

#[test]
fn overrun_leaves_destination_untouched() {
    let mut r = body_engine(Method::GET);
    r.read_body(b"HTTP/1.1 200 OK\r\nContent-Length: 2\r\n\r\n", &mut [0u8; 64]).unwrap();
    let mut dst = [7u8; 8];
    assert_eq!(r.read_body(b"abc", &mut dst).err(), Some(HootError::RecvMoreThanContentLength));
    assert_eq!(dst, [7u8; 8]);
    assert!(!r.is_finished());
}

#[test]
fn copy_leaves_rest_of_destination() {
    let mut r = body_engine(Method::GET);
    r.read_body(b"HTTP/1.1 200 OK\r\n\r\n", &mut [0u8; 64]).unwrap();
    let mut dst = [7u8; 5];
    let p = r.read_body(b"ab", &mut dst).unwrap();
    assert_eq!((p.input_used, p.output_used, p.finished), (2, 2, false));
    assert_eq!(dst, [b'a', b'b', 7, 7, 7]);
}

#[test]
fn read_after_end_leaves_destination_untouched() {
    let mut r = body_engine(Method::GET);
    r.read_body(b"HTTP/1.1 200 OK\r\nContent-Length: 1\r\n\r\nz", &mut [0u8; 64]).unwrap();
    assert!(r.is_finished());
    let mut dst = [9u8; 4];
    let p = r.read_body(b"xyz", &mut dst).unwrap();
    assert_eq!((p.input_used, p.output_used, p.finished), (0, 0, true));
    assert_eq!(dst, [9u8; 4]);
}

#[test]
fn unresolved_mode_is_not_finished() {
    let r = body_engine(Method::GET);
    assert!(!r.is_finished());
    assert_eq!(r.finish().err(), Some(HootError::BodyNotFinished));
}
