use h2tp::err::ParseError;
use h2tp::headers::Headers;
use h2tp::request::Request;
use h2tp::source::MemSource;
use h2tp::uricoding::{decode_uri, encode_uri, encode_uri_component};

fn parse_ok(bytes: &[u8], sizes: Vec<usize>) -> (Request, MemSource) {
    let mut req = Request::new();
    let mut src = MemSource::new(bytes.to_vec(), sizes);
    let r = req.from(&mut src);
    assert!(r.is_none(), "expected a successful parse");
    (req, src)
}

fn parse_err(bytes: &[u8], sizes: Vec<usize>) -> ParseError {
    let mut req = Request::new();
    let mut src = MemSource::new(bytes.to_vec(), sizes);
    req.from(&mut src).expect("expected a parse error")
}

#[test]
fn test_encode_uri() {
    let mut dist: Vec<u8> = Vec::with_capacity(100);
    encode_uri(&mut dist, "ABC abc 123😄".as_bytes());
    println!("{}", String::from_utf8(dist).unwrap());
}

#[test]
fn encode_uri_exact() {
    let mut dist: Vec<u8> = Vec::new();
    encode_uri(&mut dist, "ABC abc 123😄".as_bytes());
    assert_eq!(dist.as_slice(), b"ABC%20abc%20123%F0%9F%98%84".as_slice());
}

#[test]
fn encode_uri_excepted_set_passes_through() {
    let mut dist: Vec<u8> = Vec::new();
    encode_uri(&mut dist, b";,/?:@&=+$-_.!~*'()#Az09");
    assert_eq!(dist.as_slice(), b";,/?:@&=+$-_.!~*'()#Az09".as_slice());
}

#[test]
fn encode_uri_component_and_decode_uri_are_stubs() {
    let mut dist: Vec<u8> = b"keep".to_vec();
    encode_uri_component(&mut dist, b"xyz");
    assert_eq!(dist.as_slice(), b"keep".as_slice());
    decode_uri(&mut dist, b"%41");
    assert_eq!(dist.as_slice(), b"keep".as_slice());
}

#[test]
fn basic_round_trip() {
    let (req, _) = parse_ok(b"GET /x HTTP/1.1\r\nHost: h\r\n\r\n", vec![]);
    assert_eq!(req.method().as_slice(), b"GET");
    assert_eq!(req.path().as_slice(), b"/x");
    assert_eq!(req.version().as_slice(), b"HTTP/1.1");
    let vals = req.headers().get_all(&b"host".to_vec());
    assert_eq!(vals.len(), 1);
    assert_eq!(vals[0].as_slice(), b"h");
    assert_eq!(req.body().len(), 0);
}

#[test]
fn sized_body_single_read() {
    let msg = b"POST /u HTTP/1.1\r\nContent-Length: 5\r\n\r\nhello";
    let (req, _) = parse_ok(msg, vec![]);
    assert_eq!(req.body().as_slice(), b"hello");
}

#[test]
fn sized_body_in_later_read() {
    // Headers arrive in one read, the body in a later one.
    let msg = b"POST /u HTTP/1.1\r\nContent-Length: 5\r\n\r\nhello";
    let head_len = msg.len() - 5;
    let (req, _) = parse_ok(msg, vec![head_len]);
    assert_eq!(req.body().as_slice(), b"hello");
    assert_eq!(req.method().as_slice(), b"POST");
}

#[test]
fn sized_body_consumes_exactly_declared_length() {
    // Bytes past the declared length stay unread for the next request.
    let msg = b"POST /u HTTP/1.1\r\nContent-Length: 5\r\n\r\nhelloEXTRA";
    let (req, _) = parse_ok(msg, vec![]);
    assert_eq!(req.body().as_slice(), b"hello");
}

#[test]
fn fragmented_reads_match_single_read() {
    let msg: &[u8] = b"POST /frag HTTP/1.1\r\nHost: example\r\nContent-Length: 9\r\n\r\nfragments";
    let (whole, _) = parse_ok(msg, vec![]);
    // One byte per read.
    let (bytewise, _) = parse_ok(msg, vec![1; msg.len()]);
    assert_eq!(whole.method(), bytewise.method());
    assert_eq!(whole.path(), bytewise.path());
    assert_eq!(whole.version(), bytewise.version());
    assert_eq!(whole.body(), bytewise.body());
    // Every split point.
    for cut in 1..msg.len() {
        let (split, _) = parse_ok(msg, vec![cut]);
        assert_eq!(whole.method(), split.method());
        assert_eq!(whole.path(), split.path());
        assert_eq!(whole.version(), split.version());
        assert_eq!(whole.body(), split.body());
        let h = split.headers().get_all(&b"host".to_vec());
        assert_eq!(h.len(), 1);
        assert_eq!(h[0].as_slice(), b"example");
    }
}

#[test]
fn chunked_body_decodes_to_payload_concatenation() {
    let msg = b"POST /c HTTP/1.1\r\nTransfer-Encoding: chunked\r\n\r\n4\r\nWiki\r\n5\r\npedia\r\n0\r\n\r\n";
    let (req, _) = parse_ok(msg, vec![]);
    assert_eq!(req.body().as_slice(), b"Wikipedia");
}

#[test]
fn chunked_body_hexadecimal_sizes() {
    // Sizes are hexadecimal: "a" and "A" both mean ten.
    let msg = b"POST /c HTTP/1.1\r\nTransfer-Encoding: chunked\r\n\r\na\r\n0123456789\r\n0\r\n\r\n";
    let (req, _) = parse_ok(msg, vec![]);
    assert_eq!(req.body().as_slice(), b"0123456789");
    let msg2 = b"POST /c HTTP/1.1\r\nTransfer-Encoding: chunked\r\n\r\nA\r\nabcdefghij\r\n0\r\n\r\n";
    let (req2, _) = parse_ok(msg2, vec![]);
    assert_eq!(req2.body().as_slice(), b"abcdefghij");
}

#[test]
fn chunked_body_fragmented() {
    let msg: &[u8] = b"POST /c HTTP/1.1\r\nTransfer-Encoding: chunked\r\n\r\n4\r\nWiki\r\n5\r\npedia\r\n0\r\n\r\n";
    let (req, _) = parse_ok(msg, vec![1; msg.len()]);
    assert_eq!(req.body().as_slice(), b"Wikipedia");
}

#[test]
fn malformed_chunk_size_negative() {
    let e = parse_err(
        b"POST /c HTTP/1.1\r\nTransfer-Encoding: chunked\r\n\r\n-5\r\nhello\r\n0\r\n\r\n",
        vec![],
    );
    assert!(e.is_violation());
}

#[test]
fn malformed_chunk_size_non_hexadecimal() {
    let e = parse_err(
        b"POST /c HTTP/1.1\r\nTransfer-Encoding: chunked\r\n\r\nzz\r\nhello\r\n0\r\n\r\n",
        vec![],
    );
    assert!(e.is_violation());
}

#[test]
fn chunk_missing_terminator_is_violation() {
    let e = parse_err(
        b"POST /c HTTP/1.1\r\nTransfer-Encoding: chunked\r\n\r\n4\r\nWikiXY0\r\n\r\n",
        vec![],
    );
    assert!(e.is_violation());
}

#[test]
fn early_close_mid_headers() {
    let e = parse_err(b"GET /x HT", vec![]);
    assert!(e.is_empty());
    assert!(!e.is_violation());
    assert!(!e.is_io());
}

#[test]
fn early_close_mid_body() {
    let e = parse_err(b"POST /u HTTP/1.1\r\nContent-Length: 10\r\n\r\nabc", vec![]);
    assert!(e.is_empty());
}

#[test]
fn early_close_on_empty_stream() {
    let e = parse_err(b"", vec![]);
    assert!(e.is_empty());
}

#[test]
fn duplicate_headers_kept_in_insertion_order() {
    let msg = b"GET / HTTP/1.1\r\nX-Foo: one\r\nX-Foo: two\r\n\r\n";
    let (req, _) = parse_ok(msg, vec![]);
    let vals = req.headers().get_all(&b"x-foo".to_vec());
    assert_eq!(vals.len(), 2);
    assert_eq!(vals[0].as_slice(), b"one");
    assert_eq!(vals[1].as_slice(), b"two");
}

#[test]
fn reuse_after_clear_matches_fresh_parse() {
    let a: &[u8] = b"POST /a HTTP/1.1\r\nContent-Length: 3\r\n\r\nabc";
    let b: &[u8] = b"GET /b HTTP/1.1\r\nHost: h2\r\n\r\n";
    let mut req = Request::new();
    let mut src_a = MemSource::new(a.to_vec(), vec![]);
    assert!(req.from(&mut src_a).is_none());
    req.clear();
    assert!(req.ready());
    let mut src_b = MemSource::new(b.to_vec(), vec![]);
    assert!(req.from(&mut src_b).is_none());
    let (fresh, _) = parse_ok(b, vec![]);
    assert_eq!(req.method(), fresh.method());
    assert_eq!(req.path(), fresh.path());
    assert_eq!(req.version(), fresh.version());
    assert_eq!(req.body(), fresh.body());
    assert_eq!(
        req.headers().get_all(&b"host".to_vec()),
        fresh.headers().get_all(&b"host".to_vec()),
    );
}

#[test]
fn missing_lf_after_cr_is_violation() {
    let e = parse_err(b"GET /x HTTP/1.1\rX", vec![]);
    assert!(e.is_violation());
}

#[test]
fn header_line_without_colon_is_violation() {
    let e = parse_err(b"GET / HTTP/1.1\r\nBadHeader\r\n\r\n", vec![]);
    assert!(e.is_violation());
}

#[test]
fn header_with_empty_value_is_violation() {
    let e = parse_err(b"GET / HTTP/1.1\r\nX-Foo:\r\n\r\n", vec![]);
    assert!(e.is_violation());
}

#[test]
fn invalid_content_length_is_violation() {
    let e = parse_err(b"POST / HTTP/1.1\r\nContent-Length: abc\r\n\r\n", vec![]);
    assert!(e.is_violation());
}

#[test]
fn content_length_zero_gives_empty_body() {
    let (req, _) = parse_ok(b"POST / HTTP/1.1\r\nContent-Length: 0\r\n\r\n", vec![]);
    assert_eq!(req.body().len(), 0);
}

#[test]
fn header_names_normalized_values_trimmed() {
    let msg = b"GET / HTTP/1.1\r\n  HoSt  :   h  \r\n\r\n";
    let (req, _) = parse_ok(msg, vec![]);
    let vals = req.headers().get_all(&b"host".to_vec());
    assert_eq!(vals.len(), 1);
    assert_eq!(vals[0].as_slice(), b"h");
}

#[test]
fn transfer_encoding_case_insensitive() {
    let msg = b"POST / HTTP/1.1\r\nTransfer-Encoding: CHUNKED\r\n\r\n0\r\n\r\n";
    let (req, _) = parse_ok(msg, vec![]);
    assert_eq!(req.body().len(), 0);
}

#[test]
fn header_store_direct_use() {
    let mut h = Headers::new();
    h.append(&b"  X-Foo ".to_vec(), &b" v ".to_vec());
    h.append(&b"Content-Length".to_vec(), &b"12".to_vec());
    let vals = h.get_all(&b"x-foo".to_vec());
    assert_eq!(vals.len(), 1);
    assert_eq!(vals[0].as_slice(), b"v");
    assert_eq!(h.len(), 2);
    assert!(h.get_first(&b"content-length".to_vec()).is_some());
    h.clear();
    assert_eq!(h.len(), 0);
}

#[test]
fn parse_error_kinds() {
    let io = ParseError::ioe(String::from("broken pipe"));
    assert!(io.is_io());
    assert!(!io.is_empty());
    assert!(!io.is_violation());
    assert_eq!(io.describe(), "broken pipe");
    let ue = ParseError::ue("bad request");
    assert!(ue.is_violation());
    assert!(!ue.is_empty());
    assert_eq!(ue.describe(), "bad request");
    let empty = ParseError::empty();
    assert!(empty.is_empty());
    assert_eq!(empty.describe(), "empty parse error");
}
