use cabot::decoder::{HeaderStep, HttpDecoder, ProtocolFault, TransferEncoding};
use cabot::redirect::RedirectSignal;

/// Drives a decoder over `raw`, feeding `frag` bytes per read, and returns
/// the header bytes and body bytes handed to the sink.
fn decode_response(raw: &[u8], frag: usize) -> Result<(Vec<u8>, Vec<u8>), ProtocolFault> {
    let mut d = HttpDecoder::new();
    let mut pos = 0usize;
    let header;
    loop {
        match d.process_headers() {
            Ok(HeaderStep::NeedMore) => {
                if pos >= raw.len() {
                    panic!("input ended inside the headers");
                }
                let end = (pos + frag).min(raw.len());
                d.feed(&raw[pos..end]);
                pos = end;
            },
            Ok(HeaderStep::Headers(h)) => {
                header = h;
                break;
            },
            Ok(HeaderStep::Redirect(_)) => panic!("unexpected redirect"),
            Err(e) => return Err(e),
        }
    }
    let mut body = Vec::new();
    loop {
        let at_eof = pos >= raw.len();
        match d.body_step(at_eof) {
            Ok((out, done)) => {
                body.extend_from_slice(&out);
                if done || at_eof {
                    break;
                }
                let end = (pos + frag).min(raw.len());
                d.feed(&raw[pos..end]);
                pos = end;
            },
            Err(e) => return Err(e),
        }
    }
    Ok((header, body))
}

/// Drives only the header phase and returns the redirect signal.
fn decode_redirect(raw: &[u8]) -> RedirectSignal {
    let mut d = HttpDecoder::new();
    d.feed(raw);
    match d.process_headers() {
        Ok(HeaderStep::Redirect(sig)) => sig,
        other => panic!("expected a redirect, got {:?}", other.map(|_| ())),
    }
}

#[test]
fn content_length_example() {
    let raw = b"HTTP/1.1 200 OK\r\nContent-Length: 5\r\n\r\nhello";
    let (header, body) = decode_response(raw, raw.len()).unwrap();
    assert_eq!(header, b"HTTP/1.1 200 OK\r\nContent-Length: 5\r\n\r\n".to_vec());
    assert_eq!(body, b"hello".to_vec());
    let mut sink = header.clone();
    sink.extend_from_slice(&body);
    assert_eq!(sink, raw.to_vec());
}

#[test]
fn content_length_any_fragmentation() {
    let raw = b"HTTP/1.1 200 OK\r\nContent-Length: 5\r\n\r\nhello";
    for frag in 1..=raw.len() {
        let (_, body) = decode_response(raw, frag).unwrap();
        assert_eq!(body, b"hello".to_vec(), "fragment size {}", frag);
    }
}

#[test]
fn content_length_zero_gives_an_empty_body() {
    let raw = b"HTTP/1.1 204 No Content\r\nContent-Length: 0\r\n\r\n";
    let (header, body) = decode_response(raw, raw.len()).unwrap();
    assert_eq!(header, raw.to_vec());
    assert!(body.is_empty());
}

#[test]
fn chunked_example() {
    let raw = b"HTTP/1.1 200 OK\r\nTransfer-Encoding: chunked\r\n\r\n4\r\nWiki\r\n5\r\npedia\r\n0\r\n\r\n";
    let (header, body) = decode_response(raw, raw.len()).unwrap();
    assert_eq!(header, b"HTTP/1.1 200 OK\r\nTransfer-Encoding: chunked\r\n\r\n".to_vec());
    assert_eq!(body, b"Wikipedia".to_vec());
}

#[test]
fn chunked_any_fragmentation() {
    let raw = b"HTTP/1.1 200 OK\r\nTransfer-Encoding: chunked\r\n\r\n4\r\nWiki\r\n5\r\npedia\r\n0\r\n\r\n";
    for frag in 1..=raw.len() {
        let (_, body) = decode_response(raw, frag).unwrap();
        assert_eq!(body, b"Wikipedia".to_vec(), "fragment size {}", frag);
    }
}

#[test]
fn chunked_hex_sizes() {
    let mut raw = b"HTTP/1.1 200 OK\r\nTransfer-Encoding: chunked\r\n\r\nA\r\n0123456789\r\n10\r\n".to_vec();
    raw.extend_from_slice(&[b'x'; 16]);
    raw.extend_from_slice(b"\r\n0\r\n\r\n");
    let (_, body) = decode_response(&raw, 3).unwrap();
    let mut expected = b"0123456789".to_vec();
    expected.extend_from_slice(&[b'x'; 16]);
    assert_eq!(body, expected);
}

#[test]
fn chunked_terminator_leaves_nothing_unconsumed() {
    let mut d = HttpDecoder::new();
    d.feed(b"HTTP/1.1 200 OK\r\nTransfer-Encoding: chunked\r\n\r\n");
    assert!(matches!(d.process_headers(), Ok(HeaderStep::Headers(_))));
    d.feed(b"4\r\nWiki\r\n0\r\n\r\n");
    let (out, done) = d.process_chunk().unwrap();
    assert_eq!(out, b"Wiki".to_vec());
    assert!(done);
    assert!(d.buffer.is_empty());
}

#[test]
fn trailers_after_the_terminator_are_discarded() {
    let mut d = HttpDecoder::new();
    d.feed(b"HTTP/1.1 200 OK\r\nTransfer-Encoding: chunked\r\n\r\n");
    assert!(matches!(d.process_headers(), Ok(HeaderStep::Headers(_))));
    d.feed(b"2\r\nok\r\n0\r\nX-Trailer: ignored\r\n\r\n");
    let (out, done) = d.process_chunk().unwrap();
    assert_eq!(out, b"ok".to_vec());
    assert!(done);
    assert!(d.buffer.is_empty());
}

#[test]
fn body_without_framing_runs_to_eof() {
    let raw = b"HTTP/1.1 200 OK\r\nServer: x\r\n\r\nuntil the end";
    let (_, body) = decode_response(raw, 4).unwrap();
    assert_eq!(body, b"until the end".to_vec());
}

#[test]
fn unknown_transfer_encoding_runs_to_eof() {
    let raw = b"HTTP/1.1 200 OK\r\nTransfer-Encoding: gzip\r\n\r\nopaque bytes";
    let mut d = HttpDecoder::new();
    d.feed(raw);
    match d.process_headers() {
        Ok(HeaderStep::Headers(_)) => {},
        other => panic!("unexpected {:?}", other.map(|_| ())),
    }
    assert_eq!(d.transfer_encoding, TransferEncoding::Unknown);
    let (_, body) = decode_response(raw, raw.len()).unwrap();
    assert_eq!(body, b"opaque bytes".to_vec());
}

#[test]
fn header_names_match_in_any_case() {
    let raw = b"HTTP/1.1 200 OK\r\nTRANSFER-ENCODING: CHUNKED\r\n\r\n2\r\nok\r\n0\r\n\r\n";
    let (_, body) = decode_response(raw, raw.len()).unwrap();
    assert_eq!(body, b"ok".to_vec());
}

#[test]
fn redirect_302_signals_found() {
    let raw = b"HTTP/1.1 302 Found\r\nLocation: http://example.com/next\r\n\r\n";
    match decode_redirect(raw) {
        RedirectSignal::Found(url) => assert_eq!(url, b"http://example.com/next".to_vec()),
        _ => panic!("expected Found"),
    }
}

#[test]
fn redirect_codes_map_to_signals() {
    let cases: [(&[u8], fn(&RedirectSignal) -> bool); 5] = [
        (b"301", |s| matches!(s, RedirectSignal::MovedPermanently(_))),
        (b"302", |s| matches!(s, RedirectSignal::Found(_))),
        (b"303", |s| matches!(s, RedirectSignal::SeeOther(_))),
        (b"307", |s| matches!(s, RedirectSignal::TemporaryRedirect(_))),
        (b"308", |s| matches!(s, RedirectSignal::PermanentRedirect(_))),
    ];
    for (code, check) in cases {
        let mut raw = b"HTTP/1.1 ".to_vec();
        raw.extend_from_slice(code);
        raw.extend_from_slice(b" Moved\r\nLocation: /elsewhere\r\n\r\n");
        let sig = decode_redirect(&raw);
        assert!(check(&sig), "status {:?}", code);
    }
}

#[test]
fn redirect_without_location_is_an_ordinary_response() {
    let raw = b"HTTP/1.1 302 Found\r\nContent-Length: 2\r\n\r\nno";
    let (_, body) = decode_response(raw, raw.len()).unwrap();
    assert_eq!(body, b"no".to_vec());
}

#[test]
fn malformed_status_line_is_a_fault() {
    let mut d = HttpDecoder::new();
    d.feed(b"HTTP/1.1 2\r\n\r\n");
    assert!(matches!(d.process_headers(), Err(ProtocolFault::MalformedStatus)));
    let mut d = HttpDecoder::new();
    d.feed(b"HTTP/1.1 2xx Bad\r\n\r\n");
    assert!(matches!(d.process_headers(), Err(ProtocolFault::MalformedStatus)));
}

#[test]
fn unparseable_content_length_is_a_fault() {
    let mut d = HttpDecoder::new();
    d.feed(b"HTTP/1.1 200 OK\r\nContent-Length: 12x\r\n\r\n");
    assert!(matches!(d.process_headers(), Err(ProtocolFault::BadContentLength)));
}

#[test]
fn bad_chunk_size_is_a_fault() {
    let raw = b"HTTP/1.1 200 OK\r\nTransfer-Encoding: chunked\r\n\r\nzz\r\nWiki\r\n0\r\n\r\n";
    assert_eq!(decode_response(raw, raw.len()), Err(ProtocolFault::BadChunkSize));
}

#[test]
fn chunk_extension_is_rejected() {
    let raw = b"HTTP/1.1 200 OK\r\nTransfer-Encoding: chunked\r\n\r\n4;a=b\r\nWiki\r\n0\r\n\r\n";
    assert_eq!(decode_response(raw, raw.len()), Err(ProtocolFault::BadChunkSize));
}
