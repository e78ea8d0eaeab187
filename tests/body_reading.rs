use minihttp::accumulator::AccReader;
use minihttp::body::{Body, BodyError, Length};
use minihttp::chunk::chunk_frame;
use minihttp::transport::{Transport, TransportError};
use minihttp::HasLength;

/// Hands out the given pieces one per read, then signals end-of-stream;
/// fails every read once `fail_after` pieces have been handed out.
struct Script {
    parts: Vec<Vec<u8>>,
    next: usize,
    fail_after: Option<usize>,
    reads: usize,
}

impl Transport for Script {
    fn read_some(&mut self) -> Result<Vec<u8>, TransportError> {
        self.reads += 1;
        if let Some(limit) = self.fail_after {
            if self.next >= limit {
                return Err(TransportError { description: String::from("connection reset") });
            }
        }
        if self.next < self.parts.len() {
            self.next += 1;
            Ok(self.parts[self.next - 1].clone())
        } else {
            Ok(Vec::new())
        }
    }

    fn write_all(&mut self, _data: &[u8]) -> Result<(), TransportError> {
        Ok(())
    }
}

fn script(parts: Vec<Vec<u8>>) -> Script {
    Script { parts, next: 0, fail_after: None, reads: 0 }
}

fn whole(bytes: &[u8]) -> Script {
    script(vec![bytes.to_vec()])
}

fn bytewise(bytes: &[u8]) -> Script {
    script(bytes.iter().map(|b| vec![*b]).collect())
}

fn body_over(t: Script, length: Length) -> Body<Script> {
    Body::new(AccReader::new(t), length, false)
}

/// Reads until a read returns zero, `max` bytes at a time.
fn read_all(body: &mut Body<Script>, max: usize) -> Result<Vec<u8>, BodyError> {
    let mut out = Vec::new();
    for _ in 0..100_000 {
        let n = body.read(&mut out, max)?;
        if n == 0 {
            return Ok(out);
        }
    }
    panic!("body never ended");
}

#[test]
fn chunked_hello_then_end() {
    let mut body = body_over(whole(b"5\r\nhello\r\n0\r\n\r\n"), Length::Chunked(0));
    let mut out = Vec::new();
    assert_eq!(body.read(&mut out, 64).unwrap(), 5);
    assert_eq!(out, b"hello".to_vec());
    assert_eq!(body.length(), Length::Chunked(0));
    assert_eq!(body.read(&mut out, 64).unwrap(), 0);
    assert_eq!(body.read(&mut out, 64).unwrap(), 0);
    assert_eq!(out, b"hello".to_vec());
    assert_eq!(body.length(), Length::Chunked(0));
}

#[test]
fn chunked_hello_one_byte_per_read() {
    let mut body = body_over(bytewise(b"5\r\nhello\r\n0\r\n\r\n"), Length::Chunked(0));
    assert_eq!(read_all(&mut body, 64).unwrap(), b"hello".to_vec());
    assert_eq!(body.length(), Length::Chunked(0));
}

#[test]
fn content_length_in_small_increments() {
    let data = b"The quick brown fox jumps over the lazy dog";
    for n in [0usize, 1, 7, 20, data.len()] {
        for step in [1usize, 2, 3, 64] {
            let mut body = body_over(bytewise(data), Length::ContentLength(n));
            let got = read_all(&mut body, step).unwrap();
            assert_eq!(got, data[..n].to_vec());
            assert_eq!(body.length(), Length::ContentLength(0));
        }
    }
}

#[test]
fn content_length_truncated_by_eof() {
    let mut body = body_over(whole(b"abc"), Length::ContentLength(10));
    assert_eq!(read_all(&mut body, 4).unwrap(), b"abc".to_vec());
    assert_eq!(body.length(), Length::ContentLength(7));
    assert!(body.at_eof());
}

#[test]
fn content_length_leaves_following_bytes() {
    let mut body = body_over(whole(b"abcdefNEXT"), Length::ContentLength(6));
    assert_eq!(read_all(&mut body, 100).unwrap(), b"abcdef".to_vec());
    let reader = body.into_inner();
    assert_eq!(reader.buffer(), b"NEXT");
}

#[test]
fn no_body_reads_nothing() {
    let mut body = body_over(whole(b"5\r\nhello\r\n0\r\n\r\n"), Length::NoBody);
    let mut out = Vec::new();
    assert_eq!(body.read(&mut out, 64).unwrap(), 0);
    assert!(out.is_empty());
    assert_eq!(body.into_inner().into_inner().reads, 0);
}

fn encode(chunks: &[&[u8]]) -> Vec<u8> {
    let mut wire = Vec::new();
    for c in chunks {
        wire.extend_from_slice(&chunk_frame(c));
    }
    wire.extend_from_slice(&chunk_frame(&[]));
    wire
}

#[test]
fn chunked_round_trip_any_fragmentation() {
    let big: Vec<u8> = (0..300u32).map(|i| (i * 7 % 251) as u8).collect();
    let cases: Vec<Vec<&[u8]>> = vec![
        vec![],
        vec![b"a"],
        vec![b"hello", b" ", b"world"],
        vec![&big[..17], &big[17..18], &big[18..]],
        vec![&big[..]],
    ];
    for chunks in cases {
        let wire = encode(&chunks);
        let expected: Vec<u8> = chunks.concat();
        for max in [1usize, 2, 5, 1000] {
            let mut all_at_once = body_over(whole(&wire), Length::Chunked(0));
            let mut byte_by_byte = body_over(bytewise(&wire), Length::Chunked(0));
            assert_eq!(read_all(&mut all_at_once, max).unwrap(), expected);
            assert_eq!(read_all(&mut byte_by_byte, max).unwrap(), expected);
            assert_eq!(all_at_once.length(), Length::Chunked(0));
            assert_eq!(byte_by_byte.length(), Length::Chunked(0));
        }
    }
}

#[test]
fn chunk_size_line_with_extension_and_uppercase() {
    let wire = b"A;name=value\r\n0123456789\r\n0\r\n\r\n";
    let mut body = body_over(bytewise(wire), Length::Chunked(0));
    assert_eq!(read_all(&mut body, 3).unwrap(), b"0123456789".to_vec());
}

#[test]
fn malformed_chunk_size_is_framing_error() {
    let mut body = body_over(whole(b"zz\r\nhello\r\n0\r\n\r\n"), Length::Chunked(0));
    let mut out = Vec::new();
    assert!(matches!(body.read(&mut out, 64), Err(BodyError::InvalidChunkSize)));
    assert!(out.is_empty());

    let mut body = body_over(bytewise(b"5x\r\nhello\r\n"), Length::Chunked(0));
    assert!(matches!(body.read(&mut out, 64), Err(BodyError::InvalidChunkSize)));

    let mut body = body_over(whole(b"5\rXhello"), Length::Chunked(0));
    assert!(matches!(body.read(&mut out, 64), Err(BodyError::InvalidChunkSize)));
}

#[test]
fn bad_chunk_terminator_is_framing_error() {
    let mut body = body_over(whole(b"5\r\nhelloXY"), Length::Chunked(0));
    let mut out = Vec::new();
    assert!(matches!(body.read(&mut out, 64), Err(BodyError::InvalidChunkEnd)));
    assert!(out.is_empty());

    let mut body = body_over(bytewise(b"5\r\nhello"), Length::Chunked(0));
    assert!(matches!(body.read(&mut out, 64), Err(BodyError::InvalidChunkEnd)));
}

#[test]
fn partial_chunk_read_stops_before_terminator() {
    let mut body = body_over(whole(b"5\r\nhelloXY"), Length::Chunked(0));
    let mut out = Vec::new();
    assert_eq!(body.read(&mut out, 3).unwrap(), 3);
    assert_eq!(out, b"hel".to_vec());
    assert_eq!(body.length(), Length::Chunked(2));
    assert!(matches!(body.read(&mut out, 3), Err(BodyError::InvalidChunkEnd)));
}

#[test]
fn eof_inside_chunk_reports_remaining() {
    let mut body = body_over(whole(b"a\r\nabc"), Length::Chunked(0));
    assert_eq!(read_all(&mut body, 64).unwrap(), b"abc".to_vec());
    assert_eq!(body.length(), Length::Chunked(7));
}

#[test]
fn transport_error_is_reported() {
    let t = Script { parts: vec![b"5\r\nhe".to_vec()], next: 0, fail_after: Some(1), reads: 0 };
    let mut body = body_over(t, Length::Chunked(0));
    let mut out = Vec::new();
    assert!(matches!(body.read(&mut out, 64), Err(BodyError::Transport(_))));
    assert!(out.is_empty());
    assert_eq!(body.length(), Length::Chunked(5));
}

#[test]
fn peek_then_consume_content_length() {
    let mut body = body_over(script(vec![b"hel".to_vec(), b"lo world".to_vec()]), Length::ContentLength(5));
    let view = body.fill_buf().unwrap();
    assert_eq!(view, b"hel".to_vec());
    body.consume(3).unwrap();
    assert_eq!(body.length(), Length::ContentLength(2));
    let view = body.fill_buf().unwrap();
    assert_eq!(view, b"lo".to_vec());
    body.consume(2).unwrap();
    assert_eq!(body.length(), Length::ContentLength(0));
    assert!(body.fill_buf().unwrap().is_empty());
}

#[test]
fn peek_then_consume_chunked() {
    let mut body = body_over(bytewise(b"3\r\nabc\r\n2\r\nde\r\n0\r\n\r\n"), Length::Chunked(0));
    let mut out = Vec::new();
    loop {
        let view = body.fill_buf().unwrap();
        if view.is_empty() {
            break;
        }
        out.extend_from_slice(&view);
        body.consume(view.len()).unwrap();
    }
    assert_eq!(out, b"abcde".to_vec());
    assert_eq!(body.length(), Length::Chunked(0));
}

#[test]
fn consume_rejects_bad_terminator() {
    let mut body = body_over(whole(b"3\r\nabc!!"), Length::Chunked(0));
    let view = body.fill_buf().unwrap();
    assert_eq!(view, b"abc".to_vec());
    assert!(matches!(body.consume(3), Err(BodyError::InvalidChunkEnd)));
}

#[test]
fn peek_no_body_is_empty() {
    let mut body = body_over(whole(b"data"), Length::NoBody);
    assert!(body.fill_buf().unwrap().is_empty());
}

#[test]
fn body_has_length_only_for_content_length() {
    assert_eq!(body_over(whole(b""), Length::ContentLength(12)).has_length(), Some(12));
    assert_eq!(body_over(whole(b""), Length::Chunked(0)).has_length(), None);
    assert_eq!(body_over(whole(b""), Length::NoBody).has_length(), None);
    assert_eq!(vec![1u8, 2, 3].has_length(), Some(3));
    let s: &[u8] = b"abcd";
    assert_eq!(s.has_length(), Some(4));
}

#[test]
fn chunk_size_beyond_sixteen_digits_is_rejected() {
    let mut body = body_over(whole(b"00000000000000001\r\nx\r\n"), Length::Chunked(0));
    let mut out = Vec::new();
    assert!(matches!(body.read(&mut out, 64), Err(BodyError::InvalidChunkSize)));

    let mut body = body_over(whole(b"0000000000000001\r\nx\r\n0\r\n\r\n"), Length::Chunked(0));
    assert_eq!(read_all(&mut body, 64).unwrap(), b"x".to_vec());
}

#[test]
fn settled_reads_never_touch_a_failing_transport() {
    // Every low-level read after the first fails.
    let failing = |bytes: &[u8]| Script { parts: vec![bytes.to_vec()], next: 0, fail_after: Some(1), reads: 0 };

    let mut body = body_over(failing(b"abcREST"), Length::ContentLength(3));
    let mut out = Vec::new();
    assert_eq!(body.read(&mut out, 10).unwrap(), 3);
    assert_eq!(body.read(&mut out, 10).unwrap(), 0);
    assert_eq!(body.fill_buf().unwrap(), Vec::<u8>::new());
    assert_eq!(out, b"abc".to_vec());
    let reader = body.into_inner();
    assert_eq!(reader.buffer(), b"REST");
    assert_eq!(reader.into_inner().reads, 1);

    let mut body = body_over(failing(b"5\r\nhello\r\n0\r\n\r\n"), Length::Chunked(0));
    let mut out = Vec::new();
    assert_eq!(body.read(&mut out, 64).unwrap(), 5);
    assert_eq!(body.read(&mut out, 64).unwrap(), 0);
    assert_eq!(body.read(&mut out, 64).unwrap(), 0);
    assert_eq!(body.into_inner().into_inner().reads, 1);

    let mut body = body_over(failing(b"zz\r\n"), Length::Chunked(0));
    assert!(matches!(body.read(&mut Vec::new(), 64), Err(BodyError::InvalidChunkSize)));
    assert_eq!(body.length(), Length::Chunked(0));
}

#[test]
fn after_end_of_stream_no_more_reads() {
    let mut body = body_over(whole(b"ab"), Length::ContentLength(5));
    let mut out = Vec::new();
    assert_eq!(read_all(&mut body, 1).unwrap(), b"ab".to_vec());
    let reads = {
        let r = body.read(&mut out, 4).unwrap();
        assert_eq!(r, 0);
        body.into_inner().into_inner().reads
    };
    assert_eq!(reads, 2);
}

#[test]
fn empty_transport_read_keeps_remaining() {
    let mut body = body_over(script(vec![]), Length::ContentLength(4));
    let mut out = Vec::new();
    assert_eq!(body.read(&mut out, 4).unwrap(), 0);
    assert_eq!(body.length(), Length::ContentLength(4));
    assert!(body.at_eof());

    let mut body = body_over(script(vec![b"1".to_vec(), b"0".to_vec()]), Length::Chunked(0));
    assert!(body.fill_buf().unwrap().is_empty());
    assert_eq!(body.length(), Length::Chunked(0));
    assert!(body.at_eof());
}

#[test]
fn fill_buf_offers_first_chunk() {
    let mut body = body_over(whole(b"5\r\nhello\r\n0\r\n\r\n"), Length::Chunked(0));
    assert_eq!(body.fill_buf().unwrap(), b"hello".to_vec());
    assert_eq!(body.length(), Length::Chunked(5));
    assert_eq!(body.into_inner().buffer(), b"hello\r\n0\r\n\r\n");
}

#[test]
fn transport_error_while_reading_head_is_not_truncation() {
    let t = Script { parts: vec![], next: 0, fail_after: Some(0), reads: 0 };
    let mut acc = AccReader::new(t);
    assert!(matches!(
        minihttp::server::read_request_head(&mut acc),
        Err(minihttp::server::HeadError::Transport(_))
    ));
}
