use minihttp::accumulator::AccReader;
use minihttp::body::{Body, Length};
use minihttp::headers::body_length;
use minihttp::server::{read_request_head, HeadError};
use minihttp::transport::{Transport, TransportError};

struct Feed {
    parts: Vec<Vec<u8>>,
    next: usize,
}

impl Transport for Feed {
    fn read_some(&mut self) -> Result<Vec<u8>, TransportError> {
        if self.next < self.parts.len() {
            self.next += 1;
            Ok(self.parts[self.next - 1].clone())
        } else {
            Ok(Vec::new())
        }
    }

    fn write_all(&mut self, _data: &[u8]) -> Result<(), TransportError> {
        Ok(())
    }
}

fn bytewise(bytes: &[u8]) -> Feed {
    Feed { parts: bytes.iter().map(|b| vec![*b]).collect(), next: 0 }
}

fn whole(bytes: &[u8]) -> Feed {
    Feed { parts: vec![bytes.to_vec()], next: 0 }
}

const POST: &[u8] = b"POST /upload HTTP/1.1\r\nHost: example.com\r\nContent-Length: 5\r\n\r\nhelloEXTRA";

#[test]
fn request_head_then_content_length_body() {
    for feed in [whole(POST), bytewise(POST)] {
        let mut acc = AccReader::new(feed);
        let head = read_request_head(&mut acc).unwrap();
        assert_eq!(head.method, "POST");
        assert_eq!(head.path, "/upload");
        assert_eq!(head.version, 1);
        assert_eq!(head.headers.len(), 2);
        assert_eq!(head.headers[0].name, b"Host".to_vec());
        assert_eq!(head.headers[1].value, b"5".to_vec());
        let length = body_length(&head.headers);
        assert_eq!(length, Length::ContentLength(5));
        let mut body = Body::new(acc, length, false);
        let mut out = Vec::new();
        while body.read(&mut out, 2).unwrap() > 0 {}
        assert_eq!(out, b"hello".to_vec());
    }
}

#[test]
fn request_head_then_chunked_body() {
    let wire = b"PUT /x HTTP/1.0\r\nTransfer-Encoding: chunked\r\n\r\n3\r\nabc\r\n0\r\n\r\n";
    let mut acc = AccReader::new(bytewise(wire));
    let head = read_request_head(&mut acc).unwrap();
    assert_eq!(head.version, 0);
    let mut body = Body::new(acc, body_length(&head.headers), false);
    let mut out = Vec::new();
    while body.read(&mut out, 100).unwrap() > 0 {}
    assert_eq!(out, b"abc".to_vec());
}

#[test]
fn request_head_truncated() {
    let mut acc = AccReader::new(whole(b"GET / HTTP/1.1\r\nHost: a"));
    assert!(matches!(read_request_head(&mut acc), Err(HeadError::Truncated)));
    assert_eq!(acc.available(), 23);
}

#[test]
fn request_head_invalid() {
    let mut acc = AccReader::new(whole(b"GET / HTTP/9.9\r\n\r\n"));
    assert!(matches!(read_request_head(&mut acc), Err(HeadError::Parser(_))));
}

#[test]
fn buffered_preamble_needs_no_read() {
    let mut acc = AccReader::new(whole(b"GET / HTTP/1.1\r\n\r\nrest"));
    acc.fill().unwrap();
    let head = read_request_head(&mut acc).unwrap();
    assert_eq!(head.method, "GET");
    assert_eq!(acc.buffer(), b"rest");
    assert_eq!(acc.into_inner().next, 1);
}
