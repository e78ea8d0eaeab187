use minihttp::body::Length;
use minihttp::chunk::chunk_frame;
use minihttp::framing::framing_header;
use minihttp::headers::{body_length, parse_content_length, value_lists_chunked, Header};

fn header(name: &str, value: &str) -> Header {
    Header { name: name.as_bytes().to_vec(), value: value.as_bytes().to_vec() }
}

#[test]
fn chunk_frame_writes_hex_length() {
    assert_eq!(chunk_frame(b"hello"), b"5\r\nhello\r\n".to_vec());
    assert_eq!(chunk_frame(&[7u8; 26]), [b"1a\r\n".to_vec(), vec![7u8; 26], b"\r\n".to_vec()].concat());
    assert_eq!(chunk_frame(&[0u8; 256])[..5], b"100\r\n"[..]);
    assert_eq!(chunk_frame(b""), b"0\r\n\r\n".to_vec());
}

#[test]
fn framing_header_lines() {
    assert_eq!(framing_header(Some(0)), b"Content-Length: 0\r\n".to_vec());
    assert_eq!(framing_header(Some(1234)), b"Content-Length: 1234\r\n".to_vec());
    assert_eq!(framing_header(None), b"Transfer-Encoding: Chunked\r\n".to_vec());
}

#[test]
fn content_length_numbers() {
    assert_eq!(parse_content_length(b"42"), Some(42));
    assert_eq!(parse_content_length(b"+7"), Some(7));
    assert_eq!(parse_content_length(b"0"), Some(0));
    assert_eq!(parse_content_length(b"18446744073709551615"), Some(usize::MAX));
    assert_eq!(parse_content_length(b"18446744073709551616"), None);
    assert_eq!(parse_content_length(b""), None);
    assert_eq!(parse_content_length(b"+"), None);
    assert_eq!(parse_content_length(b"-1"), None);
    assert_eq!(parse_content_length(b"12a"), None);
    assert_eq!(parse_content_length(b" 12"), None);
}

#[test]
fn transfer_encoding_lists() {
    assert!(value_lists_chunked(b"chunked"));
    assert!(value_lists_chunked(b"CHUNKED"));
    assert!(value_lists_chunked(b"gzip, chunked"));
    assert!(value_lists_chunked(b"gzip,\tChunked ,br"));
    assert!(!value_lists_chunked(b"gzip"));
    assert!(!value_lists_chunked(b"chunkedx"));
    assert!(!value_lists_chunked(b"chun ked"));
    assert!(!value_lists_chunked(b""));
}

#[test]
fn body_length_selection() {
    assert_eq!(body_length(&vec![]), Length::NoBody);
    assert_eq!(body_length(&vec![header("Host", "example.com")]), Length::NoBody);
    assert_eq!(body_length(&vec![header("Content-Length", "12")]), Length::ContentLength(12));
    assert_eq!(body_length(&vec![header("content-length", "abc")]), Length::NoBody);
    assert_eq!(
        body_length(&vec![header("Content-Length", "3"), header("content-length", "9")]),
        Length::ContentLength(3)
    );
    assert_eq!(
        body_length(&vec![header("Content-Length", "12"), header("Transfer-Encoding", "gzip, chunked")]),
        Length::Chunked(0)
    );
    assert_eq!(body_length(&vec![header("TRANSFER-ENCODING", "chunked")]), Length::Chunked(0));
    assert_eq!(body_length(&vec![header("Transfer-Encoding", "gzip")]), Length::NoBody);
}
