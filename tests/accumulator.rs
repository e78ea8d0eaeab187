use minihttp::accumulator::AccReader;
use minihttp::transport::{Transport, TransportError};

struct Pieces {
    parts: Vec<Vec<u8>>,
    next: usize,
}

impl Transport for Pieces {
    fn read_some(&mut self) -> Result<Vec<u8>, TransportError> {
        if self.next < self.parts.len() {
            self.next += 1;
            Ok(self.parts[self.next - 1].clone())
        } else {
            Ok(Vec::new())
        }
    }

    fn write_all(&mut self, _data: &[u8]) -> Result<(), TransportError> {
        Ok(())
    }
}

#[test]
fn buffer_is_unconsumed_suffix_of_filled_bytes() {
    let parts: Vec<Vec<u8>> = vec![b"abc".to_vec(), b"de".to_vec(), b"".to_vec(), b"fghij".to_vec()];
    let mut acc = AccReader::with_capacity(4, Pieces { parts: parts.clone(), next: 0 });
    let mut filled: Vec<u8> = Vec::new();
    let mut consumed = 0usize;
    let plan: Vec<Option<usize>> = vec![None, Some(1), None, Some(2), Some(2), None, None, Some(3), Some(0), Some(2)];
    let mut piece = 0usize;
    for step in plan {
        match step {
            None => {
                let n = acc.fill().unwrap();
                let expected = if piece < parts.len() { parts[piece].clone() } else { Vec::new() };
                piece += 1;
                assert_eq!(n, expected.len());
                filled.extend_from_slice(&expected);
            }
            Some(k) => {
                acc.consume(k);
                consumed += k;
            }
        }
        assert_eq!(acc.buffer(), &filled[consumed..]);
        assert_eq!(acc.available(), filled.len() - consumed);
    }
}

#[test]
fn fill_after_end_adds_nothing() {
    let mut acc = AccReader::new(Pieces { parts: vec![b"xy".to_vec()], next: 0 });
    assert_eq!(acc.fill().unwrap(), 2);
    assert_eq!(acc.fill().unwrap(), 0);
    assert_eq!(acc.buffer(), b"xy");
    assert_eq!(acc.byte_at(1), b'y');
    assert_eq!(acc.peek(1), b"x".to_vec());
    let mut out = b"<".to_vec();
    acc.copy_to(&mut out, 2);
    assert_eq!(out, b"<xy".to_vec());
    assert!(acc.buffer().is_empty());
}
