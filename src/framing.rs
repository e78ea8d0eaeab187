use vstd::prelude::*;

use crate::chunk::{CR, LF};

verus! {

/// The decimal digits of `n`, without leading zeros.
pub open spec fn decimal_digits(n: nat) -> Seq<u8>
    decreases n,
{
    if n < 10 {
        seq![(0x30 + n) as u8]
    } else {
        decimal_digits(n / 10).push((0x30 + n % 10) as u8)
    }
}

/// `Content-Length: ` as bytes.
pub open spec fn content_length_name() -> Seq<u8> {
    seq![0x43u8, 0x6f, 0x6e, 0x74, 0x65, 0x6e, 0x74, 0x2d, 0x4c, 0x65, 0x6e, 0x67, 0x74, 0x68, 0x3a, 0x20]
}

/// `Transfer-Encoding: Chunked` as bytes.
pub open spec fn chunked_encoding_line() -> Seq<u8> {
    seq![
        0x54u8, 0x72, 0x61, 0x6e, 0x73, 0x66, 0x65, 0x72, 0x2d, 0x45, 0x6e, 0x63, 0x6f, 0x64, 0x69, 0x6e, 0x67,
        0x3a, 0x20, 0x43, 0x68, 0x75, 0x6e, 0x6b, 0x65, 0x64,
    ]
}

/// The header line that announces how a body is framed on the wire: its
/// length when known, chunked transfer-encoding otherwise.
pub open spec fn framing_header_spec(len: Option<usize>) -> Seq<u8> {
    match len {
        Some(n) => content_length_name() + decimal_digits(n as nat) + seq![CR, LF],
        None => chunked_encoding_line() + seq![CR, LF],
    }
}

fn push_decimal(n: usize, out: &mut Vec<u8>)
    ensures
        final(out)@ == old(out)@ + decimal_digits(n as nat),
    decreases n,
{
    if n >= 10 {
        push_decimal(n / 10, out);
    }
    out.push((0x30 + n % 10) as u8);
    assert(final(out)@ =~= old(out)@ + decimal_digits(n as nat));
}

fn push_all(out: &mut Vec<u8>, bytes: &[u8])
    ensures
        final(out)@ == old(out)@ + bytes@,
{
    out.extend_from_slice(bytes);
}

/// The header line, CRLF included, that announces a body of length `len`
/// (`Content-Length: <len>`) or, for `None`, chunked framing.
pub fn framing_header(len: Option<usize>) -> (r: Vec<u8>)
    ensures
        r@ == framing_header_spec(len),
{
    let mut out: Vec<u8> = Vec::new();
    match len {
        Some(n) => {
            let name: [u8; 16] = [
                0x43, 0x6f, 0x6e, 0x74, 0x65, 0x6e, 0x74, 0x2d, 0x4c, 0x65, 0x6e, 0x67, 0x74, 0x68, 0x3a, 0x20,
            ];
            push_all(&mut out, name.as_slice());
            assert(name@ =~= content_length_name());
            push_decimal(n, &mut out);
        },
        None => {
            let line: [u8; 26] = [
                0x54, 0x72, 0x61, 0x6e, 0x73, 0x66, 0x65, 0x72, 0x2d, 0x45, 0x6e, 0x63, 0x6f, 0x64, 0x69, 0x6e, 0x67,
                0x3a, 0x20, 0x43, 0x68, 0x75, 0x6e, 0x6b, 0x65, 0x64,
            ];
            push_all(&mut out, line.as_slice());
            assert(line@ =~= chunked_encoding_line());
        },
    }
    out.push(CR);
    out.push(LF);
    assert(out@ =~= framing_header_spec(len));
    out
}

} // verus!
