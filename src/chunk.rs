use vstd::prelude::*;

verus! {

pub const CR: u8 = 0x0d;

pub const LF: u8 = 0x0a;

pub const SEMICOLON: u8 = 0x3b;

pub const TAB: u8 = 0x09;

pub const SPACE: u8 = 0x20;

/// The outcome of scanning a chunk-size line.
#[derive(PartialEq, Eq, Structural, Clone, Copy, Debug)]
pub enum ChunkSizeLine {
    /// The line is complete: it took `consumed` bytes, CRLF included, and
    /// announced `size` bytes of chunk data.
    Complete { consumed: usize, size: u64 },
    /// More bytes are needed to decide.
    Partial,
    /// The line cannot be a chunk-size line.
    Invalid,
}

pub open spec fn is_hex_digit(b: u8) -> bool {
    (0x30u8 <= b <= 0x39u8) || (0x61u8 <= b <= 0x66u8) || (0x41u8 <= b <= 0x46u8)
}

pub open spec fn hex_digit_value(b: u8) -> nat {
    if 0x30u8 <= b <= 0x39u8 {
        (b - 0x30u8) as nat
    } else if 0x61u8 <= b <= 0x66u8 {
        (b - 0x61u8 + 10) as nat
    } else {
        (b - 0x41u8 + 10) as nat
    }
}

/// Scans a chunk-size line from offset `i`: up to sixteen hex digits, then
/// optional spaces or tabs, an optional `;` extension whose bytes are
/// ignored, and CRLF. `in_size` holds while digits may still come, `in_ext`
/// once the extension has begun, `count` is the number of digits seen and
/// `size` their value.
pub open spec fn scan_chunk_size(
    buf: Seq<u8>,
    i: nat,
    in_size: bool,
    in_ext: bool,
    count: nat,
    size: nat,
) -> ChunkSizeLine
    decreases buf.len() - i,
{
    if i >= buf.len() {
        ChunkSizeLine::Partial
    } else {
        let b = buf[i as int];
        if in_size && is_hex_digit(b) {
            if count > 15 {
                ChunkSizeLine::Invalid
            } else {
                scan_chunk_size(buf, i + 1, in_size, in_ext, count + 1, size * 16 + hex_digit_value(b))
            }
        } else if b == CR {
            if i + 1 >= buf.len() {
                ChunkSizeLine::Partial
            } else if buf[i + 1 as int] == LF {
                ChunkSizeLine::Complete { consumed: (i + 2) as usize, size: size as u64 }
            } else {
                ChunkSizeLine::Invalid
            }
        } else if b == SEMICOLON && !in_ext {
            scan_chunk_size(buf, i + 1, false, true, count, size)
        } else if (b == TAB || b == SPACE) && !in_ext && !in_size {
            scan_chunk_size(buf, i + 1, in_size, in_ext, count, size)
        } else if (b == TAB || b == SPACE) && in_size {
            scan_chunk_size(buf, i + 1, false, in_ext, count, size)
        } else if in_ext {
            scan_chunk_size(buf, i + 1, in_size, in_ext, count, size)
        } else {
            ChunkSizeLine::Invalid
        }
    }
}

/// What a chunk-size line at the start of `buf` parses to.
pub open spec fn chunk_size_line(buf: Seq<u8>) -> ChunkSizeLine {
    scan_chunk_size(buf, 0, true, false, 0, 0)
}

/// Relies on httparse::parse_chunk_size, which scans the chunk-size line
/// grammar that `chunk_size_line` states, byte by byte from the front.
#[verifier::external_body]
pub(crate) fn parse_chunk_size(buf: &[u8]) -> (r: ChunkSizeLine)
    ensures
        r == chunk_size_line(buf@),
{
    match httparse::parse_chunk_size(buf) {
        Ok(httparse::Status::Complete((consumed, size))) => ChunkSizeLine::Complete { consumed, size },
        Ok(httparse::Status::Partial) => ChunkSizeLine::Partial,
        Err(_) => ChunkSizeLine::Invalid,
    }
}

/// Once a scan has completed or failed, bytes appended later do not change
/// its outcome.
pub proof fn lemma_scan_prefix_stable(
    buf: Seq<u8>,
    more: Seq<u8>,
    i: nat,
    in_size: bool,
    in_ext: bool,
    count: nat,
    size: nat,
)
    requires
        scan_chunk_size(buf, i, in_size, in_ext, count, size) != ChunkSizeLine::Partial,
    ensures
        scan_chunk_size(buf + more, i, in_size, in_ext, count, size) == scan_chunk_size(
            buf,
            i,
            in_size,
            in_ext,
            count,
            size,
        ),
    decreases buf.len() - i,
{
    let ext = buf + more;
    if i < buf.len() {
        assert(ext[i as int] == buf[i as int]);
        if i + 1 < buf.len() {
            assert(ext[i + 1 as int] == buf[i + 1 as int]);
        }
        let b = buf[i as int];
        if in_size && is_hex_digit(b) {
            if count <= 15 {
                lemma_scan_prefix_stable(buf, more, i + 1, in_size, in_ext, count + 1, size * 16 + hex_digit_value(b));
            }
        } else if b == CR {
        } else if b == SEMICOLON && !in_ext {
            lemma_scan_prefix_stable(buf, more, i + 1, false, true, count, size);
        } else if (b == TAB || b == SPACE) && !in_ext && !in_size {
            lemma_scan_prefix_stable(buf, more, i + 1, in_size, in_ext, count, size);
        } else if (b == TAB || b == SPACE) && in_size {
            lemma_scan_prefix_stable(buf, more, i + 1, false, in_ext, count, size);
        } else if in_ext {
            lemma_scan_prefix_stable(buf, more, i + 1, in_size, in_ext, count, size);
        }
    }
}

/// A complete or invalid chunk-size line stays so when more bytes follow.
pub proof fn lemma_chunk_size_line_prefix_stable(buf: Seq<u8>, more: Seq<u8>)
    requires
        chunk_size_line(buf) != ChunkSizeLine::Partial,
    ensures
        chunk_size_line(buf + more) == chunk_size_line(buf),
{
    lemma_scan_prefix_stable(buf, more, 0, true, false, 0, 0);
}

/// A completed line covers at least its CRLF and at most the buffer.
pub proof fn lemma_scan_complete_bounds(
    buf: Seq<u8>,
    i: nat,
    in_size: bool,
    in_ext: bool,
    count: nat,
    size: nat,
)
    requires
        scan_chunk_size(buf, i, in_size, in_ext, count, size) is Complete,
        buf.len() <= usize::MAX,
    ensures
        i + 2 <= scan_chunk_size(buf, i, in_size, in_ext, count, size)->consumed <= buf.len(),
    decreases buf.len() - i,
{
    if i < buf.len() {
        let b = buf[i as int];
        if in_size && is_hex_digit(b) {
            if count <= 15 {
                lemma_scan_complete_bounds(buf, i + 1, in_size, in_ext, count + 1, size * 16 + hex_digit_value(b));
            }
        } else if b == CR {
        } else if b == SEMICOLON && !in_ext {
            lemma_scan_complete_bounds(buf, i + 1, false, true, count, size);
        } else if (b == TAB || b == SPACE) && !in_ext && !in_size {
            lemma_scan_complete_bounds(buf, i + 1, in_size, in_ext, count, size);
        } else if (b == TAB || b == SPACE) && in_size {
            lemma_scan_complete_bounds(buf, i + 1, false, in_ext, count, size);
        } else if in_ext {
            lemma_scan_complete_bounds(buf, i + 1, in_size, in_ext, count, size);
        }
    }
}

pub proof fn lemma_chunk_size_line_bounds(buf: Seq<u8>)
    requires
        chunk_size_line(buf) is Complete,
        buf.len() <= usize::MAX,
    ensures
        2 <= chunk_size_line(buf)->consumed <= buf.len(),
{
    lemma_scan_complete_bounds(buf, 0, true, false, 0, 0);
}

/// The lowercase hex digit for a value below sixteen.
pub open spec fn hex_char(d: nat) -> u8 {
    if d < 10 {
        (0x30 + d) as u8
    } else {
        (0x61 + d - 10) as u8
    }
}

/// `n` in lowercase hexadecimal, without leading zeros.
pub open spec fn hex_digits(n: nat) -> Seq<u8>
    decreases n,
{
    if n < 16 {
        seq![hex_char(n)]
    } else {
        hex_digits(n / 16).push(hex_char(n % 16))
    }
}

/// The wire form of one write on a chunked body: the data framed by its
/// hex length and CRLFs, or the terminal chunk when the data is empty.
pub open spec fn chunk_frame_spec(data: Seq<u8>) -> Seq<u8> {
    if data.len() == 0 {
        seq![0x30u8, CR, LF, CR, LF]
    } else {
        hex_digits(data.len()) + seq![CR, LF] + data + seq![CR, LF]
    }
}

fn push_hex(n: usize, out: &mut Vec<u8>)
    ensures
        final(out)@ == old(out)@ + hex_digits(n as nat),
    decreases n,
{
    if n >= 16 {
        push_hex(n / 16, out);
    }
    let d: usize = n % 16;
    let c: u8 = if d < 10 {
        (0x30 + d) as u8
    } else {
        (0x61 + d - 10) as u8
    };
    out.push(c);
    assert(final(out)@ =~= old(out)@ + hex_digits(n as nat)) by {
        if n >= 16 {
            assert(hex_digits(n as nat) == hex_digits((n / 16) as nat).push(hex_char((n % 16) as nat)));
        }
    }
}

/// Frames `data` as one chunk of a chunked body; empty data gives the
/// terminal chunk `0\r\n\r\n`.
pub fn chunk_frame(data: &[u8]) -> (r: Vec<u8>)
    ensures
        r@ == chunk_frame_spec(data@),
{
    let mut out: Vec<u8> = Vec::new();
    if data.len() == 0 {
        out.push(0x30);
        out.push(CR);
        out.push(LF);
        out.push(CR);
        out.push(LF);
        assert(out@ =~= chunk_frame_spec(data@));
    } else {
        push_hex(data.len(), &mut out);
        out.push(CR);
        out.push(LF);
        out.extend_from_slice(data);
        out.push(CR);
        out.push(LF);
        assert(out@ =~= chunk_frame_spec(data@));
    }
    out
}

/// The value of hex digits `d` read after a running value `acc`.
pub open spec fn hex_fold(acc: nat, d: Seq<u8>) -> nat
    decreases d.len(),
{
    if d.len() == 0 {
        acc
    } else {
        hex_fold(acc * 16 + hex_digit_value(d[0]), d.subrange(1, d.len() as int))
    }
}

proof fn lemma_hex_fold_push(acc: nat, d: Seq<u8>, x: u8)
    ensures
        hex_fold(acc, d.push(x)) == hex_fold(acc, d) * 16 + hex_digit_value(x),
    decreases d.len(),
{
    if d.len() > 0 {
        assert(d.push(x).subrange(1, d.len() + 1 as int) =~= d.subrange(1, d.len() as int).push(x));
        assert(d.push(x)[0] == d[0]);
        lemma_hex_fold_push(acc * 16 + hex_digit_value(d[0]), d.subrange(1, d.len() as int), x);
    } else {
        assert(d.push(x).subrange(1, 1) =~= Seq::<u8>::empty());
        assert(d.push(x)[0] == x);
        assert(hex_fold(acc, d.push(x)) == hex_fold(acc * 16 + hex_digit_value(x), Seq::<u8>::empty()));
    }
}

spec fn pow16(k: nat) -> nat
    decreases k,
{
    if k == 0 {
        1
    } else {
        16 * pow16((k - 1) as nat)
    }
}

proof fn lemma_hex_digits_facts(n: nat, k: nat)
    requires
        1 <= k,
        n < pow16(k),
    ensures
        1 <= hex_digits(n).len() <= k,
        hex_fold(0, hex_digits(n)) == n,
        forall|j: int| 0 <= j < hex_digits(n).len() ==> is_hex_digit(#[trigger] hex_digits(n)[j]),
    decreases n,
{
    if n < 16 {
        assert(hex_fold(0, hex_digits(n)) == hex_fold(hex_digit_value(hex_char(n)), seq![hex_char(n)].subrange(1, 1)));
        assert(seq![hex_char(n)].subrange(1, 1) =~= Seq::<u8>::empty());
    } else {
        let p = pow16((k - 1) as nat);
        if k == 1 {
            assert(pow16(1) == 16 * pow16(0));
        }
        assert(n < 16 * p);
        assert(n / 16 < p) by (nonlinear_arith)
            requires
                n < 16 * p,
        ;
        lemma_hex_digits_facts(n / 16, (k - 1) as nat);
        lemma_hex_fold_push(0, hex_digits(n / 16), hex_char(n % 16));
        assert(n == (n / 16) * 16 + n % 16);
    }
}

proof fn lemma_pow16_16()
    ensures
        pow16(16) == 0x1_0000_0000_0000_0000,
{
    reveal_with_fuel(pow16, 17);
}

proof fn lemma_scan_digits(buf: Seq<u8>, i: nat, count: nat, size: nat, d: Seq<u8>)
    requires
        i + d.len() <= buf.len(),
        buf.subrange(i as int, i + d.len() as int) == d,
        count + d.len() <= 16,
        forall|j: int| 0 <= j < d.len() ==> is_hex_digit(#[trigger] d[j]),
    ensures
        scan_chunk_size(buf, i, true, false, count, size) == scan_chunk_size(
            buf,
            i + d.len(),
            true,
            false,
            count + d.len(),
            hex_fold(size, d),
        ),
    decreases d.len(),
{
    if d.len() > 0 {
        assert(buf[i as int] == d[0]);
        let rest = d.subrange(1, d.len() as int);
        assert(buf.subrange(i + 1 as int, i + 1 + rest.len() as int) =~= rest);
        assert forall|j: int| 0 <= j < rest.len() implies is_hex_digit(#[trigger] rest[j]) by {
            assert(rest[j] == d[j + 1]);
        }
        lemma_scan_digits(buf, i + 1, count + 1, size * 16 + hex_digit_value(d[0]), rest);
    }
}

/// A chunk-size line written as the lowercase hex of `n` and CRLF parses
/// back to `n`, whatever follows it.
pub proof fn lemma_hex_line_parses(n: nat, rest: Seq<u8>)
    requires
        n <= u64::MAX,
    ensures
        chunk_size_line(hex_digits(n) + seq![CR, LF] + rest) == (ChunkSizeLine::Complete {
            consumed: (hex_digits(n).len() + 2) as usize,
            size: n as u64,
        }),
        hex_digits(n).len() <= 16,
{
    lemma_pow16_16();
    lemma_hex_digits_facts(n, 16);
    let d = hex_digits(n);
    let buf = d + seq![CR, LF] + rest;
    assert(buf.subrange(0, d.len() as int) =~= d);
    lemma_scan_digits(buf, 0, 0, 0, d);
    assert(buf[d.len() as int] == CR);
    assert(buf[d.len() + 1 as int] == LF);
}

/// Up to sixteen hex digits at the start of `buf` are read as a number.
pub proof fn lemma_leading_hex_digits(buf: Seq<u8>, d: Seq<u8>)
    requires
        d.len() <= buf.len(),
        buf.subrange(0, d.len() as int) == d,
        d.len() <= 16,
        forall|j: int| 0 <= j < d.len() ==> is_hex_digit(#[trigger] d[j]),
    ensures
        chunk_size_line(buf) == scan_chunk_size(buf, d.len(), true, false, d.len(), hex_fold(0, d)),
{
    lemma_scan_digits(buf, 0, 0, 0, d);
}

} // verus!
