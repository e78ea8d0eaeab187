use vstd::prelude::*;

use crate::body::{after_line, chunk_view, consume_step, data_step, min_nat, peek_step, read_step, Length, ReadStep};
use crate::chunk::{
    chunk_frame_spec, chunk_size_line, hex_digits, is_hex_digit, lemma_chunk_size_line_bounds,
    lemma_chunk_size_line_prefix_stable, lemma_hex_line_parses, CR, LF, SEMICOLON, SPACE, TAB,
};

verus! {

/// What successive reads of a body produce.
pub struct Drained {
    /// The body bytes produced, in order.
    pub body: Seq<u8>,
    /// The body's length state afterwards.
    pub length: Length,
    /// Whether the terminal chunk has been read.
    pub finished: bool,
    /// The transport bytes not consumed.
    pub rest: Seq<u8>,
}

/// Reads a body in state (`length`, `finished`) over a transport that
/// delivers `wire` and then ends, one read of at most `maxes[i]` bytes after
/// another, stopping at the first error.
pub open spec fn drain(length: Length, finished: bool, wire: Seq<u8>, maxes: Seq<nat>) -> Drained
    decreases maxes.len(),
{
    if maxes.len() == 0 {
        Drained { body: Seq::empty(), length, finished, rest: wire }
    } else {
        match read_step(length, finished, wire, maxes[0], true) {
            ReadStep::Done { out, used, length: next_length, finished: next_finished } => {
                let later = drain(
                    next_length,
                    next_finished,
                    wire.subrange(used as int, wire.len() as int),
                    maxes.subrange(1, maxes.len() as int),
                );
                Drained { body: out + later.body, ..later }
            },
            _ => Drained { body: Seq::empty(), length, finished, rest: wire },
        }
    }
}

/// No reads produce nothing and change nothing.
pub proof fn lemma_drain_none(length: Length, finished: bool, wire: Seq<u8>, maxes: Seq<nat>)
    requires
        maxes.len() == 0,
    ensures
        drain(length, finished, wire, maxes) == (Drained { body: Seq::empty(), length, finished, rest: wire }),
{
    reveal(drain);
}

/// A first read that succeeds is followed by the remaining reads.
pub proof fn lemma_drain_step(length: Length, finished: bool, wire: Seq<u8>, maxes: Seq<nat>)
    requires
        maxes.len() > 0,
        read_step(length, finished, wire, maxes[0], true) is Done,
    ensures
        ({
            let step = read_step(length, finished, wire, maxes[0], true);
            let later = drain(
                step->length,
                step->finished,
                wire.subrange(step->used as int, wire.len() as int),
                maxes.subrange(1, maxes.len() as int),
            );
            drain(length, finished, wire, maxes) == (Drained { body: step->out + later.body, ..later })
        }),
{
    reveal(drain);
}

pub open spec fn total(maxes: Seq<nat>) -> nat
    decreases maxes.len(),
{
    if maxes.len() == 0 {
        0
    } else {
        maxes[0] + total(maxes.subrange(1, maxes.len() as int))
    }
}

proof fn lemma_data_step_prefix_stable(r: nat, avail: Seq<u8>, more: Seq<u8>, max: nat, eof: bool)
    requires
        !(data_step(r, avail, max, false) is Starved),
    ensures
        data_step(r, avail + more, max, eof) == data_step(r, avail, max, false),
{
    let ext = avail + more;
    let k = min_nat(r, max);
    if avail.len() >= k {
        assert(ext.subrange(0, k as int) =~= avail.subrange(0, k as int));
        if k == r && avail.len() >= r + 2 {
            assert(ext[r as int] == avail[r as int]);
            assert(ext[r + 1 as int] == avail[r + 1 as int]);
            assert(ext.subrange(0, r as int) =~= avail.subrange(0, r as int));
        }
    }
}

/// Fragmentation does not matter: once the bytes at hand settle a read,
/// bytes that arrive later, or the transport ending, do not change what the
/// read does. So every way of splitting a byte stream across low-level
/// reads makes `Body::read` produce the same outcomes.
pub proof fn lemma_read_step_prefix_stable(
    length: Length,
    finished: bool,
    avail: Seq<u8>,
    more: Seq<u8>,
    max: nat,
    eof: bool,
)
    requires
        avail.len() <= usize::MAX,
        !(read_step(length, finished, avail, max, false) is Starved),
    ensures
        read_step(length, finished, avail + more, max, eof) == read_step(length, finished, avail, max, false),
{
    let ext = avail + more;
    match length {
        Length::NoBody => {},
        Length::ContentLength(n) => {
            let k = min_nat(n as nat, max);
            assert(ext.subrange(0, k as int) =~= avail.subrange(0, k as int));
        },
        Length::Chunked(r) => {
            if finished || max == 0 {
            } else if r > 0 {
                lemma_data_step_prefix_stable(r as nat, avail, more, max, eof);
            } else {
                lemma_chunk_size_line_prefix_stable(avail, more);
                if chunk_size_line(avail) is Complete && chunk_size_line(avail)->size != 0
                    && chunk_size_line(avail)->size <= usize::MAX {
                    lemma_chunk_size_line_bounds(avail);
                    let c = chunk_size_line(avail)->consumed;
                    assert(ext.subrange(c as int, ext.len() as int) =~= avail.subrange(c as int, avail.len() as int)
                        + more);
                    lemma_data_step_prefix_stable(
                        chunk_size_line(avail)->size as nat,
                        avail.subrange(c as int, avail.len() as int),
                        more,
                        max,
                        eof,
                    );
                }
            }
        },
    }
}

/// A body without a length mode yields no bytes, whatever the transport
/// holds.
pub proof fn lemma_no_body_reads_nothing(finished: bool, avail: Seq<u8>, max: nat, eof: bool)
    ensures
        read_step(Length::NoBody, finished, avail, max, eof) == (ReadStep::Done {
            out: Seq::empty(),
            used: 0,
            length: Length::NoBody,
            finished,
        }),
{
}

/// Reading a body of declared length `n` in increments of any sizes yields
/// the body's first bytes in order: after reads of at most `maxes[0]`,
/// `maxes[1]`, ... bytes, exactly as many as those sizes allow, up to `n`
/// and to what the transport delivered.
#[verifier::rlimit(100)]
pub proof fn lemma_content_length_reads(n: usize, finished: bool, wire: Seq<u8>, maxes: Seq<nat>)
    ensures
        drain(Length::ContentLength(n), finished, wire, maxes).body == wire.subrange(
            0,
            min_nat(min_nat(n as nat, total(maxes)), wire.len()) as int,
        ),
        drain(Length::ContentLength(n), finished, wire, maxes).length == Length::ContentLength(
            (n - min_nat(min_nat(n as nat, total(maxes)), wire.len())) as usize,
        ),
        drain(Length::ContentLength(n), finished, wire, maxes).rest == wire.subrange(
            min_nat(min_nat(n as nat, total(maxes)), wire.len()) as int,
            wire.len() as int,
        ),
        drain(Length::ContentLength(n), finished, wire, maxes).finished == finished,
    decreases maxes.len(),
{
    if maxes.len() == 0 {
        lemma_drain_none(Length::ContentLength(n), finished, wire, maxes);
        assert(wire.subrange(0, 0) =~= Seq::<u8>::empty());
        assert(wire.subrange(0, wire.len() as int) =~= wire);
    } else {
        lemma_drain_step(Length::ContentLength(n), finished, wire, maxes);
        let m0 = maxes[0];
        let tail = maxes.subrange(1, maxes.len() as int);
        let k = min_nat(n as nat, m0);
        let t = min_nat(min_nat(n as nat, total(maxes)), wire.len());
        assert(total(maxes) == m0 + total(tail));
        if wire.len() >= k {
            let w2 = wire.subrange(k as int, wire.len() as int);
            assert(read_step(Length::ContentLength(n), finished, wire, m0, true) == (ReadStep::Done {
                out: wire.subrange(0, k as int),
                used: k,
                length: Length::ContentLength((n - k) as usize),
                finished,
            }));
            lemma_content_length_reads((n - k) as usize, finished, w2, tail);
            let j = min_nat(min_nat((n - k) as nat, total(tail)), w2.len());
            assert(k + j == t);
            assert(wire.subrange(0, k as int) + w2.subrange(0, j as int) =~= wire.subrange(0, t as int));
            assert(w2.subrange(j as int, w2.len() as int) =~= wire.subrange(t as int, wire.len() as int));
        } else {
            let w2 = wire.subrange(wire.len() as int, wire.len() as int);
            assert(w2 =~= Seq::<u8>::empty());
            assert(read_step(Length::ContentLength(n), finished, wire, m0, true) == (ReadStep::Done {
                out: wire,
                used: wire.len(),
                length: Length::ContentLength((n - wire.len()) as usize),
                finished,
            }));
            lemma_content_length_reads((n - wire.len()) as usize, finished, w2, tail);
            assert(t == wire.len());
            assert(wire.subrange(0, wire.len() as int) =~= wire);
            assert(w2.subrange(0, 0) =~= Seq::<u8>::empty());
            assert(wire + Seq::<u8>::empty() =~= wire);
        }
    }
}

/// Once a body of declared length `n` has produced `n` bytes, or all the
/// transport delivered, every further read is empty.
pub proof fn lemma_content_length_then_empty(n: usize, finished: bool, wire: Seq<u8>, maxes: Seq<nat>, m: nat)
    requires
        total(maxes) >= min_nat(n as nat, wire.len()),
    ensures
        ({
            let d = drain(Length::ContentLength(n), finished, wire, maxes);
            let step = read_step(d.length, d.finished, d.rest, m, true);
            step is Done && step->out.len() == 0
        }),
{
    lemma_content_length_reads(n, finished, wire, maxes);
}

/// A chunk-size line that holds a byte that is neither a hex digit, nor
/// CR, nor whitespace or `;` after the digits, is a framing error.
pub proof fn lemma_malformed_size_line(digits: Seq<u8>, bad: u8, rest: Seq<u8>, max: nat, eof: bool)
    requires
        digits.len() <= 16,
        forall|j: int| 0 <= j < digits.len() ==> is_hex_digit(#[trigger] digits[j]),
        !is_hex_digit(bad),
        bad != CR,
        bad != SEMICOLON,
        bad != SPACE,
        bad != TAB,
        max > 0,
    ensures
        read_step(Length::Chunked(0), false, digits + seq![bad] + rest, max, eof) == ReadStep::BadSize,
{
    let buf = digits + seq![bad] + rest;
    assert(buf.subrange(0, digits.len() as int) =~= digits);
    crate::chunk::lemma_leading_hex_digits(buf, digits);
    assert(buf[digits.len() as int] == bad);
}

/// Chunk data whose declared size is used up but that is not followed by
/// CRLF, be it other bytes or the end of the transport, is a framing error.
pub proof fn lemma_bad_chunk_end(data: Seq<u8>, after: Seq<u8>, max: nat)
    requires
        0 < data.len() <= usize::MAX - 2,
        max >= data.len(),
        after.len() < 2 || after[0] != CR || after[1] != LF,
    ensures
        read_step(Length::Chunked(0), false, hex_digits(data.len()) + seq![CR, LF] + data + after, max, true)
            == ReadStep::BadEnd,
{
    let wire = hex_digits(data.len()) + seq![CR, LF] + data + after;
    lemma_hex_line_parses(data.len(), data + after);
    assert(wire =~= hex_digits(data.len()) + seq![CR, LF] + (data + after));
    let c = hex_digits(data.len()).len() + 2;
    let body = wire.subrange(c as int, wire.len() as int);
    assert(body =~= data + after);
    if body.len() >= data.len() + 2 {
        assert(body[data.len() as int] == after[0]);
        assert(body[data.len() + 1 as int] == after[1]);
    }
}

/// The wire form of a chunked body whose chunks are `chunks`, ended by the
/// terminal chunk.
pub open spec fn chunked_wire(chunks: Seq<Seq<u8>>) -> Seq<u8>
    decreases chunks.len(),
{
    if chunks.len() == 0 {
        chunk_frame_spec(Seq::empty())
    } else {
        chunk_frame_spec(chunks[0]) + chunked_wire(chunks.subrange(1, chunks.len() as int))
    }
}

/// The chunks' bytes, one after another.
pub open spec fn concat(chunks: Seq<Seq<u8>>) -> Seq<u8>
    decreases chunks.len(),
{
    if chunks.len() == 0 {
        Seq::empty()
    } else {
        chunks[0] + concat(chunks.subrange(1, chunks.len() as int))
    }
}

proof fn lemma_drain_finished(wire: Seq<u8>, maxes: Seq<nat>)
    ensures
        drain(Length::Chunked(0), true, wire, maxes).body == Seq::<u8>::empty(),
        drain(Length::Chunked(0), true, wire, maxes).finished,
    decreases maxes.len(),
{
    if maxes.len() == 0 {
        lemma_drain_none(Length::Chunked(0), true, wire, maxes);
    } else {
        lemma_drain_step(Length::Chunked(0), true, wire, maxes);
        assert(wire.subrange(0, wire.len() as int) =~= wire);
        lemma_drain_finished(wire, maxes.subrange(1, maxes.len() as int));
        assert(Seq::<u8>::empty() + Seq::<u8>::empty() =~= Seq::<u8>::empty());
    }
}

/// Reading the rest `tail` of a chunk, followed by its CRLF and `more`.
proof fn lemma_data_on_frame(tail: Seq<u8>, more: Seq<u8>, m: nat)
    requires
        0 < tail.len() <= usize::MAX - 2,
        m >= 1,
    ensures
        ({
            let t = tail.len();
            let k = min_nat(t, m);
            let wire = tail + seq![CR, LF] + more;
            &&& k < t ==> data_step(t, wire, m, true) == (ReadStep::Done {
                out: tail.subrange(0, k as int),
                used: k,
                length: Length::Chunked((t - k) as usize),
                finished: false,
            })
            &&& k < t ==> wire.subrange(k as int, wire.len() as int) == tail.subrange(k as int, t as int)
                + seq![CR, LF] + more
            &&& k == t ==> data_step(t, wire, m, true) == (ReadStep::Done {
                out: tail,
                used: t + 2,
                length: Length::Chunked(0),
                finished: false,
            })
            &&& k == t ==> wire.subrange((t + 2) as int, wire.len() as int) == more
        }),
{
    let t = tail.len();
    let k = min_nat(t, m);
    let wire = tail + seq![CR, LF] + more;
    assert(wire.subrange(0, k as int) =~= tail.subrange(0, k as int));
    assert(wire.subrange(k as int, wire.len() as int) =~= tail.subrange(k as int, t as int) + seq![CR, LF] + more);
    assert(wire[t as int] == CR);
    assert(wire[t + 1 as int] == LF);
    assert(wire.subrange(0, t as int) =~= tail);
    assert(wire.subrange((t + 2) as int, wire.len() as int) =~= more);
}

/// The wire of a chunked body, seen from state (`tail`, `chunks`): `tail`
/// is what is left of the current chunk (empty between chunks).
pub open spec fn wire_from(tail: Seq<u8>, chunks: Seq<Seq<u8>>, rest: Seq<u8>) -> Seq<u8> {
    if tail.len() == 0 {
        chunked_wire(chunks) + rest
    } else {
        tail + seq![CR, LF] + (chunked_wire(chunks) + rest)
    }
}

proof fn lemma_step_mid(tail: Seq<u8>, chunks: Seq<Seq<u8>>, rest: Seq<u8>, m: nat)
    requires
        0 < tail.len() <= usize::MAX - 2,
        m >= 1,
    ensures
        ({
            let t = tail.len();
            let k = min_nat(t, m);
            let wire = wire_from(tail, chunks, rest);
            let step = read_step(Length::Chunked(t as usize), false, wire, m, true);
            &&& step is Done
            &&& !step->finished
            &&& k < t ==> step->out == tail.subrange(0, k as int) && step->length == Length::Chunked(
                (t - k) as usize,
            ) && wire.subrange(step->used as int, wire.len() as int) == wire_from(
                tail.subrange(k as int, t as int),
                chunks,
                rest,
            )
            &&& k == t ==> step->out == tail && step->length == Length::Chunked(0) && wire.subrange(
                step->used as int,
                wire.len() as int,
            ) == wire_from(Seq::empty(), chunks, rest)
        }),
{
    let more = chunked_wire(chunks) + rest;
    lemma_data_on_frame(tail, more, m);
}

proof fn lemma_step_new(chunks: Seq<Seq<u8>>, rest: Seq<u8>, m: nat)
    requires
        chunks.len() > 0,
        0 < chunks[0].len() <= usize::MAX - 2,
        m >= 1,
    ensures
        ({
            let c0 = chunks[0];
            let others = chunks.subrange(1, chunks.len() as int);
            let s = c0.len();
            let k = min_nat(s, m);
            let wire = wire_from(Seq::empty(), chunks, rest);
            let step = read_step(Length::Chunked(0), false, wire, m, true);
            &&& step is Done
            &&& !step->finished
            &&& k < s ==> step->out == c0.subrange(0, k as int) && step->length == Length::Chunked(
                (s - k) as usize,
            ) && wire.subrange(step->used as int, wire.len() as int) == wire_from(
                c0.subrange(k as int, s as int),
                others,
                rest,
            )
            &&& k == s ==> step->out == c0 && step->length == Length::Chunked(0) && wire.subrange(
                step->used as int,
                wire.len() as int,
            ) == wire_from(Seq::empty(), others, rest)
        }),
{
    let c0 = chunks[0];
    let others = chunks.subrange(1, chunks.len() as int);
    let s = c0.len();
    let wire = wire_from(Seq::empty(), chunks, rest);
    let more = chunked_wire(others) + rest;
    let h = hex_digits(s).len();
    lemma_hex_line_parses(s, c0 + seq![CR, LF] + more);
    assert(wire =~= hex_digits(s) + seq![CR, LF] + (c0 + seq![CR, LF] + more));
    let body_part = wire.subrange((h + 2) as int, wire.len() as int);
    assert(body_part =~= c0 + seq![CR, LF] + more);
    lemma_data_on_frame(c0, more, m);
    let k = min_nat(s, m);
    assert(read_step(Length::Chunked(0), false, wire, m, true) == after_line(
        data_step(s, body_part, m, true),
        (h + 2) as nat,
    ));
    if k < s {
        assert(wire.subrange((h + 2 + k) as int, wire.len() as int) =~= body_part.subrange(
            k as int,
            body_part.len() as int,
        ));
    } else {
        assert(wire.subrange((h + 2 + s + 2) as int, wire.len() as int) =~= body_part.subrange(
            (s + 2) as int,
            body_part.len() as int,
        ));
    }
}

proof fn lemma_step_terminal(rest: Seq<u8>, m: nat)
    requires
        m >= 1,
    ensures
        ({
            let wire = wire_from(Seq::empty(), Seq::empty(), rest);
            let step = read_step(Length::Chunked(0), false, wire, m, true);
            &&& step is Done
            &&& step->finished
            &&& step->out.len() == 0
            &&& step->length == Length::Chunked(0)
            &&& step->used <= wire.len()
        }),
{
    let wire = wire_from(Seq::empty(), Seq::empty(), rest);
    lemma_hex_line_parses(0, seq![CR, LF] + rest);
    assert(hex_digits(0) =~= seq![0x30u8]);
    assert(wire =~= hex_digits(0) + seq![CR, LF] + (seq![CR, LF] + rest));
}

#[verifier::rlimit(100)]
proof fn lemma_chunked_reads(tail: Seq<u8>, chunks: Seq<Seq<u8>>, rest: Seq<u8>, maxes: Seq<nat>)
    requires
        tail.len() <= usize::MAX - 2,
        forall|i: int| 0 <= i < chunks.len() ==> 0 < (#[trigger] chunks[i]).len() <= usize::MAX - 2,
        forall|i: int| 0 <= i < maxes.len() ==> (#[trigger] maxes[i]) >= 1,
        maxes.len() > tail.len() + concat(chunks).len(),
    ensures
        drain(Length::Chunked(tail.len() as usize), false, wire_from(tail, chunks, rest), maxes).body == tail
            + concat(chunks),
        drain(Length::Chunked(tail.len() as usize), false, wire_from(tail, chunks, rest), maxes).finished,
    decreases maxes.len(),
{
    let wire = wire_from(tail, chunks, rest);
    let m = maxes[0];
    let later_maxes = maxes.subrange(1, maxes.len() as int);
    assert forall|i: int| 0 <= i < later_maxes.len() implies (#[trigger] later_maxes[i]) >= 1 by {
        assert(later_maxes[i] == maxes[i + 1]);
    }
    assert(m >= 1);
    let e = Seq::<u8>::empty();
    if tail.len() > 0 {
        let t = tail.len();
        let k = min_nat(t, m);
        lemma_step_mid(tail, chunks, rest, m);
        lemma_drain_step(Length::Chunked(t as usize), false, wire, maxes);
        if k < t {
            let tail2 = tail.subrange(k as int, t as int);
            lemma_chunked_reads(tail2, chunks, rest, later_maxes);
            assert(tail.subrange(0, k as int) + (tail2 + concat(chunks)) =~= tail + concat(chunks));
        } else {
            lemma_chunked_reads(e, chunks, rest, later_maxes);
            assert(tail + (e + concat(chunks)) =~= tail + concat(chunks));
        }
    } else if chunks.len() > 0 {
        let c0 = chunks[0];
        let others = chunks.subrange(1, chunks.len() as int);
        assert forall|i: int| 0 <= i < others.len() implies 0 < (#[trigger] others[i]).len() <= usize::MAX
            - 2 by {
            assert(others[i] == chunks[i + 1]);
        }
        assert(tail =~= e);
        let s = c0.len();
        let k = min_nat(s, m);
        lemma_step_new(chunks, rest, m);
        lemma_drain_step(Length::Chunked(0), false, wire, maxes);
        assert(concat(chunks) == c0 + concat(others));
        if k < s {
            let tail2 = c0.subrange(k as int, s as int);
            lemma_chunked_reads(tail2, others, rest, later_maxes);
            assert(c0.subrange(0, k as int) + (tail2 + concat(others)) =~= tail + concat(chunks));
        } else {
            lemma_chunked_reads(e, others, rest, later_maxes);
            assert(c0 + (e + concat(others)) =~= tail + concat(chunks));
        }
    } else {
        assert(tail =~= e);
        assert(chunks =~= Seq::<Seq<u8>>::empty());
        lemma_step_terminal(rest, m);
        lemma_drain_step(Length::Chunked(0), false, wire, maxes);
        let step = read_step(Length::Chunked(0), false, wire, m, true);
        lemma_drain_finished(wire.subrange(step->used as int, wire.len() as int), later_maxes);
        assert(step->out =~= e);
        assert(e + e =~= tail + concat(chunks));
    }
}

/// Chunked round trip: framing chunks of any non-zero sizes and decoding
/// the result reproduces the bytes exactly, and ends the body, when each
/// read asks for at least one byte and there are more reads than bytes.
/// With `lemma_read_step_prefix_stable`, this holds however the transport
/// splits the wire across low-level reads.
pub proof fn lemma_chunked_round_trip(chunks: Seq<Seq<u8>>, rest: Seq<u8>, maxes: Seq<nat>)
    requires
        forall|i: int| 0 <= i < chunks.len() ==> 0 < (#[trigger] chunks[i]).len() <= usize::MAX - 2,
        forall|i: int| 0 <= i < maxes.len() ==> (#[trigger] maxes[i]) >= 1,
        maxes.len() > concat(chunks).len(),
    ensures
        drain(Length::Chunked(0), false, chunked_wire(chunks) + rest, maxes).body == concat(chunks),
        drain(Length::Chunked(0), false, chunked_wire(chunks) + rest, maxes).finished,
{
    let e = Seq::<u8>::empty();
    lemma_chunked_reads(e, chunks, rest, maxes);
    assert(e + concat(chunks) =~= concat(chunks));
}

/// Reads a body by peeking and then consuming the whole view, over a
/// transport that delivers `wire` and then ends, for at most `rounds`
/// rounds; stops at an empty view or an error.
#[verifier::opaque]
pub open spec fn drain_by_peeking(length: Length, finished: bool, wire: Seq<u8>, rounds: nat) -> Seq<u8>
    decreases rounds,
{
    if rounds == 0 {
        Seq::empty()
    } else {
        match peek_step(length, finished, wire, true) {
            ReadStep::Done { out, used, length: peeked_length, finished: peeked_finished } => {
                if out.len() == 0 {
                    Seq::empty()
                } else {
                    let after_peek = wire.subrange(used as int, wire.len() as int);
                    match consume_step(peeked_length, peeked_finished, after_peek, out.len(), true) {
                        ReadStep::Done { used: consumed, length: next_length, finished: next_finished, .. } => out
                            + drain_by_peeking(
                            next_length,
                            next_finished,
                            after_peek.subrange(consumed as int, after_peek.len() as int),
                            (rounds - 1) as nat,
                        ),
                        _ => Seq::empty(),
                    }
                }
            },
            _ => Seq::empty(),
        }
    }
}

proof fn lemma_peek_chunk(chunks: Seq<Seq<u8>>, rest: Seq<u8>)
    requires
        chunks.len() > 0,
        0 < chunks[0].len() <= usize::MAX - 2,
    ensures
        ({
            let c0 = chunks[0];
            let s = c0.len();
            let wire = chunked_wire(chunks) + rest;
            let step = peek_step(Length::Chunked(0), false, wire, true);
            let after_peek = wire.subrange(step->used as int, wire.len() as int);
            let cons = consume_step(Length::Chunked(s as usize), false, after_peek, s, true);
            &&& step is Done
            &&& step->out == c0
            &&& step->length == Length::Chunked(s as usize)
            &&& !step->finished
            &&& cons is Done
            &&& cons->length == Length::Chunked(0)
            &&& !cons->finished
            &&& after_peek.subrange(cons->used as int, after_peek.len() as int) == chunked_wire(
                chunks.subrange(1, chunks.len() as int),
            ) + rest
        }),
{
    let c0 = chunks[0];
    let others = chunks.subrange(1, chunks.len() as int);
    let s = c0.len();
    let wire = chunked_wire(chunks) + rest;
    let more = chunked_wire(others) + rest;
    let h = hex_digits(s).len();
    lemma_hex_line_parses(s, c0 + seq![CR, LF] + more);
    assert(wire =~= hex_digits(s) + seq![CR, LF] + (c0 + seq![CR, LF] + more));
    let body_part = wire.subrange((h + 2) as int, wire.len() as int);
    assert(body_part =~= c0 + seq![CR, LF] + more);
    assert(body_part.subrange(0, s as int) =~= c0);
    assert(peek_step(Length::Chunked(0), false, wire, true) == chunk_view(s, body_part, true, (h + 2) as nat));
    assert(body_part[s as int] == CR);
    assert(body_part[s + 1 as int] == LF);
    assert(body_part.subrange((s + 2) as int, body_part.len() as int) =~= more);
}

proof fn lemma_peek_terminal(rest: Seq<u8>)
    ensures
        ({
            let step = peek_step(Length::Chunked(0), false, chunked_wire(Seq::empty()) + rest, true);
            step is Done && step->out.len() == 0
        }),
{
    let wire = chunked_wire(Seq::empty()) + rest;
    lemma_hex_line_parses(0, seq![CR, LF] + rest);
    assert(hex_digits(0) =~= seq![0x30u8]);
    assert(wire =~= hex_digits(0) + seq![CR, LF] + (seq![CR, LF] + rest));
}

/// Chunked round trip through peeking: framing chunks of any non-zero sizes
/// and decoding the result by peeking and consuming each view reproduces the
/// bytes exactly, given more rounds than chunks.
pub proof fn lemma_chunked_round_trip_by_peeking(chunks: Seq<Seq<u8>>, rest: Seq<u8>, rounds: nat)
    requires
        forall|i: int| 0 <= i < chunks.len() ==> 0 < (#[trigger] chunks[i]).len() <= usize::MAX - 2,
        rounds > chunks.len(),
    ensures
        drain_by_peeking(Length::Chunked(0), false, chunked_wire(chunks) + rest, rounds) == concat(chunks),
    decreases chunks.len(),
{
    reveal(drain_by_peeking);
    if chunks.len() == 0 {
        lemma_peek_terminal(rest);
    } else {
        let others = chunks.subrange(1, chunks.len() as int);
        assert forall|i: int| 0 <= i < others.len() implies 0 < (#[trigger] others[i]).len() <= usize::MAX
            - 2 by {
            assert(others[i] == chunks[i + 1]);
        }
        lemma_peek_chunk(chunks, rest);
        lemma_chunked_round_trip_by_peeking(others, rest, (rounds - 1) as nat);
    }
}

} // verus!
