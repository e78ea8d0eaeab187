use vstd::prelude::*;

use crate::accumulator::AccReader;
use crate::chunk::{chunk_size_line, parse_chunk_size, ChunkSizeLine, CR, LF};
use crate::transport::{Transport, TransportError};

verus! {

/// How many more body bytes a message owes.
#[derive(PartialEq, Eq, Structural, Clone, Copy, Debug)]
pub enum Length {
    /// The message has no body.
    NoBody,
    /// Exactly this many body bytes remain.
    ContentLength(usize),
    /// This many bytes remain in the current chunk; zero means a chunk-size
    /// line comes next.
    Chunked(usize),
}

/// Why reading a body failed.
#[derive(Debug)]
pub enum BodyError {
    /// The transport failed.
    Transport(TransportError),
    /// A chunk-size line is malformed.
    InvalidChunkSize,
    /// Chunk data is not followed by CRLF.
    InvalidChunkEnd,
}

/// What a read decides, given the unconsumed bytes at hand.
pub enum ReadStep {
    /// The read produces `out`, consumes `used` bytes of the transport's
    /// stream, and leaves the body in state (`length`, `finished`).
    Done { out: Seq<u8>, used: nat, length: Length, finished: bool },
    /// The bytes at hand do not settle the read; more must be read first.
    Starved,
    /// A malformed chunk-size line.
    BadSize,
    /// Chunk data not followed by CRLF.
    BadEnd,
}

pub open spec fn min_nat(a: nat, b: nat) -> nat {
    if a < b {
        a
    } else {
        b
    }
}

/// A read of at most `max` bytes of a chunk with `r > 0` bytes left, over
/// the bytes `avail`; `eof` tells that no more bytes will arrive.
pub open spec fn data_step(r: nat, avail: Seq<u8>, max: nat, eof: bool) -> ReadStep {
    let k = min_nat(r, max);
    if avail.len() < k {
        if eof {
            ReadStep::Done {
                out: avail,
                used: avail.len(),
                length: Length::Chunked((r - avail.len()) as usize),
                finished: false,
            }
        } else {
            ReadStep::Starved
        }
    } else if k < r {
        ReadStep::Done {
            out: avail.subrange(0, k as int),
            used: k,
            length: Length::Chunked((r - k) as usize),
            finished: false,
        }
    } else if r + 2 > usize::MAX {
        ReadStep::BadEnd
    } else if avail.len() < r + 2 {
        if eof {
            ReadStep::BadEnd
        } else {
            ReadStep::Starved
        }
    } else if avail[r as int] == CR && avail[r + 1 as int] == LF {
        ReadStep::Done {
            out: avail.subrange(0, r as int),
            used: r + 2,
            length: Length::Chunked(0),
            finished: false,
        }
    } else {
        ReadStep::BadEnd
    }
}

/// `step`, after a chunk-size line of `line` bytes was consumed.
pub open spec fn after_line(step: ReadStep, line: nat) -> ReadStep {
    match step {
        ReadStep::Done { out, used, length, finished } => ReadStep::Done {
            out,
            used: used + line,
            length,
            finished,
        },
        _ => step,
    }
}

/// What a read of at most `max` bytes does to a body in state (`length`,
/// `finished`) when the unconsumed transport bytes are `avail`, and `eof`
/// tells whether the transport has ended.
pub open spec fn read_step(length: Length, finished: bool, avail: Seq<u8>, max: nat, eof: bool) -> ReadStep {
    match length {
        Length::NoBody => ReadStep::Done { out: Seq::empty(), used: 0, length, finished },
        Length::ContentLength(n) => {
            let k = min_nat(n as nat, max);
            if avail.len() >= k {
                ReadStep::Done {
                    out: avail.subrange(0, k as int),
                    used: k,
                    length: Length::ContentLength((n - k) as usize),
                    finished,
                }
            } else if eof {
                ReadStep::Done {
                    out: avail,
                    used: avail.len(),
                    length: Length::ContentLength((n - avail.len()) as usize),
                    finished,
                }
            } else {
                ReadStep::Starved
            }
        },
        Length::Chunked(r) => {
            if finished || max == 0 {
                ReadStep::Done { out: Seq::empty(), used: 0, length, finished }
            } else if r > 0 {
                data_step(r as nat, avail, max, eof)
            } else {
                match chunk_size_line(avail) {
                    ChunkSizeLine::Invalid => ReadStep::BadSize,
                    ChunkSizeLine::Partial => if eof {
                        ReadStep::Done { out: Seq::empty(), used: 0, length, finished }
                    } else {
                        ReadStep::Starved
                    },
                    ChunkSizeLine::Complete { consumed, size } => {
                        if size > usize::MAX {
                            ReadStep::BadSize
                        } else if size == 0 {
                            ReadStep::Done {
                                out: Seq::empty(),
                                used: consumed as nat,
                                length: Length::Chunked(0),
                                finished: true,
                            }
                        } else {
                            after_line(
                                data_step(
                                    size as nat,
                                    avail.subrange(consumed as int, avail.len() as int),
                                    max,
                                    eof,
                                ),
                                consumed as nat,
                            )
                        }
                    },
                }
            }
        },
    }
}

/// The view a peek offers of a chunk with `r > 0` bytes left, over `avail`,
/// after a chunk-size line of `line` bytes.
pub open spec fn chunk_view(r: nat, avail: Seq<u8>, eof: bool, line: nat) -> ReadStep {
    if avail.len() == 0 {
        if eof {
            ReadStep::Done { out: Seq::empty(), used: line, length: Length::Chunked(r as usize), finished: false }
        } else {
            ReadStep::Starved
        }
    } else {
        ReadStep::Done {
            out: avail.subrange(0, min_nat(r, avail.len()) as int),
            used: line,
            length: Length::Chunked(r as usize),
            finished: false,
        }
    }
}

/// What a peek does to a body in state (`length`, `finished`): `out` is the
/// view of body bytes offered, `used` the chunk-size line bytes consumed.
pub open spec fn peek_step(length: Length, finished: bool, avail: Seq<u8>, eof: bool) -> ReadStep {
    match length {
        Length::NoBody => ReadStep::Done { out: Seq::empty(), used: 0, length, finished },
        Length::ContentLength(n) => {
            if n == 0 || (avail.len() == 0 && eof) {
                ReadStep::Done { out: Seq::empty(), used: 0, length, finished }
            } else if avail.len() == 0 {
                ReadStep::Starved
            } else {
                ReadStep::Done {
                    out: avail.subrange(0, min_nat(n as nat, avail.len()) as int),
                    used: 0,
                    length,
                    finished,
                }
            }
        },
        Length::Chunked(r) => {
            if finished {
                ReadStep::Done { out: Seq::empty(), used: 0, length, finished }
            } else if r > 0 {
                chunk_view(r as nat, avail, eof, 0)
            } else {
                match chunk_size_line(avail) {
                    ChunkSizeLine::Invalid => ReadStep::BadSize,
                    ChunkSizeLine::Partial => if eof {
                        ReadStep::Done { out: Seq::empty(), used: 0, length, finished }
                    } else {
                        ReadStep::Starved
                    },
                    ChunkSizeLine::Complete { consumed, size } => {
                        if size > usize::MAX {
                            ReadStep::BadSize
                        } else if size == 0 {
                            ReadStep::Done {
                                out: Seq::empty(),
                                used: consumed as nat,
                                length: Length::Chunked(0),
                                finished: true,
                            }
                        } else {
                            chunk_view(
                                size as nat,
                                avail.subrange(consumed as int, avail.len() as int),
                                eof,
                                consumed as nat,
                            )
                        }
                    },
                }
            }
        },
    }
}

/// How many peeked bytes a body in state (`length`, `finished`) lets the
/// caller consume when `avail` bytes are buffered.
pub open spec fn consumable(length: Length, finished: bool, avail: nat) -> nat {
    match length {
        Length::NoBody => 0,
        Length::ContentLength(n) => min_nat(n as nat, avail),
        Length::Chunked(r) => if finished {
            0
        } else {
            min_nat(r as nat, avail)
        },
    }
}

/// What consuming `amt` peeked bytes does; when a chunk's data is used up,
/// its CRLF must follow.
pub open spec fn consume_step(length: Length, finished: bool, avail: Seq<u8>, amt: nat, eof: bool) -> ReadStep {
    match length {
        Length::NoBody => ReadStep::Done { out: Seq::empty(), used: 0, length, finished },
        Length::ContentLength(n) => ReadStep::Done {
            out: Seq::empty(),
            used: amt,
            length: Length::ContentLength((n - amt) as usize),
            finished,
        },
        Length::Chunked(r) => {
            if amt < r || r == 0 {
                ReadStep::Done {
                    out: Seq::empty(),
                    used: amt,
                    length: Length::Chunked((r - amt) as usize),
                    finished,
                }
            } else if r + 2 > usize::MAX {
                ReadStep::BadEnd
            } else if avail.len() < r + 2 {
                if eof {
                    ReadStep::BadEnd
                } else {
                    ReadStep::Starved
                }
            } else if avail[r as int] == CR && avail[r + 1 as int] == LF {
                ReadStep::Done { out: Seq::empty(), used: (r + 2) as nat, length: Length::Chunked(0), finished }
            } else {
                ReadStep::BadEnd
            }
        },
    }
}

/// The consumed count and length state that a failed read or peek leaves:
/// a chunk-size line that is complete in `avail` stays consumed, and
/// nothing else is.
pub open spec fn failure_state(length: Length, finished: bool, avail: Seq<u8>) -> (nat, Length) {
    if length == Length::Chunked(0) && !finished {
        match chunk_size_line(avail) {
            ChunkSizeLine::Complete { consumed, size } => if 0 < size <= usize::MAX {
                (consumed as nat, Length::Chunked(size as usize))
            } else {
                (0, length)
            },
            _ => (0, length),
        }
    } else {
        (0, length)
    }
}

/// The bytes of `now` that `before` had not consumed: what was buffered
/// then, followed by everything read since.
pub open spec fn unread_since<T: Transport>(before: AccReader<T>, now: AccReader<T>) -> Seq<u8> {
    now.received().subrange(before.taken() as int, now.received().len() as int)
}

/// `now` holds every byte `before` had received, and has consumed no fewer.
pub open spec fn extends<T: Transport>(before: AccReader<T>, now: AccReader<T>) -> bool {
    &&& before.received().len() <= now.received().len()
    &&& now.received().subrange(0, before.received().len() as int) == before.received()
    &&& before.taken() <= now.taken()
    &&& before.empty_reads() <= now.empty_reads()
    &&& before.failed_reads() <= now.failed_reads()
}

proof fn lemma_extends_refl<T: Transport>(a: AccReader<T>)
    ensures
        extends(a, a),
{
    assert(a.received().subrange(0, a.received().len() as int) =~= a.received());
}

proof fn lemma_extends_trans<T: Transport>(a: AccReader<T>, b: AccReader<T>, c: AccReader<T>)
    requires
        extends(a, b),
        extends(b, c),
    ensures
        extends(a, c),
{
    assert(c.received().subrange(0, a.received().len() as int) =~= b.received().subrange(
        0,
        a.received().len() as int,
    ));
}

/// When `b` has consumed no more than `a`, what `a` had not consumed, seen
/// from `c`, is what it had not consumed in `b` followed by what `c` added.
proof fn lemma_unread_split<T: Transport>(a: AccReader<T>, b: AccReader<T>, c: AccReader<T>)
    requires
        b.wf(),
        extends(b, c),
        a.taken() == b.taken(),
    ensures
        unread_since(a, c) == unread_since(a, b) + c.received().subrange(
            b.received().len() as int,
            c.received().len() as int,
        ),
{
    b.lemma_pending_is_unconsumed_suffix();
    assert forall|i: int| 0 <= i < b.received().len() implies c.received()[i] == b.received()[i] by {
        assert(c.received().subrange(0, b.received().len() as int)[i] == c.received()[i]);
    }
    assert(unread_since(a, c) =~= unread_since(a, b) + c.received().subrange(
        b.received().len() as int,
        c.received().len() as int,
    ));
}

/// A chunk-size line completed on the bytes at hand in `b` stays complete
/// as `c` receives more, and the data after it is what `b` had not consumed.
proof fn lemma_line_then_data<T: Transport>(a: AccReader<T>, b: AccReader<T>, c: AccReader<T>)
    requires
        a.wf(),
        b.wf(),
        extends(a, b),
        extends(b, c),
        chunk_size_line(unread_since(a, b)) is Complete,
        b.taken() == a.taken() + chunk_size_line(unread_since(a, b))->consumed,
    ensures
        chunk_size_line(unread_since(a, c)) == chunk_size_line(unread_since(a, b)),
        unread_since(a, c).subrange(
            chunk_size_line(unread_since(a, b))->consumed as int,
            unread_since(a, c).len() as int,
        ) == unread_since(b, c),
{
    b.lemma_pending_is_unconsumed_suffix();
    a.lemma_pending_is_unconsumed_suffix();
    let u = unread_since(a, b);
    let fresh = c.received().subrange(b.received().len() as int, c.received().len() as int);
    assert forall|i: int| 0 <= i < b.received().len() implies c.received()[i] == b.received()[i] by {
        assert(c.received().subrange(0, b.received().len() as int)[i] == c.received()[i]);
    }
    assert(unread_since(a, c) =~= u + fresh);
    crate::chunk::lemma_chunk_size_line_prefix_stable(u, fresh);
    let all = unread_since(a, c);
    assert(all.subrange(chunk_size_line(u)->consumed as int, all.len() as int) =~= unread_since(b, c));
}

/// A message body: decodes the bytes of an accumulating reader according
/// to the body's length mode.
pub struct Body<T: Transport> {
    stream: AccReader<T>,
    length: Length,
    at_eof: bool,
    finished: bool,
}

impl<T: Transport> Body<T> {
    pub closed spec fn reader(&self) -> AccReader<T> {
        self.stream
    }

    /// The body's length state.
    pub closed spec fn remaining(&self) -> Length {
        self.length
    }

    /// Whether the transport has signalled end-of-stream.
    pub closed spec fn ended(&self) -> bool {
        self.at_eof
    }

    /// Whether the terminal chunk of a chunked body has been read.
    pub closed spec fn finished(&self) -> bool {
        self.finished
    }

    pub open spec fn wf(&self) -> bool {
        &&& self.reader().wf()
        &&& self.finished() ==> self.remaining() == Length::Chunked(0)
    }

    /// What `now`, reached from `before`, tells of the transport: it has
    /// ended exactly when `before` had or a read since returned no bytes, and
    /// a read since has failed exactly when `failed` holds.
    pub open spec fn reads_agree(before: Self, now: Self, failed: bool) -> bool {
        &&& now.ended() == (before.ended() || now.reader().empty_reads() > before.reader().empty_reads())
        &&& failed == (now.reader().failed_reads() > before.reader().failed_reads())
    }

    /// A body over `stream`, whose buffered bytes are the first body bytes.
    /// `at_eof` records whether the transport has already ended.
    pub fn new(stream: AccReader<T>, length: Length, at_eof: bool) -> (r: Self)
        ensures
            r.reader() == stream,
            r.remaining() == length,
            r.ended() == at_eof,
            !r.finished(),
    {
        Body { stream, length, at_eof, finished: false }
    }

    /// Gives back the reader, with whatever it still buffers.
    pub fn into_inner(self) -> (r: AccReader<T>)
        ensures
            r == self.reader(),
    {
        self.stream
    }

    /// The body's length state.
    pub fn length(&self) -> (r: Length)
        ensures
            r == self.remaining(),
    {
        self.length
    }

    /// Whether the transport has signalled end-of-stream.
    pub fn at_eof(&self) -> (r: bool)
        ensures
            r == self.ended(),
    {
        self.at_eof
    }

    /// Reads from the transport until `need` bytes are buffered or it ends.
    fn fill_to(&mut self, need: usize) -> (r: Result<(), TransportError>)
        requires
            old(self).wf(),
        ensures
            final(self).wf(),
            extends(old(self).reader(), final(self).reader()),
            final(self).reader().taken() == old(self).reader().taken(),
            final(self).length == old(self).length,
            final(self).finished == old(self).finished,
            old(self).at_eof ==> final(self).at_eof,
            old(self).at_eof || old(self).reader().pending().len() >= need ==> *final(self) == *old(self) && r is Ok,
            r is Ok ==> final(self).reader().pending().len() >= need || final(self).at_eof,
            Self::reads_agree(*old(self), *final(self), r is Err),
    {
        proof {
            lemma_extends_refl(self.stream);
        }
        while self.stream.available() < need && !self.at_eof
            invariant
                self.wf(),
                extends(old(self).reader(), self.reader()),
                self.reader().taken() == old(self).reader().taken(),
                self.length == old(self).length,
                self.finished == old(self).finished,
                old(self).at_eof ==> self.at_eof,
                old(self).at_eof || old(self).reader().pending().len() >= need ==> *self == *old(self),
                self.at_eof == (old(self).at_eof || self.stream.empty_reads() > old(self).stream.empty_reads()),
                self.stream.failed_reads() == old(self).stream.failed_reads(),
            decreases
                (if self.stream.pending().len() < need { need - self.stream.pending().len() } else { 0 })
                    + (if self.at_eof { 0int } else { 1int }),
        {
            let ghost before = self.stream;
            match self.stream.fill() {
                Ok(n) => {
                    proof {
                        lemma_extends_trans(old(self).reader(), before, self.stream);
                    }
                    if n == 0 {
                        self.at_eof = true;
                    }
                },
                Err(e) => {
                    return Err(e);
                },
            }
        }
        Ok(())
    }

    /// Scans the next chunk-size line, reading from the transport until it
    /// is complete or the transport ends. `Ok(true)`: a chunk with data has
    /// begun; `Ok(false)`: the terminal chunk was read, or the transport
    /// ended first.
    fn start_chunk(&mut self) -> (res: Result<bool, BodyError>)
        requires
            old(self).wf(),
            old(self).length == Length::Chunked(0),
            !old(self).finished,
        ensures
            Self::reads_agree(*old(self), *final(self), res matches Err(BodyError::Transport(_))),
            final(self).wf(),
            extends(old(self).reader(), final(self).reader()),
            old(self).at_eof ==> final(self).at_eof && final(self).reader().received() == old(self).reader().received(),
            !(chunk_size_line(old(self).reader().pending()) is Partial) || old(self).at_eof ==> {
                &&& final(self).reader().received() == old(self).reader().received()
                &&& final(self).at_eof == old(self).at_eof
                &&& !(res matches Err(BodyError::Transport(_)))
            },
            ({
                let line = chunk_size_line(unread_since(old(self).reader(), final(self).reader()));
                match res {
                    Ok(true) => {
                        &&& line is Complete
                        &&& 0 < line->size <= usize::MAX
                        &&& final(self).length == Length::Chunked(line->size as usize)
                        &&& final(self).reader().taken() == old(self).reader().taken() + line->consumed
                        &&& !final(self).finished
                    },
                    Ok(false) => {
                        &&& final(self).length == Length::Chunked(0)
                        &&& {
                            ||| line is Complete && line->size == 0 && final(self).finished
                                && final(self).reader().taken() == old(self).reader().taken() + line->consumed
                            ||| line is Partial && final(self).at_eof && !final(self).finished
                                && final(self).reader().taken() == old(self).reader().taken()
                        }
                    },
                    Err(BodyError::InvalidChunkSize) => {
                        &&& line is Invalid || (line is Complete && line->size > usize::MAX)
                        &&& final(self).length == old(self).length
                        &&& !final(self).finished
                        &&& final(self).reader().taken() == old(self).reader().taken()
                    },
                    Err(BodyError::InvalidChunkEnd) => false,
                    Err(BodyError::Transport(_)) => {
                        &&& line is Partial
                        &&& final(self).length == old(self).length
                        &&& !final(self).finished
                        &&& final(self).reader().taken() == old(self).reader().taken()
                    },
                }
            }),
    {
        proof {
            lemma_extends_refl(self.stream);
            self.stream.lemma_pending_is_unconsumed_suffix();
        }
        loop
            invariant
                self.wf(),
                extends(old(self).reader(), self.reader()),
                self.reader().taken() == old(self).reader().taken(),
                self.length == Length::Chunked(0),
                old(self).length == Length::Chunked(0),
                !self.finished,
                self.at_eof == old(self).at_eof,
                self.stream.empty_reads() == old(self).stream.empty_reads(),
                self.stream.failed_reads() == old(self).stream.failed_reads(),
                old(self).wf(),
                old(self).at_eof ==> self.reader().received() == old(self).reader().received(),
                !(chunk_size_line(old(self).reader().pending()) is Partial) || old(self).at_eof
                    ==> self.reader().received() == old(self).reader().received(),
                unread_since(old(self).reader(), self.stream) == self.stream.pending(),
            decreases usize::MAX - self.stream.pending().len(),
        {
            proof {
                self.stream.lemma_pending_is_unconsumed_suffix();
            }
            match parse_chunk_size(self.stream.buffer()) {
                ChunkSizeLine::Invalid => {
                    return Err(BodyError::InvalidChunkSize);
                },
                ChunkSizeLine::Partial => {
                    if self.at_eof {
                        return Ok(false);
                    }
                    proof {
                        old(self).reader().lemma_pending_is_unconsumed_suffix();
                        if !(chunk_size_line(old(self).reader().pending()) is Partial) || old(self).at_eof {
                            assert(self.stream.pending() == old(self).reader().pending());
                        }
                    }
                    let ghost before = self.stream;
                    match self.stream.fill() {
                        Ok(n) => {
                            proof {
                                lemma_extends_trans(old(self).reader(), before, self.stream);
                                self.stream.lemma_pending_is_unconsumed_suffix();
                            }
                            assert(unread_since(old(self).reader(), self.stream) == self.stream.pending());
                            if n == 0 {
                                self.at_eof = true;
                                return Ok(false);
                            }
                        },
                        Err(e) => {
                            assert(self.stream.received() == before.received());
                            assert(self.stream.taken() == before.taken());
                            assert(unread_since(old(self).reader(), self.stream) == unread_since(old(self).reader(), before));
                            return Err(BodyError::Transport(e));
                        },
                    }
                },
                ChunkSizeLine::Complete { consumed, size } => {
                    let ghost at_parse = self.stream;
                    proof {
                        crate::chunk::lemma_chunk_size_line_bounds(self.stream.pending());
                    }
                    if size > usize::MAX as u64 {
                        return Err(BodyError::InvalidChunkSize);
                    }
                    self.stream.consume(consumed);
                    proof {
                        lemma_extends_refl(at_parse);
                        lemma_extends_trans(old(self).reader(), at_parse, self.stream);
                    }
                    if size == 0 {
                        self.finished = true;
                        return Ok(false);
                    }
                    self.length = Length::Chunked(size as usize);
                    return Ok(true);
                },
            }
        }
    }

    /// Reads the rest of chunk data, `r > 0` bytes, up to `max_len` bytes,
    /// and its CRLF when the chunk ends in this read.
    fn read_chunk_data(&mut self, into: &mut Vec<u8>, r: usize, max_len: usize) -> (res: Result<usize, BodyError>)
        requires
            old(self).wf(),
            r > 0,
            max_len > 0,
            !old(self).finished,
        ensures
            Self::reads_agree(*old(self), *final(self), res matches Err(BodyError::Transport(_))),
            final(self).wf(),
            extends(old(self).reader(), final(self).reader()),
            old(self).at_eof ==> final(self).at_eof && final(self).reader().received() == old(self).reader().received(),
            final(self).finished == old(self).finished,
            !(data_step(r as nat, old(self).reader().pending(), max_len as nat, old(self).at_eof) is Starved) ==> {
                &&& final(self).reader().received() == old(self).reader().received()
                &&& final(self).at_eof == old(self).at_eof
                &&& !(res matches Err(BodyError::Transport(_)))
            },
            ({
                let step = data_step(
                    r as nat,
                    unread_since(old(self).reader(), final(self).reader()),
                    max_len as nat,
                    final(self).at_eof,
                );
                match res {
                    Ok(n) => {
                        &&& step is Done
                        &&& n == step->out.len()
                        &&& final(into)@ == old(into)@ + step->out
                        &&& final(self).reader().taken() == old(self).reader().taken() + step->used
                        &&& final(self).length == step->length
                        &&& !step->finished
                    },
                    Err(BodyError::InvalidChunkEnd) => {
                        &&& step is BadEnd
                        &&& final(into)@ == old(into)@
                        &&& final(self).length == old(self).length
                        &&& final(self).reader().taken() == old(self).reader().taken()
                    },
                    Err(BodyError::InvalidChunkSize) => false,
                    Err(BodyError::Transport(_)) => {
                        &&& final(into)@ == old(into)@
                        &&& final(self).length == old(self).length
                        &&& final(self).reader().taken() == old(self).reader().taken()
                    },
                }
            }),
    {
        let k: usize = if r < max_len {
            r
        } else {
            max_len
        };
        match self.fill_to(k) {
            Ok(()) => {},
            Err(e) => {
                return Err(BodyError::Transport(e));
            },
        }
        let avail = self.stream.available();
        proof {
            self.stream.lemma_pending_is_unconsumed_suffix();
        }
        assert(unread_since(old(self).reader(), self.stream) == self.stream.pending());
        if avail < k {
            self.stream.copy_to(into, avail);
            self.length = Length::Chunked(r - avail);
            return Ok(avail);
        }
        if k < r {
            self.stream.copy_to(into, k);
            self.length = Length::Chunked(r - k);
            return Ok(k);
        }
        if r > usize::MAX - 2 {
            return Err(BodyError::InvalidChunkEnd);
        }
        let ghost mid = self.stream;
        let filled = self.fill_to(r + 2);
        proof {
            lemma_extends_trans(old(self).reader(), mid, self.stream);
        }
        match filled {
            Ok(()) => {},
            Err(e) => {
                return Err(BodyError::Transport(e));
            },
        }
        proof {
            self.stream.lemma_pending_is_unconsumed_suffix();
        }
        assert(unread_since(old(self).reader(), self.stream) == self.stream.pending());
        let avail = self.stream.available();
        if avail < r + 2 {
            return Err(BodyError::InvalidChunkEnd);
        }
        if self.stream.byte_at(r) == CR && self.stream.byte_at(r + 1) == LF {
            self.stream.copy_to(into, r);
            self.stream.consume(2);
            self.length = Length::Chunked(0);
            Ok(r)
        } else {
            Err(BodyError::InvalidChunkEnd)
        }
    }

    /// Appends up to `max_len` body bytes to `into`, reading from the
    /// transport as needed, and returns how many were appended. Zero means
    /// the body is over, or the transport ended, or `max_len` is zero.
    ///
    /// The outcome depends only on the bytes the transport has produced, not
    /// on how they were split across low-level reads.
    pub fn read(&mut self, into: &mut Vec<u8>, max_len: usize) -> (res: Result<usize, BodyError>)
        requires
            old(self).wf(),
        ensures
            Self::reads_agree(*old(self), *final(self), res matches Err(BodyError::Transport(_))),
            final(self).wf(),
            extends(old(self).reader(), final(self).reader()),
            old(self).ended() ==> final(self).ended() && final(self).reader().received() == old(
                self,
            ).reader().received(),
            !(read_step(
                old(self).remaining(),
                old(self).finished(),
                old(self).reader().pending(),
                max_len as nat,
                old(self).ended(),
            ) is Starved) ==> {
                &&& final(self).reader().received() == old(self).reader().received()
                &&& !(res matches Err(BodyError::Transport(_)))
            },
            ({
                let step = read_step(
                    old(self).remaining(),
                    old(self).finished(),
                    unread_since(old(self).reader(), final(self).reader()),
                    max_len as nat,
                    final(self).ended(),
                );
                let failed = failure_state(
                    old(self).remaining(),
                    old(self).finished(),
                    unread_since(old(self).reader(), final(self).reader()),
                );
                match res {
                    Ok(n) => {
                        &&& step is Done
                        &&& n == step->out.len()
                        &&& final(into)@ == old(into)@ + step->out
                        &&& final(self).reader().taken() == old(self).reader().taken() + step->used
                        &&& final(self).remaining() == step->length
                        &&& final(self).finished() == step->finished
                    },
                    Err(e) => {
                        &&& e is InvalidChunkSize ==> step is BadSize
                        &&& e is InvalidChunkEnd ==> step is BadEnd
                        &&& final(into)@ == old(into)@
                        &&& final(self).reader().taken() == old(self).reader().taken() + failed.0
                        &&& final(self).remaining() == failed.1
                        &&& final(self).finished() == old(self).finished()
                    },
                }
            }),
    {
        proof {
            lemma_extends_refl(self.stream);
        }
        proof {
            self.stream.lemma_pending_is_unconsumed_suffix();
        }
        assert(unread_since(old(self).reader(), self.stream) == self.stream.pending());
        match self.length {
            Length::NoBody => Ok(0),
            Length::ContentLength(n) => {
                let k: usize = if n < max_len {
                    n
                } else {
                    max_len
                };
                match self.fill_to(k) {
                    Ok(()) => {},
                    Err(e) => {
                        return Err(BodyError::Transport(e));
                    },
                }
                proof {
                    self.stream.lemma_pending_is_unconsumed_suffix();
                }
                assert(unread_since(old(self).reader(), self.stream) == self.stream.pending());
                let avail = self.stream.available();
                let got: usize = if avail < k {
                    avail
                } else {
                    k
                };
                self.stream.copy_to(into, got);
                self.length = Length::ContentLength(n - got);
                Ok(got)
            },
            Length::Chunked(r) => {
                if self.finished || max_len == 0 {
                    return Ok(0);
                }
                if r > 0 {
                    return self.read_chunk_data(into, r, max_len);
                }
                let ghost entry = self.stream;
                match self.start_chunk() {
                    Ok(true) => {},
                    Ok(false) => {
                        return Ok(0);
                    },
                    Err(e) => {
                        return Err(e);
                    },
                }
                let size = match self.length {
                    Length::Chunked(size) => size,
                    _ => 0,
                };
                let ghost mid = self.stream;
                proof {
                    old(self).reader().lemma_pending_is_unconsumed_suffix();
                    mid.lemma_pending_is_unconsumed_suffix();
                    if mid.received() == old(self).reader().received() {
                        let p = old(self).reader().pending();
                        let c = chunk_size_line(p)->consumed;
                        assert(unread_since(old(self).reader(), mid) == p);
                        assert(mid.pending() =~= p.subrange(c as int, p.len() as int));
                    }
                }
                let res = self.read_chunk_data(into, size, max_len);
                proof {
                    lemma_line_then_data(old(self).reader(), mid, self.stream);
                    lemma_extends_trans(old(self).reader(), mid, self.stream);
                }
                res
            },
        }
    }

    /// Offers the body bytes at hand without consuming them, reading from
    /// the transport once if none are buffered (or, for a chunked body, until
    /// the next chunk-size line is complete). The copy holds at most what is
    /// left of the current chunk or content.
    pub fn fill_buf(&mut self) -> (res: Result<Vec<u8>, BodyError>)
        requires
            old(self).wf(),
        ensures
            Self::reads_agree(*old(self), *final(self), res matches Err(BodyError::Transport(_))),
            final(self).wf(),
            extends(old(self).reader(), final(self).reader()),
            old(self).ended() ==> final(self).ended() && final(self).reader().received() == old(
                self,
            ).reader().received(),
            !(peek_step(old(self).remaining(), old(self).finished(), old(self).reader().pending(), old(self).ended())
                is Starved) ==> {
                &&& final(self).reader().received() == old(self).reader().received()
                &&& !(res matches Err(BodyError::Transport(_)))
            },
            ({
                let step = peek_step(
                    old(self).remaining(),
                    old(self).finished(),
                    unread_since(old(self).reader(), final(self).reader()),
                    final(self).ended(),
                );
                let failed = failure_state(
                    old(self).remaining(),
                    old(self).finished(),
                    unread_since(old(self).reader(), final(self).reader()),
                );
                match res {
                    Ok(v) => {
                        &&& step is Done
                        &&& v@ == step->out
                        &&& final(self).reader().taken() == old(self).reader().taken() + step->used
                        &&& final(self).remaining() == step->length
                        &&& final(self).finished() == step->finished
                    },
                    Err(e) => {
                        &&& !(e is InvalidChunkEnd)
                        &&& e is InvalidChunkSize ==> step is BadSize
                        &&& final(self).reader().taken() == old(self).reader().taken() + failed.0
                        &&& final(self).remaining() == failed.1
                        &&& final(self).finished() == old(self).finished()
                    },
                }
            }),
    {
        proof {
            lemma_extends_refl(self.stream);
            self.stream.lemma_pending_is_unconsumed_suffix();
        }
        match self.length {
            Length::NoBody => Ok(Vec::new()),
            Length::ContentLength(n) => {
                if n == 0 {
                    return Ok(Vec::new());
                }
                match self.fill_to(1) {
                    Ok(()) => {},
                    Err(e) => {
                        return Err(BodyError::Transport(e));
                    },
                }
                proof {
                    self.stream.lemma_pending_is_unconsumed_suffix();
                }
                assert(unread_since(old(self).reader(), self.stream) == self.stream.pending());
                let avail = self.stream.available();
                let k: usize = if n < avail {
                    n
                } else {
                    avail
                };
                Ok(self.stream.peek(k))
            },
            Length::Chunked(r) => {
                if self.finished {
                    return Ok(Vec::new());
                }
                let ghost mid = self.stream;
                let mut r = r;
                if r == 0 {
                    match self.start_chunk() {
                        Ok(true) => {},
                        Ok(false) => {
                            return Ok(Vec::new());
                        },
                        Err(e) => {
                            return Err(e);
                        },
                    }
                    r = match self.length {
                        Length::Chunked(size) => size,
                        _ => 0,
                    };
                    proof {
                        mid = self.stream;
                        old(self).reader().lemma_pending_is_unconsumed_suffix();
                        mid.lemma_pending_is_unconsumed_suffix();
                        if mid.received() == old(self).reader().received() {
                            let p = old(self).reader().pending();
                            let c = chunk_size_line(p)->consumed;
                            assert(unread_since(old(self).reader(), mid) == p);
                            assert(mid.pending() =~= p.subrange(c as int, p.len() as int));
                        }
                    }
                }
                let ghost before_fill = self.stream;
                match self.fill_to(1) {
                    Ok(()) => {},
                    Err(e) => {
                        proof {
                            lemma_extends_trans(old(self).reader(), before_fill, self.stream);
                            if old(self).length == Length::Chunked(0) {
                                lemma_extends_refl(mid);
                                lemma_line_then_data(old(self).reader(), mid, self.stream);
                            }
                        }
                        return Err(BodyError::Transport(e));
                    },
                }
                proof {
                    lemma_extends_trans(old(self).reader(), before_fill, self.stream);
                    self.stream.lemma_pending_is_unconsumed_suffix();
                    if old(self).length == Length::Chunked(0) {
                        lemma_line_then_data(old(self).reader(), mid, self.stream);
                    }
                }
                assert(unread_since(mid, self.stream) == self.stream.pending());
                let avail = self.stream.available();
                let k: usize = if r < avail {
                    r
                } else {
                    avail
                };
                Ok(self.stream.peek(k))
            },
        }
    }

    /// Marks `amt` peeked body bytes as processed. When they end a chunk,
    /// the chunk's CRLF is checked and consumed too, reading from the
    /// transport if it is not buffered yet.
    pub fn consume(&mut self, amt: usize) -> (res: Result<(), BodyError>)
        requires
            old(self).wf(),
            amt <= consumable(old(self).remaining(), old(self).finished(), old(self).reader().pending().len()),
        ensures
            Self::reads_agree(*old(self), *final(self), res matches Err(BodyError::Transport(_))),
            final(self).wf(),
            extends(old(self).reader(), final(self).reader()),
            old(self).ended() ==> final(self).ended() && final(self).reader().received() == old(
                self,
            ).reader().received(),
            final(self).finished() == old(self).finished(),
            !(consume_step(
                old(self).remaining(),
                old(self).finished(),
                old(self).reader().pending(),
                amt as nat,
                old(self).ended(),
            ) is Starved) ==> {
                &&& final(self).reader().received() == old(self).reader().received()
                &&& !(res matches Err(BodyError::Transport(_)))
            },
            ({
                let step = consume_step(
                    old(self).remaining(),
                    old(self).finished(),
                    unread_since(old(self).reader(), final(self).reader()),
                    amt as nat,
                    final(self).ended(),
                );
                match res {
                    Ok(()) => {
                        &&& step is Done
                        &&& final(self).reader().taken() == old(self).reader().taken() + step->used
                        &&& final(self).remaining() == step->length
                    },
                    Err(BodyError::InvalidChunkEnd) => {
                        &&& step is BadEnd
                        &&& final(self).remaining() == old(self).remaining()
                        &&& final(self).reader().taken() == old(self).reader().taken()
                    },
                    Err(BodyError::InvalidChunkSize) => false,
                    Err(BodyError::Transport(_)) => {
                        &&& final(self).remaining() == old(self).remaining()
                        &&& final(self).reader().taken() == old(self).reader().taken()
                    },
                }
            }),
    {
        proof {
            lemma_extends_refl(self.stream);
            self.stream.lemma_pending_is_unconsumed_suffix();
        }
        match self.length {
            Length::NoBody => Ok(()),
            Length::ContentLength(n) => {
                self.stream.consume(amt);
                self.length = Length::ContentLength(n - amt);
                Ok(())
            },
            Length::Chunked(r) => {
                if amt < r || r == 0 {
                    self.stream.consume(amt);
                    self.length = Length::Chunked(r - amt);
                    return Ok(());
                }
                if r > usize::MAX - 2 {
                    return Err(BodyError::InvalidChunkEnd);
                }
                match self.fill_to(r + 2) {
                    Ok(()) => {},
                    Err(e) => {
                        return Err(BodyError::Transport(e));
                    },
                }
                proof {
                    self.stream.lemma_pending_is_unconsumed_suffix();
                }
                assert(unread_since(old(self).reader(), self.stream) == self.stream.pending());
                let avail = self.stream.available();
                if avail < r + 2 {
                    return Err(BodyError::InvalidChunkEnd);
                }
                if self.stream.byte_at(r) == CR && self.stream.byte_at(r + 1) == LF {
                    self.stream.consume(r + 2);
                    self.length = Length::Chunked(0);
                    Ok(())
                } else {
                    Err(BodyError::InvalidChunkEnd)
                }
            },
        }
    }
}

} // verus!
