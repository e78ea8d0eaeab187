use vstd::prelude::*;

use crate::accumulator::AccReader;
use crate::body::{extends, unread_since};
use crate::headers::Header;
use crate::transport::{Transport, TransportError};

verus! {

#[verifier::external_type_specification]
#[verifier::external_body]
pub struct ExParseError(httparse::Error);

/// The server side of a connection: it reads a request and writes a
/// response over a transport.
pub struct Server;

/// A request line and its headers.
pub struct RequestHead {
    pub method: String,
    pub path: String,
    /// The minor version of HTTP/1.x.
    pub version: u8,
    pub headers: Vec<Header>,
}

/// The outcome of parsing a request preamble.
pub enum HeadParse {
    /// The preamble is complete and takes `len` bytes.
    Complete { head: RequestHead, len: usize },
    /// More bytes are needed.
    Partial,
    /// The bytes cannot start a request.
    Invalid(httparse::Error),
}

/// Why a request preamble could not be read.
#[derive(Debug)]
pub enum HeadError {
    Transport(TransportError),
    Parser(httparse::Error),
    /// The transport ended inside the preamble.
    Truncated,
}

// What the request parser makes of `buf`: `None` when the bytes cannot
// start a request, `Some(None)` when more bytes are needed, and for a
// complete preamble `Some(Some((n, method, path, version, headers)))`: it
// takes the first `n` bytes, and holds that request line and those
// (name, value) header pairs in order.
pub uninterp spec fn request_preamble(buf: Seq<u8>) -> Option<
    Option<(usize, Seq<char>, Seq<char>, u8, Seq<(Seq<u8>, Seq<u8>)>)>,
>;

/// A request head, with the length of the preamble it came from, as plain
/// values.
pub open spec fn head_view(len: usize, head: RequestHead) -> (usize, Seq<char>, Seq<char>, u8, Seq<(Seq<u8>, Seq<u8>)>) {
    (len, head.method@, head.path@, head.version, head.headers@.map_values(|h: Header| (h.name@, h.value@)))
}

/// The outcome that `request_preamble` names for a parse result.
pub open spec fn preamble_of(r: HeadParse) -> Option<Option<(usize, Seq<char>, Seq<char>, u8, Seq<(Seq<u8>, Seq<u8>)>)>> {
    match r {
        HeadParse::Complete { head, len } => Some(Some(head_view(len, head))),
        HeadParse::Partial => Some(None),
        HeadParse::Invalid(_) => None,
    }
}

/// Relies on httparse::Request::parse: its outcome depends on the bytes
/// alone; a complete preamble reports the request line, its headers (thirty
/// at most) and the number of bytes it took, which never exceeds the buffer.
#[verifier::external_body]
fn parse_request_head(buf: &[u8]) -> (r: HeadParse)
    ensures
        request_preamble(buf@) == preamble_of(r),
        r is Complete ==> r->len <= buf@.len(),
{
    let mut headers = [httparse::EMPTY_HEADER; 30];
    let mut req = httparse::Request::new(&mut headers);
    match req.parse(buf) {
        Ok(httparse::Status::Complete(len)) => {
            let fields = req.headers.iter().map(|h| Header { name: h.name.as_bytes().to_vec(), value: h.value.to_vec() });
            let (method, path) = (req.method.unwrap().to_string(), req.path.unwrap().to_string());
            let head = RequestHead { method, path, version: req.version.unwrap(), headers: fields.collect() };
            HeadParse::Complete { head, len }
        },
        Ok(httparse::Status::Partial) => HeadParse::Partial,
        Err(e) => HeadParse::Invalid(e),
    }
}

/// Reads from the transport until the buffered bytes start with a complete
/// request preamble, and consumes exactly that preamble: what follows stays
/// buffered as the first body bytes. Bytes already buffered are parsed
/// before any read, and no read is made once they settle the outcome.
pub fn read_request_head<T: Transport>(acc: &mut AccReader<T>) -> (r: Result<RequestHead, HeadError>)
    requires
        old(acc).wf(),
    ensures
        final(acc).wf(),
        extends(*old(acc), *final(acc)),
        ({
            let u = unread_since(*old(acc), *final(acc));
            let consumed = (final(acc).taken() - old(acc).taken()) as usize;
            &&& r matches Ok(head) ==> request_preamble(u) == Some(Some(head_view(consumed, head)))
            &&& r matches Err(HeadError::Parser(_)) ==> request_preamble(u) is None
            &&& r matches Err(HeadError::Truncated) ==> request_preamble(u) is Some && request_preamble(u)->0 is None
            &&& r matches Err(HeadError::Transport(_)) ==> request_preamble(u) is Some && request_preamble(u)->0 is None
            &&& r is Err ==> final(acc).taken() == old(acc).taken()
        }),
        (r matches Err(HeadError::Truncated)) == (final(acc).empty_reads() > old(acc).empty_reads()),
        (r matches Err(HeadError::Transport(_))) == (final(acc).failed_reads() > old(acc).failed_reads()),
        !(request_preamble(old(acc).pending()) is Some && request_preamble(old(acc).pending())->0 is None) ==> {
            &&& final(acc).received() == old(acc).received()
            &&& request_preamble(old(acc).pending()) is Some ==> r is Ok
            &&& request_preamble(old(acc).pending()) is None ==> r matches Err(HeadError::Parser(_))
        },
{
    proof {
        acc.lemma_pending_is_unconsumed_suffix();
        assert(acc.received().subrange(0, acc.received().len() as int) =~= acc.received());
    }
    loop
        invariant
            acc.wf(),
            old(acc).wf(),
            extends(*old(acc), *acc),
            acc.taken() == old(acc).taken(),
            unread_since(*old(acc), *acc) == acc.pending(),
            acc.empty_reads() == old(acc).empty_reads(),
            acc.failed_reads() == old(acc).failed_reads(),
            !(request_preamble(old(acc).pending()) is Some && request_preamble(old(acc).pending())->0 is None)
                ==> acc.received() == old(acc).received(),
        decreases usize::MAX - acc.pending().len(),
    {
        proof {
            acc.lemma_pending_is_unconsumed_suffix();
            old(acc).lemma_pending_is_unconsumed_suffix();
            if acc.received() == old(acc).received() {
                assert(acc.pending() == old(acc).pending());
            }
        }
        match parse_request_head(acc.buffer()) {
            HeadParse::Complete { head, len } => {
                acc.consume(len);
                proof {
                    acc.lemma_pending_is_unconsumed_suffix();
                }
                return Ok(head);
            },
            HeadParse::Invalid(e) => {
                return Err(HeadError::Parser(e));
            },
            HeadParse::Partial => {
                let ghost before = *acc;
                match acc.fill() {
                    Ok(n) => {
                        proof {
                            assert(acc.received().subrange(0, old(acc).received().len() as int)
                                =~= before.received().subrange(0, old(acc).received().len() as int));
                            acc.lemma_pending_is_unconsumed_suffix();
                        }
                        if n == 0 {
                            return Err(HeadError::Truncated);
                        }
                    },
                    Err(e) => {
                        return Err(HeadError::Transport(e));
                    },
                }
            },
        }
    }
}

} // verus!
