use vstd::prelude::*;

verus! {

/// What a transport reports when a low-level read or write fails.
#[derive(Debug)]
pub struct TransportError {
    pub description: String,
}

/// A byte stream that can be read from and written to: a plain socket, an
/// encrypted session, or anything else that moves octets.
///
/// Nothing is assumed about what a read hands back: every property of the
/// readers built on top of a transport holds for every sequence of results.
pub trait Transport {
    /// Performs one low-level read. An empty vector signals end-of-stream.
    fn read_some(&mut self) -> Result<Vec<u8>, TransportError>;

    /// Writes all of `data`.
    fn write_all(&mut self, data: &[u8]) -> Result<(), TransportError>;
}

} // verus!
