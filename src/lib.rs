use vstd::prelude::*;

pub mod accumulator;
pub mod body;
pub mod chunk;
pub mod drain;
pub mod error;
pub mod framing;
pub mod headers;
pub mod server;
pub mod transport;

use crate::body::{Body, Length};
use crate::transport::Transport;

verus! {

/// Tells whether a body's size is known up front, so that it can be sent
/// as is after a `Content-Length` header rather than chunked.
///
/// Implementations promise nothing to the verifier: callers outside this
/// crate implement it for their own body types.
pub trait HasLength {
    fn has_length(&self) -> Option<usize>;
}

impl HasLength for Vec<u8> {
    fn has_length(&self) -> (r: Option<usize>)
        ensures
            r == Some(self@.len() as usize),
    {
        Some(self.len())
    }
}

impl<'a> HasLength for &'a [u8] {
    fn has_length(&self) -> (r: Option<usize>)
        ensures
            r == Some(self@.len() as usize),
    {
        Some(self.len())
    }
}

impl<T: Transport> HasLength for Body<T> {
    fn has_length(&self) -> (r: Option<usize>)
        ensures
            r == match self.remaining() {
                Length::ContentLength(n) => Some(n),
                _ => None,
            },
    {
        match self.length() {
            Length::ContentLength(sz) => Some(sz),
            _ => None,
        }
    }
}

} // verus!
