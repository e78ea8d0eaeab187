use vstd::prelude::*;

verus! {

/// Why a host could not be reached.
#[derive(PartialEq, Eq, Structural, Clone, Copy, Debug)]
pub enum ResolverError {
    NotFound,
    ConnectionFailed,
    InvalidScheme,
}

} // verus!
