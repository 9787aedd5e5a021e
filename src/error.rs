use vstd::prelude::*;

verus! {

/// A read that would leave the buffer (or the chunk payload it belongs to).
#[derive(Debug, Clone, Copy, PartialEq, Eq, Structural)]
pub enum WavError {
    Malformed,
}

} // verus!
