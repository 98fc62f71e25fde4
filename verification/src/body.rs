//! Body sizing for responses. A body is either absent (no bytes are ever
//! written for it) or a known number of bytes.

use vstd::prelude::*;

verus! {

/// The size of a message body: absent, or a known byte count.
#[derive(Debug, Clone, Copy, PartialEq, Eq, Structural)]
pub enum BodySize {
    /// The body is absent; it contributes no bytes at all.
    Absent,
    /// The body is a known number of bytes.
    Sized(u64),
}

impl BodySize {
    /// True when the body contributes no further bytes: it is absent or empty.
    pub fn is_eof(&self) -> (r: bool)
        ensures
            r == (*self == BodySize::Absent || *self == BodySize::Sized(0)),
    {
        match self {
            BodySize::Absent => true,
            BodySize::Sized(n) => *n == 0,
        }
    }
}

/// A body that is always absent.
#[derive(Debug, Clone, Copy)]
pub struct NoneBody;

impl NoneBody {
    /// Creates the absent body.
    pub fn new() -> (r: NoneBody) {
        NoneBody
    }

    /// The size of the absent body.
    pub fn size(&self) -> (r: BodySize)
        ensures
            r == BodySize::Absent,
    {
        BodySize::Absent
    }
}

} // verus!
