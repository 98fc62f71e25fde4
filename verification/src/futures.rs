//! A future that is ready the moment it is made: the value sits inside
//! until it is taken.

use vstd::prelude::*;

verus! {

/// A computation that is already done; the value waits to be taken.
#[derive(Debug, Clone)]
pub struct Ready<T> {
    /// The value, present until taken.
    pub val: Option<T>,
}

impl<T> Ready<T> {
    /// Takes the value out.
    pub fn into_inner(self) -> (r: T)
        requires
            self.val is Some,
        ensures
            r == self.val->Some_0,
    {
        self.val.unwrap()
    }
}

/// An immediately ready success.
pub fn ok<T, E>(val: T) -> (r: Ready<Result<T, E>>)
    ensures
        r.val == Some(Ok::<T, E>(val)),
{
    Ready { val: Some(Ok(val)) }
}

/// An immediately ready value.
pub fn ready<T>(val: T) -> (r: Ready<T>)
    ensures
        r.val == Some(val),
{
    Ready { val: Some(val) }
}

/// An immediately ready failure.
pub fn err<T, E>(e: E) -> (r: Ready<Result<T, E>>)
    ensures
        r.val == Some(Err::<T, E>(e)),
{
    Ready { val: Some(Err(e)) }
}

} // verus!
