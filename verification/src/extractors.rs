//! The typed wrappers handlers receive their arguments in.  Deriving
//! the values (body decoding, query decoding, parameter parsing, state
//! lookup) is a pluggable capability supplied outside this crate; the
//! wrappers themselves just carry the value.

use vstd::prelude::*;
use std::sync::Arc;

verus! {

/// A value decoded from the request body.
#[derive(Debug, Clone)]
pub struct Json<V>(pub V);

impl<V> Json<V> {
    /// Takes the decoded value.
    pub fn into_inner(self) -> (r: V)
        ensures
            r == self.0,
    {
        self.0
    }
}

/// A value decoded from the query string.
#[derive(Debug, Clone)]
pub struct Query<V>(pub V);

impl<V> Query<V> {
    /// Takes the decoded value.
    pub fn into_inner(self) -> (r: V)
        ensures
            r == self.0,
    {
        self.0
    }
}

/// Values parsed from the captured path parameters.
#[derive(Debug, Clone)]
pub struct Path<V>(pub V);

impl<V> Path<V> {
    /// Wraps parsed path values.
    pub fn new(value: V) -> (r: Path<V>)
        ensures
            r.0 == value,
    {
        Path(value)
    }

    /// Takes the parsed values.
    pub fn into_inner(self) -> (r: V)
        ensures
            r == self.0,
    {
        self.0
    }
}

/// A shared handle to one piece of process-wide state.
#[derive(Debug)]
pub struct Data<T>(pub Arc<T>);

impl<T> Data<T> {
    /// Wraps a shared handle.
    pub fn new(data: Arc<T>) -> (r: Data<T>)
        ensures
            r.0 == data,
    {
        Data(data)
    }

    /// Takes the shared handle.
    pub fn into_inner(self) -> (r: Arc<T>)
        ensures
            r == self.0,
    {
        self.0
    }
}

} // verus!
