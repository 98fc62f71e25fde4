//! Builders: the server configuration gathered before serving starts,
//! and the per-path route group.
//!
//! The builder only gathers data — routes, shared-state handles and the
//! address text.  Binding a socket and running the accept loop is the
//! embedding program's work.

use vstd::prelude::*;

use crate::handlers::Handlers;
use crate::method::Method;
use crate::route::node::{inserted, merged, no_children, HandlerFn, RouteNode};
use crate::route::path::{route_rep, spec_segments, PathSegment};
use crate::state::State;

verus! {

/// The configuration of a server being put together: its routes, its
/// shared-state handles, and the address it should listen on.
#[derive(Debug)]
pub struct HttpServerBuilder {
    /// The address to bind, once set.
    pub addr: Option<String>,
    /// The routes registered so far.
    pub handlers: Handlers,
    /// The shared-state handles registered so far.
    pub app_state: State,
}

impl HttpServerBuilder {
    /// Starts an empty configuration.
    pub fn new() -> (r: HttpServerBuilder)
        ensures
            r.addr is None,
            r.handlers@ == Map::<Method, RouteNode>::empty(),
            r.handlers.wf(),
            r.app_state@ == Map::<u64, u64>::empty(),
    {
        HttpServerBuilder { addr: None, handlers: Handlers::new(), app_state: State::new() }
    }

    /// Stores a shared-state handle under an application-chosen key.
    pub fn app_state(self, key: u64, handle: u64) -> (r: HttpServerBuilder)
        ensures
            r.app_state@ == self.app_state@.insert(key, handle),
            r.addr == self.addr,
            r.handlers == self.handlers,
    {
        let mut b = self;
        b.app_state.insert(key, handle);
        b
    }

    /// Registers a handler for a method and pattern, exactly as
    /// [`Handlers::insert`] does.
    pub fn service_method(self, method: Method, path: &str, handler: HandlerFn) -> (r:
        HttpServerBuilder)
        requires
            self.handlers.wf(),
        ensures
            r.handlers.wf(),
            r.handlers@.dom() == self.handlers@.dom().insert(method),
            forall|m: Method|
                m != method && self.handlers@.contains_key(m) ==> #[trigger] r.handlers@[m]
                    == self.handlers@[m],
            exists|rt: Seq<PathSegment>|
                route_rep(rt, spec_segments(path@)) && (if self.handlers@.contains_key(method) {
                    inserted(self.handlers@[method], rt, handler, #[trigger] r.handlers@[method])
                } else {
                    exists|e: RouteNode|
                        no_children(e) && e.handler is None && inserted(
                            e,
                            rt,
                            handler,
                            r.handlers@[method],
                        )
                }),
            r.addr == self.addr,
            r.app_state == self.app_state,
    {
        let mut b = self;
        b.handlers.insert(method, path, handler);
        b
    }

    /// Merges a route group in, exactly as [`Handlers::extend`] does:
    /// the group's handlers win on conflicts.
    pub fn route(self, route_builder: RouteBuilder) -> (r: HttpServerBuilder)
        requires
            self.handlers.wf(),
            route_builder.handlers.wf(),
        ensures
            r.handlers.wf(),
            r.handlers@.dom() == self.handlers@.dom() + route_builder.handlers@.dom(),
            forall|m: Method|
                self.handlers@.contains_key(m) && !route_builder.handlers@.contains_key(m)
                    ==> #[trigger] r.handlers@[m] == self.handlers@[m],
            forall|m: Method|
                route_builder.handlers@.contains_key(m) && !self.handlers@.contains_key(m)
                    ==> #[trigger] r.handlers@[m] == route_builder.handlers@[m],
            forall|m: Method|
                route_builder.handlers@.contains_key(m) && self.handlers@.contains_key(m)
                    ==> merged(
                    self.handlers@[m],
                    route_builder.handlers@[m],
                    #[trigger] r.handlers@[m],
                ),
            r.addr == self.addr,
            r.app_state == self.app_state,
    {
        let mut b = self;
        b.handlers.extend(route_builder.handlers);
        b
    }

    /// Sets the address to listen on.
    pub fn bind(self, addr: String) -> (r: HttpServerBuilder)
        ensures
            r.addr == Some(addr),
            r.handlers == self.handlers,
            r.app_state == self.app_state,
    {
        let mut b = self;
        b.addr = Some(addr);
        b
    }
}

/// A group of handlers under one path, one per method.
#[derive(Debug)]
pub struct RouteBuilder {
    /// The path pattern the group serves.
    pub path: String,
    /// The handlers gathered so far.
    pub handlers: Handlers,
}

impl RouteBuilder {
    /// Starts a group for a path.
    pub fn new(path: &str) -> (r: RouteBuilder)
        ensures
            r.path@ == path@,
            r.handlers@ == Map::<Method, RouteNode>::empty(),
            r.handlers.wf(),
    {
        RouteBuilder { path: path.to_owned(), handlers: Handlers::new() }
    }

    /// Adds the group's handler for one method; each method takes at
    /// most one handler.  The group's pattern is registered exactly as
    /// [`Handlers::insert`] registers it.
    pub fn insert_handler(self, method: Method, handler: HandlerFn) -> (r: RouteBuilder)
        requires
            self.handlers.wf(),
            !self.handlers@.contains_key(method),
        ensures
            r.handlers.wf(),
            r.handlers@.dom() == self.handlers@.dom().insert(method),
            forall|m: Method|
                m != method && self.handlers@.contains_key(m) ==> #[trigger] r.handlers@[m]
                    == self.handlers@[m],
            exists|rt: Seq<PathSegment>, e: RouteNode|
                route_rep(rt, spec_segments(self.path@)) && no_children(e) && e.handler is None
                    && inserted(e, rt, handler, r.handlers@[method]),
            r.path == self.path,
    {
        let mut b = self;
        let path = b.path.clone();
        b.handlers.insert(method, path.as_str(), handler);
        b
    }

    /// Adds the group's GET handler.
    pub fn get(self, handler: HandlerFn) -> (r: RouteBuilder)
        requires
            self.handlers.wf(),
            !self.handlers@.contains_key(Method::Get),
        ensures
            r.handlers.wf(),
            r.handlers@.dom() == self.handlers@.dom().insert(Method::Get),
            forall|m: Method|
                m != Method::Get && self.handlers@.contains_key(m) ==> #[trigger] r.handlers@[m]
                    == self.handlers@[m],
            exists|rt: Seq<PathSegment>, e: RouteNode|
                route_rep(rt, spec_segments(self.path@)) && no_children(e) && e.handler is None
                    && inserted(e, rt, handler, r.handlers@[Method::Get]),
            r.path == self.path,
    {
        self.insert_handler(Method::Get, handler)
    }

    /// Adds the group's POST handler.
    pub fn post(self, handler: HandlerFn) -> (r: RouteBuilder)
        requires
            self.handlers.wf(),
            !self.handlers@.contains_key(Method::Post),
        ensures
            r.handlers.wf(),
            r.handlers@.dom() == self.handlers@.dom().insert(Method::Post),
            forall|m: Method|
                m != Method::Post && self.handlers@.contains_key(m) ==> #[trigger] r.handlers@[m]
                    == self.handlers@[m],
            exists|rt: Seq<PathSegment>, e: RouteNode|
                route_rep(rt, spec_segments(self.path@)) && no_children(e) && e.handler is None
                    && inserted(e, rt, handler, r.handlers@[Method::Post]),
            r.path == self.path,
    {
        self.insert_handler(Method::Post, handler)
    }

    /// Adds the group's PUT handler.
    pub fn put(self, handler: HandlerFn) -> (r: RouteBuilder)
        requires
            self.handlers.wf(),
            !self.handlers@.contains_key(Method::Put),
        ensures
            r.handlers.wf(),
            r.handlers@.dom() == self.handlers@.dom().insert(Method::Put),
            forall|m: Method|
                m != Method::Put && self.handlers@.contains_key(m) ==> #[trigger] r.handlers@[m]
                    == self.handlers@[m],
            exists|rt: Seq<PathSegment>, e: RouteNode|
                route_rep(rt, spec_segments(self.path@)) && no_children(e) && e.handler is None
                    && inserted(e, rt, handler, r.handlers@[Method::Put]),
            r.path == self.path,
    {
        self.insert_handler(Method::Put, handler)
    }

    /// Adds the group's DELETE handler.
    pub fn delete(self, handler: HandlerFn) -> (r: RouteBuilder)
        requires
            self.handlers.wf(),
            !self.handlers@.contains_key(Method::Delete),
        ensures
            r.handlers.wf(),
            r.handlers@.dom() == self.handlers@.dom().insert(Method::Delete),
            forall|m: Method|
                m != Method::Delete && self.handlers@.contains_key(m) ==> #[trigger] r.handlers@[m]
                    == self.handlers@[m],
            exists|rt: Seq<PathSegment>, e: RouteNode|
                route_rep(rt, spec_segments(self.path@)) && no_children(e) && e.handler is None
                    && inserted(e, rt, handler, r.handlers@[Method::Delete]),
            r.path == self.path,
    {
        self.insert_handler(Method::Delete, handler)
    }
}

} // verus!
