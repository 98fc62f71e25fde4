//! The handler registry: one route tree per method, and the lookup that
//! never fails — an unregistered method or path resolves to the
//! built-in not-found handler with no captured parameters.

use vstd::prelude::*;
use vstd::string::*;

use crate::method::Method;
use crate::params::ParamMap;
use crate::request::HttpRequest;
use crate::response::HttpResponse;
use crate::route::node::{
    inserted, merged, no_children, node_wf, spec_match, HandlerFn, RouteNode,
};
use crate::route::path::{route_rep, spec_segments, PathSegment};
use crate::route::route::Route;

verus! {

broadcast use vstd::utf8::char_u32_cast;

/// The map a method/tree list denotes; later entries win.
pub open spec fn tries_map_of(s: Seq<(Method, RouteNode)>) -> Map<Method, RouteNode>
    decreases s.len(),
{
    if s.len() == 0 {
        Map::empty()
    } else {
        tries_map_of(s.drop_last()).insert(s.last().0, s.last().1)
    }
}

/// A method is in the denoted map exactly when some pair holds it.
proof fn lemma_tries_domain(s: Seq<(Method, RouteNode)>)
    ensures
        forall|k: Method|
            tries_map_of(s).contains_key(k) <==> exists|i: int|
                0 <= i < s.len() && (#[trigger] s[i]).0 == k,
    decreases s.len(),
{
    if s.len() > 0 {
        lemma_tries_domain(s.drop_last());
        assert forall|k: Method| tries_map_of(s).contains_key(k) implies exists|i: int|
            0 <= i < s.len() && (#[trigger] s[i]).0 == k by {
            if s.last().0 == k {
                assert((s[s.len() - 1]).0 == k);
            } else {
                assert(tries_map_of(s.drop_last()).contains_key(k));
                let i = choose|i: int|
                    0 <= i < s.drop_last().len() && (#[trigger] s.drop_last()[i]).0 == k;
                assert(s.drop_last()[i] == s[i]);
            }
        }
        assert forall|k: Method|
            (exists|i: int| 0 <= i < s.len() && (#[trigger] s[i]).0 == k) implies tries_map_of(
            s,
        ).contains_key(k) by {
            let i = choose|i: int| 0 <= i < s.len() && (#[trigger] s[i]).0 == k;
            if i < s.len() - 1 {
                assert(s.drop_last()[i] == s[i]);
                assert(tries_map_of(s.drop_last()).contains_key(k));
            }
        }
    }
}

/// The tree under a method is the one of the last pair holding it.
proof fn lemma_tries_last_match(s: Seq<(Method, RouteNode)>, i: int)
    requires
        0 <= i < s.len(),
        forall|j: int| i < j < s.len() ==> (#[trigger] s[j]).0 != s[i].0,
    ensures
        tries_map_of(s).contains_key(s[i].0),
        tries_map_of(s)[s[i].0] == s[i].1,
    decreases s.len(),
{
    if i == s.len() - 1 {
    } else {
        assert(s.drop_last()[i] == s[i]);
        assert forall|j: int| i < j < s.drop_last().len() implies (#[trigger] s.drop_last()[j]).0
            != s.drop_last()[i].0 by {
            assert(s.drop_last()[j] == s[j]);
        }
        lemma_tries_last_match(s.drop_last(), i);
        assert((s[s.len() - 1]).0 != s[i].0);
    }
}

/// Replacing the last pair that holds a method updates the denoted map
/// exactly as `Map::insert` of the new pair does.
proof fn lemma_tries_update_last(
    orig: Seq<(Method, RouteNode)>,
    upd: Seq<(Method, RouteNode)>,
    k: int,
)
    requires
        0 <= k < orig.len(),
        upd.len() == orig.len(),
        forall|j: int| 0 <= j < orig.len() && j != k ==> #[trigger] upd[j] == orig[j],
        upd[k].0 == orig[k].0,
        forall|j: int| k < j < orig.len() ==> (#[trigger] orig[j]).0 != orig[k].0,
    ensures
        tries_map_of(upd) == tries_map_of(orig).insert(upd[k].0, upd[k].1),
    decreases orig.len(),
{
    if k == orig.len() - 1 {
        assert(upd.drop_last() =~= orig.drop_last());
        assert(tries_map_of(upd) =~= tries_map_of(orig).insert(upd[k].0, upd[k].1));
    } else {
        assert(upd.drop_last()[k] == upd[k]);
        assert forall|j: int| 0 <= j < orig.drop_last().len() && j != k implies #[trigger] upd.drop_last()[j]
            == orig.drop_last()[j] by {
            assert(upd.drop_last()[j] == upd[j]);
            assert(orig.drop_last()[j] == orig[j]);
        }
        assert forall|j: int| k < j < orig.drop_last().len() implies (#[trigger] orig.drop_last()[j]).0
            != orig.drop_last()[k].0 by {
            assert(orig.drop_last()[j] == orig[j]);
        }
        lemma_tries_update_last(orig.drop_last(), upd.drop_last(), k);
        assert(upd.last() == orig.last());
        assert((orig[orig.len() - 1]).0 != orig[k].0);
        assert(tries_map_of(upd) =~= tries_map_of(orig).insert(upd[k].0, upd[k].1));
    }
}

/// The handler handle reserved for the built-in not-found handler.
pub open spec fn not_found_fn() -> HandlerFn {
    HandlerFn { id: u64::MAX }
}

/// Builds the response the built-in not-found handler answers with.
pub fn not_found(_req: &HttpRequest) -> (r: HttpResponse)
    ensures
        r.status_code == 404,
        r.body@ == crate::text::bytes_of_chars("Not Found"@),
        r.headers@ == Seq::<(Seq<char>, Seq<char>)>::empty(),
        r.wf(),
{
    proof {
        reveal_strlit("Not Found");
        assert(crate::text::ascii_chars("Not Found"@));
    }
    let body = crate::text::ascii_bytes_of_str("Not Found");
    HttpResponse::new(404).set_body(body)
}

/// A resolved handler with the parameters its route captured.
pub struct HandlerWrapper(pub HandlerFn, pub ParamMap);

impl HandlerWrapper {
    /// The resolved handler handle.
    pub fn handler(&self) -> (r: HandlerFn)
        ensures
            r == self.0,
    {
        self.0
    }
}

/// One route tree per method.
#[derive(Debug)]
pub struct Handlers {
    /// The trees, keyed by method.
    pub tries: Vec<(Method, RouteNode)>,
}

impl View for Handlers {
    type V = Map<Method, RouteNode>;

    open spec fn view(&self) -> Map<Method, RouteNode> {
        tries_map_of(self.tries@)
    }
}

/// What looking a method and path up yields: the matched handler and
/// parameters, or the not-found handler with no parameters.
pub open spec fn spec_get_handler(h: Handlers, method: Method, path: Seq<char>) -> (
    HandlerFn,
    Map<Seq<char>, Seq<char>>,
) {
    if h@.contains_key(method) {
        match spec_match(h@[method], spec_segments(path)) {
            Some(r) => r,
            None => (not_found_fn(), Map::empty()),
        }
    } else {
        (not_found_fn(), Map::empty())
    }
}

impl Handlers {
    /// Each method keys one tree, and every tree is well-formed.
    pub open spec fn wf(&self) -> bool {
        &&& forall|i: int, j: int|
            0 <= i < j < self.tries@.len() ==> (#[trigger] self.tries@[i]).0 != (
            #[trigger] self.tries@[j]).0
        &&& forall|i: int| 0 <= i < self.tries@.len() ==> node_wf((#[trigger] self.tries@[i]).1)
    }

    /// Creates an empty registry.
    pub fn new() -> (r: Handlers)
        ensures
            r@ == Map::<Method, RouteNode>::empty(),
            r.wf(),
    {
        Handlers { tries: Vec::new() }
    }

    /// Registers a handler for a method and pattern, creating the
    /// method's tree when it is the first route under that method.
    pub fn insert(&mut self, method: Method, path: &str, handler: HandlerFn)
        requires
            old(self).wf(),
        ensures
            final(self).wf(),
            final(self)@.dom() == old(self)@.dom().insert(method),
            forall|m: Method|
                m != method && old(self)@.contains_key(m) ==> #[trigger] final(self)@[m] == old(
                    self,
                )@[m],
            exists|rt: Seq<PathSegment>|
                route_rep(rt, spec_segments(path@)) && (if old(self)@.contains_key(method) {
                    inserted(old(self)@[method], rt, handler, #[trigger] final(self)@[method])
                } else {
                    exists|e: RouteNode|
                        no_children(e) && e.handler is None && inserted(
                            e,
                            rt,
                            handler,
                            final(self)@[method],
                        )
                }),
    {
        let route = Route::new(path);
        let ghost orig = self.tries@;
        match find_last_method(&self.tries, method) {
            Some(idx) => {
                proof {
                    lemma_tries_last_match(orig, idx as int);
                }
                let (m, mut node) = self.tries.remove(idx);
                node.insert(&route, handler);
                self.tries.insert(idx, (m, node));
                proof {
                    assert forall|j: int| 0 <= j < orig.len() && j != idx implies #[trigger] self.tries@[j]
                        == orig[j] by {}
                    assert(self.tries@[idx as int].0 == method);
                    lemma_tries_update_last(orig, self.tries@, idx as int);
                    lemma_tries_domain(orig);
                    assert(final(self)@.dom() =~= old(self)@.dom().insert(method));
                    assert(final(self).wf()) by {
                        assert forall|x: int, y: int|
                            0 <= x < y < self.tries@.len() implies (#[trigger] self.tries@[x]).0
                            != (#[trigger] self.tries@[y]).0 by {
                            if x != idx && y != idx {
                                assert(self.tries@[x] == orig[x]);
                                assert(self.tries@[y] == orig[y]);
                            } else if x == idx as int {
                                assert(self.tries@[y] == orig[y]);
                                assert(orig[x].0 == self.tries@[x].0);
                            } else {
                                assert(self.tries@[x] == orig[x]);
                                assert(orig[y].0 == self.tries@[y].0);
                            }
                        }
                        assert forall|j: int| 0 <= j < self.tries@.len() implies node_wf(
                            (#[trigger] self.tries@[j]).1,
                        ) by {
                            if j != idx {
                                assert(self.tries@[j] == orig[j]);
                            }
                        }
                    }
                    assert(route_rep(route@, spec_segments(path@)) && inserted(
                        old(self)@[method],
                        route@,
                        handler,
                        final(self)@[method],
                    ));
                }
            },
            None => {
                proof {
                    lemma_tries_domain(orig);
                }
                let mut node = RouteNode::new();
                let ghost empty_node = node;
                node.insert(&route, handler);
                self.tries.push((method, node));
                proof {
                    assert(self.tries@.drop_last() =~= orig);
                    lemma_tries_domain(self.tries@);
                    assert(final(self)@.dom() =~= old(self)@.dom().insert(method));
                    assert(final(self).wf()) by {
                        assert forall|x: int, y: int|
                            0 <= x < y < self.tries@.len() implies (#[trigger] self.tries@[x]).0
                            != (#[trigger] self.tries@[y]).0 by {
                            if y < orig.len() {
                                assert(self.tries@[x] == orig[x]);
                                assert(self.tries@[y] == orig[y]);
                            } else {
                                assert(self.tries@[x] == orig[x]);
                            }
                        }
                        assert forall|j: int| 0 <= j < self.tries@.len() implies node_wf(
                            (#[trigger] self.tries@[j]).1,
                        ) by {
                            if j < orig.len() {
                                assert(self.tries@[j] == orig[j]);
                            }
                        }
                    }
                    assert(route_rep(route@, spec_segments(path@)) && no_children(empty_node)
                        && empty_node.handler is None && inserted(
                        empty_node,
                        route@,
                        handler,
                        final(self)@[method],
                    ));
                }
            },
        }
    }

    /// The handle of the built-in not-found handler.
    pub fn not_found_handler() -> (r: HandlerFn)
        ensures
            r == not_found_fn(),
    {
        HandlerFn { id: u64::MAX }
    }

    /// Resolves a method and path to a handler and its captured
    /// parameters; an unregistered method or path resolves to the
    /// not-found handler with no parameters, never to a failure.
    pub fn get_handler(&self, method: &Method, path: &str) -> (r: HandlerWrapper)
        ensures
            r.0 == spec_get_handler(*self, *method, path@).0,
            r.1@ == spec_get_handler(*self, *method, path@).1,
    {
        match find_last_method(&self.tries, *method) {
            None => {
                proof {
                    lemma_tries_domain(self.tries@);
                }
                HandlerWrapper(Handlers::not_found_handler(), ParamMap::new())
            },
            Some(idx) => {
                proof {
                    lemma_tries_last_match(self.tries@, idx as int);
                }
                match self.tries[idx].1.match_path(path) {
                    Some(p) => HandlerWrapper(p.0, p.1),
                    None => HandlerWrapper(Handlers::not_found_handler(), ParamMap::new()),
                }
            },
        }
    }
}

/// Finds the last tree registered under a method.
fn find_last_method(tries: &Vec<(Method, RouteNode)>, method: Method) -> (r: Option<usize>)
    ensures
        match r {
            Some(idx) => idx < tries@.len() && (tries@[idx as int]).0 == method && (forall|j: int|
                idx < j < tries@.len() ==> (#[trigger] tries@[j]).0 != method),
            None => forall|j: int| 0 <= j < tries@.len() ==> (#[trigger] tries@[j]).0 != method,
        },
{
    let mut i: usize = tries.len();
    while i > 0
        invariant
            i <= tries@.len(),
            forall|j: int| i <= j < tries@.len() ==> (#[trigger] tries@[j]).0 != method,
        decreases i,
    {
        i = i - 1;
        if tries[i].0 == method {
            return Some(i);
        }
    }
    None
}


impl Handlers {
    /// Merges another registry into this one: trees under methods only
    /// one side knows move over whole; trees under a shared method
    /// merge, the other registry's handlers winning.
    pub fn extend(&mut self, other: Handlers)
        requires
            old(self).wf(),
            other.wf(),
        ensures
            final(self).wf(),
            final(self)@.dom() == old(self)@.dom() + other@.dom(),
            forall|m: Method|
                old(self)@.contains_key(m) && !other@.contains_key(m)
                    ==> #[trigger] final(self)@[m] == old(self)@[m],
            forall|m: Method|
                other@.contains_key(m) && !old(self)@.contains_key(m)
                    ==> #[trigger] final(self)@[m] == other@[m],
            forall|m: Method|
                other@.contains_key(m) && old(self)@.contains_key(m) ==> merged(
                    old(self)@[m],
                    other@[m],
                    #[trigger] final(self)@[m],
                ),
    {
        let ghost a_map = old(self)@;
        let ghost bseq = other.tries@;
        let Handlers { tries: mut b_rest } = other;
        proof {
            assert(bseq.subrange(0, bseq.len() as int) =~= bseq);
            assert(method_set(bseq.skip(bseq.len() as int)) =~= Set::<Method>::empty());
            assert(tries_map_of(self.tries@).dom() =~= a_map.dom() + method_set(
                bseq.skip(bseq.len() as int),
            ));
        }
        while b_rest.len() > 0
            invariant
                a_map == old(self)@,
                bseq == bseq,
                b_rest@.len() <= bseq.len(),
                b_rest@ == bseq.subrange(0, b_rest@.len() as int),
                forall|i: int, j: int|
                    0 <= i < j < bseq.len() ==> (#[trigger] bseq[i]).0 != (#[trigger] bseq[j]).0,
                forall|j: int| 0 <= j < bseq.len() ==> node_wf((#[trigger] bseq[j]).1),
                forall|i: int, j: int|
                    0 <= i < j < self.tries@.len() ==> (#[trigger] self.tries@[i]).0 != (
                    #[trigger] self.tries@[j]).0,
                forall|j: int| 0 <= j < self.tries@.len() ==> node_wf((#[trigger] self.tries@[j]).1),
                tries_map_of(self.tries@).dom() =~= a_map.dom() + method_set(
                    bseq.skip(b_rest@.len() as int),
                ),
                forall|m: Method|
                    a_map.contains_key(m) && !method_set(bseq.skip(b_rest@.len() as int)).contains(
                        m,
                    ) ==> #[trigger] tries_map_of(self.tries@)[m] == a_map[m],
                forall|jj: int|
                    b_rest@.len() <= jj < bseq.len() ==> (if a_map.contains_key(
                        (#[trigger] bseq[jj]).0,
                    ) {
                        merged(a_map[bseq[jj].0], bseq[jj].1, tries_map_of(self.tries@)[bseq[jj].0])
                    } else {
                        tries_map_of(self.tries@)[bseq[jj].0] == bseq[jj].1
                    }),
            decreases b_rest@.len(),
        {
            let ghost pre_rest = b_rest@;
            let ghost processed_pre = bseq.skip(pre_rest.len() as int);
            let popped = b_rest.pop().unwrap();
            let ghost jj = pre_rest.len() - 1;
            proof {
                assert(b_rest@ =~= bseq.subrange(0, jj));
                assert(popped == bseq[jj]);
                assert(bseq.skip(jj) =~= seq![bseq[jj]] + processed_pre);
                assert forall|k2: int| jj < k2 < bseq.len() implies (#[trigger] bseq[k2]).0
                    != bseq[jj].0 by {}
            }
            let (method, b_node) = popped;
            proof {
                assert(node_wf(b_node));
            }
            let ghost m0 = self.tries@;
            match find_last_method(&self.tries, method) {
                Some(idx) => {
                    proof {
                        lemma_tries_last_match(m0, idx as int);
                        lemma_tries_domain(m0);
                        assert(!method_set(processed_pre).contains(method)) by {
                            lemma_method_set_index(processed_pre, method);
                        }
                        assert(a_map.contains_key(method));
                        assert(tries_map_of(m0)[method] == a_map[method]);
                    }
                    let (mkey, mut m_node) = self.tries.remove(idx);
                    m_node.extend(b_node);
                    self.tries.insert(idx, (mkey, m_node));
                    proof {
                        assert forall|j: int| 0 <= j < m0.len() && j != idx implies #[trigger] self.tries@[j]
                            == m0[j] by {}
                        assert(self.tries@[idx as int].0 == method);
                        lemma_tries_update_last(m0, self.tries@, idx as int);
                        assert forall|x: int, y: int|
                            0 <= x < y < self.tries@.len() implies (#[trigger] self.tries@[x]).0
                            != (#[trigger] self.tries@[y]).0 by {
                            if x != idx && y != idx {
                                assert(self.tries@[x] == m0[x]);
                                assert(self.tries@[y] == m0[y]);
                            } else if x == idx as int {
                                assert(self.tries@[y] == m0[y]);
                                assert(m0[x].0 == self.tries@[x].0);
                            } else {
                                assert(self.tries@[x] == m0[x]);
                                assert(m0[y].0 == self.tries@[y].0);
                            }
                        }
                        assert forall|j: int| 0 <= j < self.tries@.len() implies node_wf(
                            (#[trigger] self.tries@[j]).1,
                        ) by {
                            if j != idx {
                                assert(self.tries@[j] == m0[j]);
                            }
                        }
                        lemma_method_set_concat(seq![bseq[jj]], processed_pre);
                        assert(method_set(seq![bseq[jj]]) =~= set![method]) by {
                            lemma_method_set_index(seq![bseq[jj]], method);
                            assert((seq![bseq[jj]])[0].0 == method);
                            assert forall|k2: Method|
                                method_set(seq![bseq[jj]]).contains(k2) implies set![
                                method,
                            ].contains(k2) by {
                                lemma_method_set_index(seq![bseq[jj]], k2);
                            }
                        }
                        assert(tries_map_of(self.tries@).dom() =~= a_map.dom() + method_set(
                            bseq.skip(jj),
                        ));
                    }
                },
                None => {
                    proof {
                        lemma_tries_domain(m0);
                        assert(!tries_map_of(m0).contains_key(method));
                        assert(!method_set(processed_pre).contains(method)) by {
                            lemma_method_set_index(processed_pre, method);
                        }
                        assert(!a_map.contains_key(method));
                    }
                    self.tries.push((method, b_node));
                    proof {
                        assert(self.tries@.drop_last() =~= m0);
                        assert forall|x: int, y: int|
                            0 <= x < y < self.tries@.len() implies (#[trigger] self.tries@[x]).0
                            != (#[trigger] self.tries@[y]).0 by {
                            if y < m0.len() {
                                assert(self.tries@[x] == m0[x]);
                                assert(self.tries@[y] == m0[y]);
                            } else {
                                assert(self.tries@[x] == m0[x]);
                            }
                        }
                        assert forall|j: int| 0 <= j < self.tries@.len() implies node_wf(
                            (#[trigger] self.tries@[j]).1,
                        ) by {
                            if j < m0.len() {
                                assert(self.tries@[j] == m0[j]);
                            } else {
                                assert(self.tries@[j].1 == bseq[jj].1);
                            }
                        }
                        lemma_method_set_concat(seq![bseq[jj]], processed_pre);
                        assert(method_set(seq![bseq[jj]]) =~= set![method]) by {
                            lemma_method_set_index(seq![bseq[jj]], method);
                            assert((seq![bseq[jj]])[0].0 == method);
                            assert forall|k2: Method|
                                method_set(seq![bseq[jj]]).contains(k2) implies set![
                                method,
                            ].contains(k2) by {
                                lemma_method_set_index(seq![bseq[jj]], k2);
                            }
                        }
                        assert(tries_map_of(self.tries@).dom() =~= a_map.dom() + method_set(
                            bseq.skip(jj),
                        ));
                    }
                },
            }
            proof {
                assert forall|jj2: int| pre_rest.len() <= jj2 < bseq.len() implies (if a_map.contains_key(
                    (#[trigger] bseq[jj2]).0,
                ) {
                    merged(a_map[bseq[jj2].0], bseq[jj2].1, tries_map_of(self.tries@)[bseq[jj2].0])
                } else {
                    tries_map_of(self.tries@)[bseq[jj2].0] == bseq[jj2].1
                }) by {
                    assert(bseq[jj2].0 != bseq[jj].0);
                    assert(tries_map_of(self.tries@)[bseq[jj2].0] == tries_map_of(
                        m0,
                    )[bseq[jj2].0]);
                }
            }
        }
        proof {
            assert(bseq.skip(0) =~= bseq);
            assert(final(self)@.dom() =~= old(self)@.dom() + tries_map_of(bseq).dom()) by {
                lemma_tries_domain(bseq);
                assert forall|k: Method|
                    method_set(bseq).contains(k) <==> tries_map_of(bseq).contains_key(k) by {
                    lemma_method_set_index(bseq, k);
                }
            }
            assert forall|m: Method| other@.contains_key(m) implies (exists|i: int|
                0 <= i < bseq.len() && (#[trigger] bseq[i]).0 == m) by {
                lemma_tries_domain(bseq);
            }
            assert forall|m: Method|
                other@.contains_key(m) && !old(self)@.contains_key(m) implies #[trigger] final(self)@[m] == other@[m] by {
                lemma_tries_domain(bseq);
                let i = choose|i: int| 0 <= i < bseq.len() && (#[trigger] bseq[i]).0 == m;
                assert forall|j: int| i < j < bseq.len() implies (#[trigger] bseq[j]).0
                    != bseq[i].0 by {}
                lemma_tries_last_match(bseq, i);
                assert(bseq[i].1 == other@[m]);
            }
            assert forall|m: Method|
                other@.contains_key(m) && old(self)@.contains_key(m) implies merged(
                old(self)@[m],
                other@[m],
                #[trigger] final(self)@[m],
            ) by {
                lemma_tries_domain(bseq);
                let i = choose|i: int| 0 <= i < bseq.len() && (#[trigger] bseq[i]).0 == m;
                assert forall|j: int| i < j < bseq.len() implies (#[trigger] bseq[j]).0
                    != bseq[i].0 by {}
                lemma_tries_last_match(bseq, i);
                assert(bseq[i].1 == other@[m]);
            }
            assert forall|m: Method|
                old(self)@.contains_key(m) && !other@.contains_key(m) implies #[trigger] final(self)@[m] == old(self)@[m] by {
                lemma_tries_domain(bseq);
                lemma_method_set_index(bseq, m);
                assert(!method_set(bseq).contains(m));
            }
        }
    }
}

/// The set of methods a method/tree list keys.
pub open spec fn method_set(s: Seq<(Method, RouteNode)>) -> Set<Method>
    decreases s.len(),
{
    if s.len() == 0 {
        Set::empty()
    } else {
        method_set(s.drop_last()).insert(s.last().0)
    }
}

/// A method is in the set exactly when some pair holds it.
proof fn lemma_method_set_index(s: Seq<(Method, RouteNode)>, k: Method)
    ensures
        method_set(s).contains(k) <==> exists|i: int| 0 <= i < s.len() && (#[trigger] s[i]).0 == k,
    decreases s.len(),
{
    if s.len() > 0 {
        lemma_method_set_index(s.drop_last(), k);
        if method_set(s).contains(k) {
            if s.last().0 == k {
                assert((s[s.len() - 1]).0 == k);
            } else {
                let i = choose|i: int|
                    0 <= i < s.drop_last().len() && (#[trigger] s.drop_last()[i]).0 == k;
                assert(s.drop_last()[i] == s[i]);
            }
        }
        if exists|i: int| 0 <= i < s.len() && (#[trigger] s[i]).0 == k {
            let i = choose|i: int| 0 <= i < s.len() && (#[trigger] s[i]).0 == k;
            if i < s.len() - 1 {
                assert(s.drop_last()[i] == s[i]);
                assert(method_set(s.drop_last()).contains(k));
            }
        }
    }
}

/// Method sets concatenate as unions.
proof fn lemma_method_set_concat(a: Seq<(Method, RouteNode)>, b: Seq<(Method, RouteNode)>)
    ensures
        method_set(a + b) == method_set(a) + method_set(b),
    decreases b.len(),
{
    if b.len() == 0 {
        assert(a + b =~= a);
        assert(method_set(a) + method_set(b) =~= method_set(a));
    } else {
        assert((a + b).drop_last() =~= a + b.drop_last());
        lemma_method_set_concat(a, b.drop_last());
        assert((a + b).last() == b.last());
        assert(method_set(a) + method_set(b.drop_last()).insert(b.last().0) =~= method_set(a)
            + method_set(b));
        assert(method_set(a + b) =~= method_set(a) + method_set(b));
    }
}

/// Resolves a request against the registry and merges the captured
/// parameters into it, returning the handler to invoke.  This is the
/// routing step of the dispatch pipeline; it cannot fail.
pub fn route_request(handlers: &Handlers, request: &mut HttpRequest) -> (h: HandlerFn)
    ensures
        h == spec_get_handler(*handlers, old(request).method, old(request).path@).0,
        final(request).params@ == old(request).params@.union_prefer_right(
            spec_get_handler(*handlers, old(request).method, old(request).path@).1,
        ),
        final(request).method == old(request).method,
        final(request).path == old(request).path,
        final(request).query == old(request).query,
        final(request).headers == old(request).headers,
        final(request).version == old(request).version,
        final(request).data == old(request).data,
{
    let method = request.method;
    let wrapper = handlers.get_handler(&method, request.path.as_str());
    request.params.extend_from(&wrapper.1);
    wrapper.0
}

} // verus!
