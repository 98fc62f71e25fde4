//! The route trie: routes are stored in a tree keyed by path segment.
//!
//! Each node holds literal children keyed by segment text, at most one
//! parameter child, at most one wildcard child, and an optional terminal
//! handler.  Matching tries, in order: the literal child, the parameter
//! child, the wildcard child; within the wildcard child, a one-segment
//! match is tried before the deep capture of everything that remains.

use vstd::prelude::*;
use vstd::string::*;

use crate::params::ParamMap;
use crate::route::path::PathSegment;
use crate::route::route::{
    all_static, join_from, join_slash, seg_text, static_texts, views_of, wildcard_key, Route,
};

verus! {

/// A handle to a registered handler.  The table that maps handles to the
/// code they stand for lives with the caller; the trie only stores and
/// returns them.
#[derive(Debug, Clone, Copy, PartialEq, Eq, Structural)]
pub struct HandlerFn {
    /// The caller-chosen identifier of the handler.
    pub id: u64,
}

impl HandlerFn {
    /// Wraps a handler identifier.
    pub fn new(id: u64) -> (r: HandlerFn)
        ensures
            r.id == id,
    {
        HandlerFn { id }
    }
}

/// A node of the route trie.
#[derive(Debug)]
pub struct RouteNode {
    /// Children under literal segments, keyed by their text.
    pub static_children: Vec<(String, RouteNode)>,
    /// The parameter child, if any, with the parameter's name.
    pub parameter_child: Option<(String, Box<RouteNode>)>,
    /// The wildcard child, if any; a deep wildcard is a wildcard child
    /// that itself holds a handler.
    pub wildcard_child: Option<Box<RouteNode>>,
    /// The handler stored at this node, if any.
    pub handler: Option<HandlerFn>,
}

/// The map a literal-children list denotes; a later entry under the same
/// key would win, though every tree this module builds keys each child
/// once.
pub open spec fn children_map(s: Seq<(String, RouteNode)>) -> Map<Seq<char>, RouteNode>
    decreases s.len(),
{
    if s.len() == 0 {
        Map::empty()
    } else {
        children_map(s.drop_last()).insert(s.last().0@, s.last().1)
    }
}

/// The literal children of a node, as a map.
pub open spec fn statics_of(n: RouteNode) -> Map<Seq<char>, RouteNode> {
    children_map(n.static_children@)
}

/// The parameter child of a node, with its name's text.
pub open spec fn param_of(n: RouteNode) -> Option<(Seq<char>, RouteNode)> {
    match n.parameter_child {
        Some(p) => Some((p.0@, *p.1)),
        None => None,
    }
}

/// The wildcard child of a node.
pub open spec fn wild_of(n: RouteNode) -> Option<RouteNode> {
    match n.wildcard_child {
        Some(c) => Some(*c),
        None => None,
    }
}

/// A key is in the denoted map exactly when some pair holds it.
proof fn lemma_children_domain(s: Seq<(String, RouteNode)>)
    ensures
        forall|k: Seq<char>|
            children_map(s).contains_key(k) <==> exists|i: int|
                0 <= i < s.len() && (#[trigger] s[i]).0@ == k,
    decreases s.len(),
{
    if s.len() > 0 {
        lemma_children_domain(s.drop_last());
        assert forall|k: Seq<char>| children_map(s).contains_key(k) implies exists|i: int|
            0 <= i < s.len() && (#[trigger] s[i]).0@ == k by {
            if s.last().0@ == k {
                assert((s[s.len() - 1]).0@ == k);
            } else {
                assert(children_map(s.drop_last()).contains_key(k));
                let i = choose|i: int|
                    0 <= i < s.drop_last().len() && (#[trigger] s.drop_last()[i]).0@ == k;
                assert(s.drop_last()[i] == s[i]);
                assert((s[i]).0@ == k);
            }
        }
        assert forall|k: Seq<char>|
            (exists|i: int| 0 <= i < s.len() && (#[trigger] s[i]).0@ == k) implies children_map(
            s,
        ).contains_key(k) by {
            let i = choose|i: int| 0 <= i < s.len() && (#[trigger] s[i]).0@ == k;
            if i < s.len() - 1 {
                assert(s.drop_last()[i] == s[i]);
                assert(children_map(s.drop_last()).contains_key(k));
            }
        }
    }
}

/// The value under a key is the one of the last pair holding that key.
proof fn lemma_children_last_match(s: Seq<(String, RouteNode)>, i: int)
    requires
        0 <= i < s.len(),
        forall|j: int| i < j < s.len() ==> (#[trigger] s[j]).0@ != s[i].0@,
    ensures
        children_map(s).contains_key(s[i].0@),
        children_map(s)[s[i].0@] == s[i].1,
    decreases s.len(),
{
    if i == s.len() - 1 {
    } else {
        assert(s.drop_last()[i] == s[i]);
        assert forall|j: int| i < j < s.drop_last().len() implies (#[trigger] s.drop_last()[j]).0@
            != s.drop_last()[i].0@ by {
            assert(s.drop_last()[j] == s[j]);
        }
        lemma_children_last_match(s.drop_last(), i);
        assert((s[s.len() - 1]).0@ != s[i].0@);
    }
}

/// Replacing the last pair that holds a key, in place, updates the
/// denoted map exactly as `Map::insert` of the new pair does.
proof fn lemma_children_update_last(
    orig: Seq<(String, RouteNode)>,
    upd: Seq<(String, RouteNode)>,
    k: int,
)
    requires
        0 <= k < orig.len(),
        upd.len() == orig.len(),
        forall|j: int| 0 <= j < orig.len() && j != k ==> #[trigger] upd[j] == orig[j],
        upd[k].0@ == orig[k].0@,
        forall|j: int| k < j < orig.len() ==> (#[trigger] orig[j]).0@ != orig[k].0@,
    ensures
        children_map(upd) == children_map(orig).insert(upd[k].0@, upd[k].1),
    decreases orig.len(),
{
    if k == orig.len() - 1 {
        assert(upd.drop_last() =~= orig.drop_last());
        assert(children_map(upd) =~= children_map(orig).insert(upd[k].0@, upd[k].1));
    } else {
        assert(upd.drop_last()[k] == upd[k]);
        assert forall|j: int| 0 <= j < orig.drop_last().len() && j != k implies #[trigger] upd.drop_last()[j]
            == orig.drop_last()[j] by {
            assert(upd.drop_last()[j] == upd[j]);
            assert(orig.drop_last()[j] == orig[j]);
        }
        assert forall|j: int| k < j < orig.drop_last().len() implies (#[trigger] orig.drop_last()[j]).0@
            != orig.drop_last()[k].0@ by {
            assert(orig.drop_last()[j] == orig[j]);
        }
        lemma_children_update_last(orig.drop_last(), upd.drop_last(), k);
        assert(upd.last() == orig.last());
        assert((orig[orig.len() - 1]).0@ != orig[k].0@);
        assert(children_map(upd) =~= children_map(orig).insert(upd[k].0@, upd[k].1));
    }
}

/// No key occurs twice among the literal children.
pub open spec fn kid_keys_unique(s: Seq<(String, RouteNode)>) -> bool {
    forall|i: int, j: int|
        0 <= i < j < s.len() ==> (#[trigger] s[i]).0@ != (#[trigger] s[j]).0@
}

/// Every node of the tree keys each literal child once.
pub open spec fn node_wf(n: RouteNode) -> bool
    decreases n, 1int, 0int,
{
    &&& kid_keys_unique(n.static_children@)
    &&& kids_wf(n, 0)
    &&& match n.parameter_child {
        Some(p) => node_wf(*p.1),
        None => true,
    }
    &&& match n.wildcard_child {
        Some(c) => node_wf(*c),
        None => true,
    }
}

/// Well-formedness of the literal children from index `i` on.
pub open spec fn kids_wf(n: RouteNode, i: int) -> bool
    decreases n, 0int, n.static_children@.len() - i,
{
    if i < 0 || i >= n.static_children@.len() {
        true
    } else {
        node_wf(n.static_children@[i].1) && kids_wf(n, i + 1)
    }
}

/// `kids_wf` from `i` says exactly that every child from `i` on is
/// well-formed.
proof fn lemma_kids_wf_index(n: RouteNode, i: int)
    requires
        0 <= i,
    ensures
        kids_wf(n, i) <==> (forall|j: int|
            i <= j < n.static_children@.len() ==> node_wf((#[trigger] n.static_children@[j]).1)),
    decreases n.static_children@.len() - i,
{
    if i < n.static_children@.len() {
        lemma_kids_wf_index(n, i + 1);
    }
}

/// Well-formedness looks only at the children, not at the handler.
proof fn lemma_wf_same_children(a: RouteNode, b: RouteNode)
    requires
        a.static_children == b.static_children,
        a.parameter_child == b.parameter_child,
        a.wildcard_child == b.wildcard_child,
    ensures
        node_wf(a) == node_wf(b),
{
    lemma_kids_wf_index(a, 0);
    lemma_kids_wf_index(b, 0);
}

/// A node is well-formed when its parts are.
proof fn lemma_node_wf_parts(n: RouteNode)
    requires
        kid_keys_unique(n.static_children@),
        forall|j: int|
            0 <= j < n.static_children@.len() ==> node_wf((#[trigger] n.static_children@[j]).1),
        match n.parameter_child {
            Some(p) => node_wf(*p.1),
            None => true,
        },
        match n.wildcard_child {
            Some(c) => node_wf(*c),
            None => true,
        },
    ensures
        node_wf(n),
{
    lemma_kids_wf_index(n, 0);
}

/// What matching the segments from a node yields, mirroring the fixed
/// precedence: literal child first, then the parameter child, then the
/// wildcard child; a wildcard child first tries to consume one segment
/// and only then, if it holds a handler, captures everything that
/// remains under the reserved name.
pub open spec fn spec_match(n: RouteNode, segs: Seq<Seq<char>>) -> Option<
    (HandlerFn, Map<Seq<char>, Seq<char>>),
>
    decreases segs.len(),
{
    if segs.len() == 0 {
        match n.handler {
            Some(h) => Some((h, Map::empty())),
            None => None,
        }
    } else {
        let static_try = if statics_of(n).contains_key(segs[0]) {
            spec_match(statics_of(n)[segs[0]], segs.skip(1))
        } else {
            None
        };
        if static_try is Some {
            static_try
        } else {
            let param_try = match param_of(n) {
                Some(p) => match spec_match(p.1, segs.skip(1)) {
                    Some(r) => Some((r.0, r.1.insert(p.0, segs[0]))),
                    None => None,
                },
                None => None,
            };
            if param_try is Some {
                param_try
            } else {
                match wild_of(n) {
                    Some(c) => match spec_match(c, segs.skip(1)) {
                        Some(r) => Some(r),
                        None => match c.handler {
                            Some(h) => Some(
                                (h, Map::empty().insert(wildcard_key(), join_slash(segs))),
                            ),
                            None => None,
                        },
                    },
                    None => None,
                }
            }
        }
    }
}

/// What inserting a pattern built from scratch looks like: a fresh spine
/// of nodes, one per segment, with the handler at its end; a deep
/// wildcard ends the spine at once, placing the handler on the wildcard
/// child and ignoring anything after it.
pub open spec fn fresh_tree(segs: Seq<PathSegment>, h: HandlerFn, b: RouteNode) -> bool
    decreases segs.len(),
{
    if segs.len() == 0 {
        b.handler == Some(h) && no_children(b)
    } else {
        match segs[0] {
            PathSegment::Static(t) => {
                &&& b.handler is None
                &&& param_of(b) is None
                &&& wild_of(b) is None
                &&& statics_of(b).contains_key(t@)
                &&& statics_of(b) == Map::<Seq<char>, RouteNode>::empty().insert(
                    t@,
                    statics_of(b)[t@],
                )
                &&& fresh_tree(segs.skip(1), h, statics_of(b)[t@])
            },
            PathSegment::Parameter(n) => {
                &&& b.handler is None
                &&& statics_of(b) == Map::<Seq<char>, RouteNode>::empty()
                &&& wild_of(b) is None
                &&& param_of(b) matches Some(p) && p.0 == n@ && fresh_tree(segs.skip(1), h, p.1)
            },
            PathSegment::Wildcard => {
                &&& b.handler is None
                &&& statics_of(b) == Map::<Seq<char>, RouteNode>::empty()
                &&& param_of(b) is None
                &&& wild_of(b) matches Some(c) && fresh_tree(segs.skip(1), h, c)
            },
            PathSegment::WildcardDeep => {
                &&& b.handler is None
                &&& statics_of(b) == Map::<Seq<char>, RouteNode>::empty()
                &&& param_of(b) is None
                &&& wild_of(b) matches Some(c) && c.handler == Some(h) && no_children(c)
            },
        }
    }
}

/// A node with no children of any kind.
pub open spec fn no_children(b: RouteNode) -> bool {
    &&& statics_of(b) == Map::<Seq<char>, RouteNode>::empty()
    &&& param_of(b) is None
    &&& wild_of(b) is None
}

/// How inserting a pattern changes a node: the spine down the pattern's
/// segments is created or reused, everything else is untouched.  On a
/// parameter segment an existing parameter child keeps its old name; a
/// deep wildcard puts the handler on the wildcard child, keeping that
/// child's subtrees, and ignores anything after it.
pub open spec fn inserted(a: RouteNode, segs: Seq<PathSegment>, h: HandlerFn, b: RouteNode) -> bool
    decreases segs.len(),
{
    if segs.len() == 0 {
        &&& b.handler == Some(h)
        &&& statics_of(b) == statics_of(a)
        &&& param_of(b) == param_of(a)
        &&& wild_of(b) == wild_of(a)
    } else {
        match segs[0] {
            PathSegment::Static(t) => {
                &&& b.handler == a.handler
                &&& param_of(b) == param_of(a)
                &&& wild_of(b) == wild_of(a)
                &&& statics_of(b).contains_key(t@)
                &&& statics_of(b) == statics_of(a).insert(t@, statics_of(b)[t@])
                &&& (if statics_of(a).contains_key(t@) {
                    inserted(statics_of(a)[t@], segs.skip(1), h, statics_of(b)[t@])
                } else {
                    fresh_tree(segs.skip(1), h, statics_of(b)[t@])
                })
            },
            PathSegment::Parameter(n) => {
                &&& b.handler == a.handler
                &&& statics_of(b) == statics_of(a)
                &&& wild_of(b) == wild_of(a)
                &&& (match param_of(a) {
                    Some(p) => param_of(b) matches Some(q) && q.0 == p.0 && inserted(
                        p.1,
                        segs.skip(1),
                        h,
                        q.1,
                    ),
                    None => param_of(b) matches Some(q) && q.0 == n@ && fresh_tree(
                        segs.skip(1),
                        h,
                        q.1,
                    ),
                })
            },
            PathSegment::Wildcard => {
                &&& b.handler == a.handler
                &&& statics_of(b) == statics_of(a)
                &&& param_of(b) == param_of(a)
                &&& (match wild_of(a) {
                    Some(c) => wild_of(b) matches Some(d) && inserted(c, segs.skip(1), h, d),
                    None => wild_of(b) matches Some(d) && fresh_tree(segs.skip(1), h, d),
                })
            },
            PathSegment::WildcardDeep => {
                &&& b.handler == a.handler
                &&& statics_of(b) == statics_of(a)
                &&& param_of(b) == param_of(a)
                &&& (match wild_of(a) {
                    Some(c) => wild_of(b) matches Some(d) && d.handler == Some(h) && statics_of(d)
                        == statics_of(c) && param_of(d) == param_of(c) && wild_of(d) == wild_of(c),
                    None => wild_of(b) matches Some(d) && d.handler == Some(h) && no_children(d),
                })
            },
        }
    }
}

/// Finds the last literal child under the given key.
fn find_last_key(children: &Vec<(String, RouteNode)>, key: &String) -> (r: Option<usize>)
    ensures
        match r {
            Some(idx) => idx < children@.len() && (children@[idx as int]).0@ == key@ && (forall|
                j: int,
            |
                idx < j < children@.len() ==> (#[trigger] children@[j]).0@ != key@),
            None => forall|j: int|
                0 <= j < children@.len() ==> (#[trigger] children@[j]).0@ != key@,
        },
{
    let mut i: usize = children.len();
    while i > 0
        invariant
            i <= children@.len(),
            forall|j: int| i <= j < children@.len() ==> (#[trigger] children@[j]).0@ != key@,
        decreases i,
    {
        i = i - 1;
        if children[i].0 == *key {
            return Some(i);
        }
    }
    None
}

/// Builds the fresh spine of nodes for the pattern tail from `i` on.
fn fresh_at(segs: &Vec<PathSegment>, i: usize, h: HandlerFn) -> (r: RouteNode)
    requires
        i <= segs@.len(),
    ensures
        fresh_tree(segs@.skip(i as int), h, r),
        node_wf(r),
    decreases segs@.len() - i,
{
    let ghost rest = segs@.skip(i as int);
    proof {
        if i < segs@.len() {
            assert(rest[0] == segs@[i as int]);
            assert(rest.skip(1) =~= segs@.skip(i + 1));
        }
    }
    if i == segs.len() {
        let r = RouteNode {
            static_children: Vec::new(),
            parameter_child: None,
            wildcard_child: None,
            handler: Some(h),
        };
        proof {
            assert(statics_of(r) =~= Map::<Seq<char>, RouteNode>::empty());
            lemma_node_wf_parts(r);
        }
        return r;
    }
    match &segs[i] {
        PathSegment::Static(t) => {
            let c = fresh_at(segs, i + 1, h);
            let mut sc: Vec<(String, RouteNode)> = Vec::new();
            sc.push((t.clone(), c));
            let r = RouteNode {
                static_children: sc,
                parameter_child: None,
                wildcard_child: None,
                handler: None,
            };
            proof {
                assert(r.static_children@.drop_last() =~= Seq::<(String, RouteNode)>::empty());
                assert(children_map(r.static_children@.drop_last()) =~= Map::<
                    Seq<char>,
                    RouteNode,
                >::empty());
                assert(statics_of(r) == Map::<Seq<char>, RouteNode>::empty().insert(t@, c));
                assert forall|j: int| 0 <= j < r.static_children@.len() implies node_wf(
                    (#[trigger] r.static_children@[j]).1,
                ) by {
                    assert(r.static_children@[j].1 == c);
                }
                lemma_node_wf_parts(r);
            }
            r
        },
        PathSegment::Parameter(n) => {
            let c = fresh_at(segs, i + 1, h);
            let r = RouteNode {
                static_children: Vec::new(),
                parameter_child: Some((n.clone(), Box::new(c))),
                wildcard_child: None,
                handler: None,
            };
            proof {
                assert(statics_of(r) =~= Map::<Seq<char>, RouteNode>::empty());
                assert(*r.parameter_child->Some_0.1 == c);
                lemma_node_wf_parts(r);
            }
            r
        },
        PathSegment::Wildcard => {
            let c = fresh_at(segs, i + 1, h);
            let r = RouteNode {
                static_children: Vec::new(),
                parameter_child: None,
                wildcard_child: Some(Box::new(c)),
                handler: None,
            };
            proof {
                assert(statics_of(r) =~= Map::<Seq<char>, RouteNode>::empty());
                assert(*r.wildcard_child->Some_0 == c);
                lemma_node_wf_parts(r);
            }
            r
        },
        PathSegment::WildcardDeep => {
            let c = RouteNode {
                static_children: Vec::new(),
                parameter_child: None,
                wildcard_child: None,
                handler: Some(h),
            };
            let r = RouteNode {
                static_children: Vec::new(),
                parameter_child: None,
                wildcard_child: Some(Box::new(c)),
                handler: None,
            };
            proof {
                assert(statics_of(r) =~= Map::<Seq<char>, RouteNode>::empty());
                assert(*r.wildcard_child->Some_0 == c);
                assert(statics_of(c) =~= Map::<Seq<char>, RouteNode>::empty());
                lemma_node_wf_parts(c);
                lemma_node_wf_parts(r);
            }
            r
        },
    }
}

/// Inserts the pattern tail from `i` on into the node, returning the
/// changed node.
fn insert_at(node: RouteNode, segs: &Vec<PathSegment>, i: usize, h: HandlerFn) -> (r: RouteNode)
    requires
        i <= segs@.len(),
        node_wf(node),
    ensures
        inserted(node, segs@.skip(i as int), h, r),
        node_wf(r),
    decreases segs@.len() - i,
{
    let ghost rest = segs@.skip(i as int);
    proof {
        if i < segs@.len() {
            assert(rest[0] == segs@[i as int]);
            assert(rest.skip(1) =~= segs@.skip(i + 1));
        }
        lemma_kids_wf_index(node, 0);
    }
    let ghost orig = node;
    let RouteNode { mut static_children, mut parameter_child, mut wildcard_child, handler } = node;
    if i == segs.len() {
        let r = RouteNode { static_children, parameter_child, wildcard_child, handler: Some(h) };
        proof {
            lemma_wf_same_children(orig, r);
        }
        return r;
    }
    match &segs[i] {
        PathSegment::Static(t) => {
            let ghost sc0 = static_children@;
            match find_last_key(&static_children, t) {
                Some(idx) => {
                    proof {
                        lemma_children_last_match(sc0, idx as int);
                    }
                    let (key, child) = static_children.remove(idx);
                    let newchild = insert_at(child, segs, i + 1, h);
                    static_children.insert(idx, (key, newchild));
                    proof {
                        assert forall|j: int| 0 <= j < sc0.len() && j != idx implies #[trigger] static_children@[j]
                            == sc0[j] by {}
                        assert(static_children@[idx as int].0@ == t@);
                        assert(static_children@[idx as int].1 == newchild);
                        lemma_children_update_last(sc0, static_children@, idx as int);
                        assert(kid_keys_unique(static_children@)) by {
                            assert forall|a: int, b: int|
                                0 <= a < b < static_children@.len() implies (
                            #[trigger] static_children@[a]).0@ != (
                            #[trigger] static_children@[b]).0@ by {
                                if a != idx && b != idx {
                                    assert(static_children@[a] == sc0[a]);
                                    assert(static_children@[b] == sc0[b]);
                                } else if a == idx as int {
                                    assert(static_children@[b] == sc0[b]);
                                    assert(sc0[a].0@ == static_children@[a].0@);
                                } else {
                                    assert(static_children@[a] == sc0[a]);
                                    assert(sc0[b].0@ == static_children@[b].0@);
                                }
                            }
                        }
                    }
                    let r = RouteNode { static_children, parameter_child, wildcard_child, handler };
                    proof {
                        assert forall|j: int|
                            0 <= j < r.static_children@.len() implies node_wf(
                            (#[trigger] r.static_children@[j]).1,
                        ) by {
                            if j != idx {
                                assert(r.static_children@[j] == sc0[j]);
                            }
                        }
                        lemma_node_wf_parts(r);
                    }
                    r
                },
                None => {
                    proof {
                        lemma_children_domain(sc0);
                    }
                    let c = fresh_at(segs, i + 1, h);
                    static_children.push((t.clone(), c));
                    proof {
                        assert(static_children@.drop_last() =~= sc0);
                        assert(static_children@[sc0.len() as int].1 == c);
                        assert(kid_keys_unique(static_children@)) by {
                            assert forall|a: int, b: int|
                                0 <= a < b < static_children@.len() implies (
                            #[trigger] static_children@[a]).0@ != (
                            #[trigger] static_children@[b]).0@ by {
                                if b < sc0.len() {
                                    assert(static_children@[a] == sc0[a]);
                                    assert(static_children@[b] == sc0[b]);
                                } else {
                                    assert(static_children@[a] == sc0[a]);
                                    assert(static_children@[b].0@ == t@);
                                }
                            }
                        }
                    }
                    let r = RouteNode { static_children, parameter_child, wildcard_child, handler };
                    proof {
                        assert forall|j: int|
                            0 <= j < r.static_children@.len() implies node_wf(
                            (#[trigger] r.static_children@[j]).1,
                        ) by {
                            if j < sc0.len() {
                                assert(r.static_children@[j] == sc0[j]);
                            }
                        }
                        lemma_node_wf_parts(r);
                    }
                    r
                },
            }
        },
        PathSegment::Parameter(n) => {
            let (pname, oldchild) = match parameter_child {
                Some((name, boxed)) => (name, Some(boxed)),
                None => (n.clone(), None),
            };
            let c = match oldchild {
                Some(boxed) => insert_at(*boxed, segs, i + 1, h),
                None => fresh_at(segs, i + 1, h),
            };
            let r = RouteNode {
                static_children,
                parameter_child: Some((pname, Box::new(c))),
                wildcard_child,
                handler,
            };
            proof {
                assert(*r.parameter_child->Some_0.1 == c);
                assert forall|j: int| 0 <= j < r.static_children@.len() implies node_wf(
                    (#[trigger] r.static_children@[j]).1,
                ) by {
                    assert(r.static_children@[j] == orig.static_children@[j]);
                }
                lemma_node_wf_parts(r);
            }
            r
        },
        PathSegment::Wildcard => {
            let c = match wildcard_child {
                Some(boxed) => insert_at(*boxed, segs, i + 1, h),
                None => fresh_at(segs, i + 1, h),
            };
            let r = RouteNode {
                static_children,
                parameter_child,
                wildcard_child: Some(Box::new(c)),
                handler,
            };
            proof {
                assert(*r.wildcard_child->Some_0 == c);
                assert forall|j: int| 0 <= j < r.static_children@.len() implies node_wf(
                    (#[trigger] r.static_children@[j]).1,
                ) by {
                    assert(r.static_children@[j] == orig.static_children@[j]);
                }
                lemma_node_wf_parts(r);
            }
            r
        },
        PathSegment::WildcardDeep => {
            let d = match wildcard_child {
                Some(boxed) => {
                    let ghost c0 = *boxed;
                    let RouteNode {
                        static_children: cs,
                        parameter_child: cp,
                        wildcard_child: cw,
                        handler: _,
                    } = *boxed;
                    let d = RouteNode {
                        static_children: cs,
                        parameter_child: cp,
                        wildcard_child: cw,
                        handler: Some(h),
                    };
                    proof {
                        lemma_wf_same_children(c0, d);
                    }
                    d
                },
                None => {
                    let d = RouteNode {
                        static_children: Vec::new(),
                        parameter_child: None,
                        wildcard_child: None,
                        handler: Some(h),
                    };
                    proof {
                        assert(statics_of(d) =~= Map::<Seq<char>, RouteNode>::empty());
                        lemma_node_wf_parts(d);
                    }
                    d
                },
            };
            let r = RouteNode {
                static_children,
                parameter_child,
                wildcard_child: Some(Box::new(d)),
                handler,
            };
            proof {
                assert(*r.wildcard_child->Some_0 == d);
                assert forall|j: int| 0 <= j < r.static_children@.len() implies node_wf(
                    (#[trigger] r.static_children@[j]).1,
                ) by {
                    assert(r.static_children@[j] == orig.static_children@[j]);
                }
                lemma_node_wf_parts(r);
            }
            r
        },
    }
}

/// Matches the request segments from `i` on against the subtree at the
/// node, mirroring `spec_match`.
fn match_at(node: &RouteNode, segs: &Vec<String>, i: usize) -> (r: Option<(HandlerFn, ParamMap)>)
    requires
        i <= segs@.len(),
    ensures
        match r {
            Some(p) => spec_match(*node, views_of(segs@).skip(i as int)) == Some((p.0, p.1@)),
            None => spec_match(*node, views_of(segs@).skip(i as int)) is None,
        },
    decreases segs@.len() - i,
{
    let ghost srest = views_of(segs@).skip(i as int);
    proof {
        if i < segs@.len() {
            assert(srest[0] == segs@[i as int]@);
            assert(srest.skip(1) =~= views_of(segs@).skip(i + 1));
        }
    }
    if i == segs.len() {
        return match &node.handler {
            Some(h) => Some((*h, ParamMap::new())),
            None => None,
        };
    }
    match find_last_key(&node.static_children, &segs[i]) {
        Some(idx) => {
            proof {
                lemma_children_last_match(node.static_children@, idx as int);
            }
            match match_at(&node.static_children[idx].1, segs, i + 1) {
                Some(p) => {
                    return Some(p);
                },
                None => {},
            }
        },
        None => {
            proof {
                lemma_children_domain(node.static_children@);
            }
        },
    }
    match &node.parameter_child {
        Some((name, child)) => {
            match match_at(child, segs, i + 1) {
                Some((h, mut pm)) => {
                    pm.insert(name.clone(), segs[i].clone());
                    return Some((h, pm));
                },
                None => {},
            }
        },
        None => {},
    }
    match &node.wildcard_child {
        Some(child) => {
            match match_at(child, segs, i + 1) {
                Some(p) => Some(p),
                None => {
                    match &child.handler {
                        Some(h) => {
                            let mut pm = ParamMap::new();
                            pm.insert("wildcard_deep".to_owned(), join_from(segs, i));
                            Some((*h, pm))
                        },
                        None => None,
                    }
                },
            }
        },
        None => None,
    }
}

/// How merging another tree into this one changes it: the other tree's
/// handler wins where both hold one; literal children under the same key
/// merge recursively, as do the parameter children (this tree's
/// parameter name winning) and the wildcard children.
pub open spec fn merged(a: RouteNode, b: RouteNode, m: RouteNode) -> bool
    decreases b, 1int, 0int,
{
    &&& m.handler == (if b.handler is Some {
        b.handler
    } else {
        a.handler
    })
    &&& (match b.parameter_child {
        None => param_of(m) == param_of(a),
        Some(bp) => match param_of(a) {
            Some(ap) => param_of(m) matches Some(mp) && mp.0 == ap.0 && merged(ap.1, *bp.1, mp.1),
            None => param_of(m) == Some((bp.0@, *bp.1)),
        },
    })
    &&& (match b.wildcard_child {
        None => wild_of(m) == wild_of(a),
        Some(bc) => match wild_of(a) {
            Some(ac) => wild_of(m) matches Some(mc) && merged(ac, *bc, mc),
            None => wild_of(m) == Some(*bc),
        },
    })
    &&& statics_of(m).dom() == statics_of(a).dom() + statics_of(b).dom()
    &&& (forall|k: Seq<char>|
        statics_of(a).contains_key(k) && !statics_of(b).contains_key(k)
            ==> #[trigger] statics_of(m)[k] == statics_of(a)[k])
    &&& merged_kids(a, b, 0, m)
}

/// The per-key merge of the other tree's literal children, walked by
/// index.
pub open spec fn merged_kids(a: RouteNode, b: RouteNode, i: int, m: RouteNode) -> bool
    decreases b, 0int, b.static_children@.len() - i,
{
    if i < 0 || i >= b.static_children@.len() {
        true
    } else {
        let k = b.static_children@[i].0@;
        (kid_last_at(b.static_children@, i) ==> (if statics_of(a).contains_key(k) {
            merged(statics_of(a)[k], b.static_children@[i].1, statics_of(m)[k])
        } else {
            statics_of(m)[k] == b.static_children@[i].1
        })) && merged_kids(a, b, i + 1, m)
    }
}

/// True when no later pair holds the same key (with unique keys, every
/// index qualifies).
pub open spec fn kid_last_at(s: Seq<(String, RouteNode)>, i: int) -> bool {
    forall|j: int| i < j < s.len() ==> (#[trigger] s[j]).0@ != s[i].0@
}

impl RouteNode {
    /// Creates an empty route node.
    pub fn new() -> (r: RouteNode)
        ensures
            no_children(r),
            r.handler is None,
            node_wf(r),
    {
        let r = RouteNode {
            static_children: Vec::new(),
            parameter_child: None,
            wildcard_child: None,
            handler: None,
        };
        proof {
            assert(statics_of(r) =~= Map::<Seq<char>, RouteNode>::empty());
            assert(kids_wf(r, 0));
        }
        r
    }

    /// Inserts a handler under a route.
    pub fn insert(&mut self, route: &Route, handler: HandlerFn)
        requires
            node_wf(*old(self)),
        ensures
            inserted(*old(self), route@, handler, *final(self)),
            node_wf(*final(self)),
    {
        let mut node = RouteNode::new();
        core::mem::swap(self, &mut node);
        proof {
            assert(route.path@.skip(0) =~= route.path@);
        }
        let r = insert_at(node, &route.path, 0, handler);
        *self = r;
    }

    /// Matches already-split request segments against the tree.
    pub fn match_segments(&self, segs: &Vec<String>) -> (r: Option<(HandlerFn, ParamMap)>)
        ensures
            match r {
                Some(p) => spec_match(*self, views_of(segs@)) == Some((p.0, p.1@)),
                None => spec_match(*self, views_of(segs@)) is None,
            },
    {
        proof {
            assert(views_of(segs@).skip(0) =~= views_of(segs@));
        }
        match_at(self, segs, 0)
    }

    /// Splits a request path on `/` and matches it against the tree.
    pub fn match_path(&self, path: &str) -> (r: Option<(HandlerFn, ParamMap)>)
        ensures
            match r {
                Some(p) => spec_match(*self, crate::route::path::spec_segments(path@)) == Some(
                    (p.0, p.1@),
                ),
                None => spec_match(*self, crate::route::path::spec_segments(path@)) is None,
            },
    {
        let segs = crate::route::path::split_segments(path);
        proof {
            assert(views_of(segs@) =~= crate::route::path::spec_segments(path@));
        }
        self.match_segments(&segs)
    }

    /// Merges another tree into this one; on conflicts the other tree's
    /// handlers win.
    pub fn extend(&mut self, other: RouteNode)
        requires
            node_wf(*old(self)),
            node_wf(other),
        ensures
            merged(*old(self), other, *final(self)),
            node_wf(*final(self)),
    {
        let mut node = RouteNode::new();
        core::mem::swap(self, &mut node);
        let r = merge_nodes(node, other);
        *self = r;
    }
}

/// Merges two trees, the second one's handlers winning on conflicts.
fn merge_nodes(a: RouteNode, b: RouteNode) -> (m: RouteNode)
    requires
        node_wf(a),
        node_wf(b),
    ensures
        merged(a, b, m),
        node_wf(m),
    decreases b,
{
    proof {
        lemma_kids_wf_index(a, 0);
        lemma_kids_wf_index(b, 0);
    }
    let ghost bg = b;
    let RouteNode {
        static_children: b_kids,
        parameter_child: b_param,
        wildcard_child: b_wild,
        handler: b_handler,
    } = b;
    let ghost ag = a;
    let RouteNode {
        static_children: mut m_kids,
        parameter_child: a_param,
        wildcard_child: a_wild,
        handler: a_handler,
    } = a;

    let m_handler = match b_handler {
        Some(h) => Some(h),
        None => a_handler,
    };

    let m_param = match b_param {
        None => a_param,
        Some((b_name, b_child)) => match a_param {
            Some((a_name, a_child)) => {
                proof {
                    assert(*bg.parameter_child->Some_0.1 == *b_child);
                    assert(*ag.parameter_child->Some_0.1 == *a_child);
                }
                let c = merge_nodes(*a_child, *b_child);
                Some((a_name, Box::new(c)))
            },
            None => Some((b_name, b_child)),
        },
    };

    let m_wild = match b_wild {
        None => a_wild,
        Some(b_child) => match a_wild {
            Some(a_child) => {
                proof {
                    assert(*bg.wildcard_child->Some_0 == *b_child);
                    assert(*ag.wildcard_child->Some_0 == *a_child);
                }
                let c = merge_nodes(*a_child, *b_child);
                Some(Box::new(c))
            },
            None => Some(b_child),
        },
    };

    // Fold the other tree's literal children into ours, from the back.
    let ghost bseq = b_kids@;
    let ghost a_map = children_map(ag.static_children@);
    let mut b_rest = b_kids;
    proof {
        assert(bseq.skip(bseq.len() as int) =~= Seq::<(String, RouteNode)>::empty());
        assert(key_set(bseq.skip(bseq.len() as int)) =~= Set::<Seq<char>>::empty());
        assert(bseq.subrange(0, bseq.len() as int) =~= bseq);
        assert(children_map(m_kids@).dom() =~= a_map.dom() + key_set(
            bseq.skip(bseq.len() as int),
        ));
    }
    while b_rest.len() > 0
        invariant
            bseq == b.static_children@,
            a_map == children_map(a.static_children@),
            b_rest@.len() <= bseq.len(),
            b_rest@ == bseq.subrange(0, b_rest@.len() as int),
            kid_keys_unique(bseq),
            forall|j: int|
                0 <= j < bseq.len() ==> node_wf((#[trigger] bseq[j]).1),
            kid_keys_unique(m_kids@),
            forall|j: int| 0 <= j < m_kids@.len() ==> node_wf((#[trigger] m_kids@[j]).1),
            children_map(m_kids@).dom() =~= a_map.dom() + key_set(bseq.skip(b_rest@.len() as int)),
            forall|k: Seq<char>|
                a_map.contains_key(k) && !key_set(bseq.skip(b_rest@.len() as int)).contains(k)
                    ==> #[trigger] children_map(m_kids@)[k] == a_map[k],
            forall|jj: int|
                b_rest@.len() <= jj < bseq.len() ==> (if a_map.contains_key(
                    (#[trigger] bseq[jj]).0@,
                ) {
                    merged(a_map[bseq[jj].0@], bseq[jj].1, children_map(m_kids@)[bseq[jj].0@])
                } else {
                    children_map(m_kids@)[bseq[jj].0@] == bseq[jj].1
                }),
        decreases b_rest@.len(),
    {
        let ghost pre_rest = b_rest@;
        let ghost processed_pre = bseq.skip(pre_rest.len() as int);
        let popped = b_rest.pop().unwrap();
        let ghost jj = pre_rest.len() - 1;
        proof {
            assert(b_rest@ =~= bseq.subrange(0, jj));
            assert(popped == bseq[jj]);
            assert(bseq.skip(jj) =~= seq![bseq[jj]] + processed_pre);
            // The key of the popped pair is not among those already folded.
            assert forall|k2: int| jj < k2 < bseq.len() implies (#[trigger] bseq[k2]).0@
                != bseq[jj].0@ by {}
        }
        let (key, b_child) = popped;
        proof {
            assert(b_child == b.static_children@[jj].1);
            assert(node_wf(b_child));
        }
        let ghost m0 = m_kids@;
        match find_last_key(&m_kids, &key) {
            Some(idx) => {
                proof {
                    lemma_children_last_match(m0, idx as int);
                    lemma_children_domain(m0);
                    // The key was already present and is not yet folded, so its
                    // value is still the starting one.
                    assert(children_map(m0).contains_key(key@));
                    assert(!key_set(processed_pre).contains(key@)) by {
                        lemma_key_set_index(processed_pre, key@);
                    }
                    assert(a_map.contains_key(key@));
                    assert(children_map(m0)[key@] == a_map[key@]);
                }
                let (mkey, m_child) = m_kids.remove(idx);
                let c = merge_nodes(m_child, b_child);
                m_kids.insert(idx, (mkey, c));
                proof {
                    assert forall|j: int| 0 <= j < m0.len() && j != idx implies #[trigger] m_kids@[j]
                        == m0[j] by {}
                    assert(m_kids@[idx as int].0@ == key@);
                    assert(m_kids@[idx as int].1 == c);
                    lemma_children_update_last(m0, m_kids@, idx as int);
                    assert(kid_keys_unique(m_kids@)) by {
                        assert forall|x: int, y: int|
                            0 <= x < y < m_kids@.len() implies (#[trigger] m_kids@[x]).0@ != (
                        #[trigger] m_kids@[y]).0@ by {
                            if x != idx && y != idx {
                                assert(m_kids@[x] == m0[x]);
                                assert(m_kids@[y] == m0[y]);
                            } else if x == idx as int {
                                assert(m_kids@[y] == m0[y]);
                                assert(m0[x].0@ == m_kids@[x].0@);
                            } else {
                                assert(m_kids@[x] == m0[x]);
                                assert(m0[y].0@ == m_kids@[y].0@);
                            }
                        }
                    }
                    lemma_key_set_concat(seq![bseq[jj]], processed_pre);
                    assert(key_set(seq![bseq[jj]]) =~= set![key@]) by {
                        lemma_key_set_index(seq![bseq[jj]], key@);
                        assert((seq![bseq[jj]])[0].0@ == key@);
                        assert forall|k2: Seq<char>|
                            key_set(seq![bseq[jj]]).contains(k2) implies set![key@].contains(
                            k2,
                        ) by {
                            lemma_key_set_index(seq![bseq[jj]], k2);
                        }
                    }
                    assert(children_map(m_kids@).dom() =~= a_map.dom() + key_set(
                        bseq.skip(jj),
                    ));
                    assert forall|j: int| 0 <= j < m_kids@.len() implies node_wf(
                        (#[trigger] m_kids@[j]).1,
                    ) by {
                        if j != idx {
                            assert(m_kids@[j] == m0[j]);
                        }
                    }
                }
            },
            None => {
                proof {
                    lemma_children_domain(m0);
                    assert(!children_map(m0).contains_key(key@));
                }
                m_kids.push((key, b_child));
                proof {
                    assert(m_kids@.drop_last() =~= m0);
                    assert(kid_keys_unique(m_kids@)) by {
                        assert forall|x: int, y: int|
                            0 <= x < y < m_kids@.len() implies (#[trigger] m_kids@[x]).0@ != (
                        #[trigger] m_kids@[y]).0@ by {
                            if y < m0.len() {
                                assert(m_kids@[x] == m0[x]);
                                assert(m_kids@[y] == m0[y]);
                            } else {
                                assert(m_kids@[x] == m0[x]);
                            }
                        }
                    }
                    lemma_key_set_concat(seq![bseq[jj]], processed_pre);
                    assert(key_set(seq![bseq[jj]]) =~= set![key@]) by {
                        lemma_key_set_index(seq![bseq[jj]], key@);
                        assert((seq![bseq[jj]])[0].0@ == key@);
                        assert forall|k2: Seq<char>|
                            key_set(seq![bseq[jj]]).contains(k2) implies set![key@].contains(
                            k2,
                        ) by {
                            lemma_key_set_index(seq![bseq[jj]], k2);
                        }
                    }
                    assert(!key_set(processed_pre).contains(key@)) by {
                        lemma_key_set_index(processed_pre, key@);
                    }
                    assert(!a_map.contains_key(key@));
                    assert(children_map(m_kids@).dom() =~= a_map.dom() + key_set(
                        bseq.skip(jj),
                    ));
                    assert forall|j: int| 0 <= j < m_kids@.len() implies node_wf(
                        (#[trigger] m_kids@[j]).1,
                    ) by {
                        if j < m0.len() {
                            assert(m_kids@[j] == m0[j]);
                        } else {
                            assert(m_kids@[j].1 == bseq[jj].1);
                        }
                    }
                }
            },
        }
        proof {
            // Entries folded earlier keep their values: their keys differ
            // from the one just folded.
            assert forall|jj2: int| pre_rest.len() <= jj2 < bseq.len() implies (if a_map.contains_key(
                (#[trigger] bseq[jj2]).0@,
            ) {
                merged(a_map[bseq[jj2].0@], bseq[jj2].1, children_map(m_kids@)[bseq[jj2].0@])
            } else {
                children_map(m_kids@)[bseq[jj2].0@] == bseq[jj2].1
            }) by {
                assert(bseq[jj2].0@ != bseq[jj].0@);
                assert(children_map(m_kids@)[bseq[jj2].0@] == children_map(m0)[bseq[jj2].0@]);
            }
        }
    }
    let m = RouteNode {
        static_children: m_kids,
        parameter_child: m_param,
        wildcard_child: m_wild,
        handler: m_handler,
    };
    proof {
        assert(bseq.skip(0) =~= bseq);
        assert(statics_of(m).dom() =~= statics_of(ag).dom() + statics_of(bg).dom()) by {
            lemma_children_domain(bseq);
            assert forall|k: Seq<char>|
                key_set(bseq).contains(k) <==> children_map(bseq).contains_key(k) by {
                lemma_key_set_index(bseq, k);
            }
        }
        assert forall|k: Seq<char>|
            statics_of(ag).contains_key(k) && !statics_of(bg).contains_key(k) implies #[trigger] statics_of(
            m,
        )[k] == statics_of(ag)[k] by {
            lemma_key_set_index(bseq, k);
            lemma_children_domain(bseq);
            assert(!key_set(bseq).contains(k));
            assert(children_map(m_kids@)[k] == a_map[k]);
        }
        assert(match m.parameter_child {
            Some(p) => node_wf(*p.1),
            None => true,
        });
        assert(match m.wildcard_child {
            Some(c) => node_wf(*c),
            None => true,
        });
        lemma_node_wf_parts(m);
        assert(merged_kids(ag, bg, 0, m)) by {
            lemma_merged_kids_from(ag, bg, 0, m);
        }
    }
    m
}

/// The set of keys a pair list holds.
pub open spec fn key_set(s: Seq<(String, RouteNode)>) -> Set<Seq<char>>
    decreases s.len(),
{
    if s.len() == 0 {
        Set::empty()
    } else {
        key_set(s.drop_last()).insert(s.last().0@)
    }
}

/// A key is in the key set exactly when some pair holds it.
proof fn lemma_key_set_index(s: Seq<(String, RouteNode)>, k: Seq<char>)
    ensures
        key_set(s).contains(k) <==> exists|i: int| 0 <= i < s.len() && (#[trigger] s[i]).0@ == k,
    decreases s.len(),
{
    if s.len() > 0 {
        lemma_key_set_index(s.drop_last(), k);
        if key_set(s).contains(k) {
            if s.last().0@ == k {
                assert((s[s.len() - 1]).0@ == k);
            } else {
                let i = choose|i: int|
                    0 <= i < s.drop_last().len() && (#[trigger] s.drop_last()[i]).0@ == k;
                assert(s.drop_last()[i] == s[i]);
                assert((s[i]).0@ == k);
            }
        }
        if exists|i: int| 0 <= i < s.len() && (#[trigger] s[i]).0@ == k {
            let i = choose|i: int| 0 <= i < s.len() && (#[trigger] s[i]).0@ == k;
            if i < s.len() - 1 {
                assert(s.drop_last()[i] == s[i]);
                assert(key_set(s.drop_last()).contains(k));
            }
        }
    }
}

/// Key sets concatenate as unions.
proof fn lemma_key_set_concat(a: Seq<(String, RouteNode)>, b: Seq<(String, RouteNode)>)
    ensures
        key_set(a + b) == key_set(a) + key_set(b),
    decreases b.len(),
{
    if b.len() == 0 {
        assert(a + b =~= a);
        assert(key_set(a) + key_set(b) =~= key_set(a));
    } else {
        assert((a + b).drop_last() =~= a + b.drop_last());
        lemma_key_set_concat(a, b.drop_last());
        assert((a + b).last() == b.last());
        assert(key_set(a) + key_set(b.drop_last()).insert(b.last().0@) =~= key_set(a) + key_set(
            b,
        ));
        assert(key_set(a + b) =~= key_set(a) + key_set(b));
    }
}

/// The per-index fold claims follow from the per-index facts.
proof fn lemma_merged_kids_from(a: RouteNode, b: RouteNode, i: int, m: RouteNode)
    requires
        forall|jj: int|
            0 <= jj < b.static_children@.len() ==> (if statics_of(a).contains_key(
                (#[trigger] b.static_children@[jj]).0@,
            ) {
                merged(
                    statics_of(a)[b.static_children@[jj].0@],
                    b.static_children@[jj].1,
                    statics_of(m)[b.static_children@[jj].0@],
                )
            } else {
                statics_of(m)[b.static_children@[jj].0@] == b.static_children@[jj].1
            }),
    ensures
        merged_kids(a, b, i, m),
    decreases b.static_children@.len() - i,
{
    if 0 <= i && i < b.static_children@.len() {
        lemma_merged_kids_from(a, b, i + 1, m);
    } else if i < 0 {
        lemma_merged_kids_from(a, b, i + 1, m);
    }
}


/// A fresh spine of literals resolves: matching exactly its literals
/// finds the handler at its end, with nothing captured.
proof fn lemma_fresh_then_match(segs: Seq<PathSegment>, h: HandlerFn, b: RouteNode)
    requires
        fresh_tree(segs, h, b),
        all_static(segs),
    ensures
        spec_match(b, static_texts(segs)) == Some((h, Map::<Seq<char>, Seq<char>>::empty())),
    decreases segs.len(),
{
    let texts = static_texts(segs);
    if segs.len() == 0 {
        assert(texts.len() == 0);
    } else {
        assert(segs[0] is Static);
        let t = seg_text(segs[0]);
        assert(texts[0] == t);
        assert(all_static(segs.skip(1))) by {
            assert forall|i: int| 0 <= i < segs.skip(1).len() implies (#[trigger] segs.skip(
                1,
            )[i]) is Static by {
                assert(segs.skip(1)[i] == segs[i + 1]);
            }
        }
        assert(static_texts(segs).skip(1) =~= static_texts(segs.skip(1)));
        lemma_fresh_then_match(segs.skip(1), h, statics_of(b)[t]);
    }
}

/// Registration resolves: after a handler is inserted under a route of
/// literals, matching exactly those literals finds it, with nothing
/// captured.
pub proof fn lemma_insert_then_match(
    a: RouteNode,
    segs: Seq<PathSegment>,
    h: HandlerFn,
    b: RouteNode,
)
    requires
        inserted(a, segs, h, b),
        all_static(segs),
    ensures
        spec_match(b, static_texts(segs)) == Some((h, Map::<Seq<char>, Seq<char>>::empty())),
    decreases segs.len(),
{
    let texts = static_texts(segs);
    if segs.len() == 0 {
        assert(texts.len() == 0);
    } else {
        assert(segs[0] is Static);
        let t = seg_text(segs[0]);
        assert(texts[0] == t);
        assert(all_static(segs.skip(1))) by {
            assert forall|i: int| 0 <= i < segs.skip(1).len() implies (#[trigger] segs.skip(
                1,
            )[i]) is Static by {
                assert(segs.skip(1)[i] == segs[i + 1]);
            }
        }
        assert(static_texts(segs).skip(1) =~= static_texts(segs.skip(1)));
        if statics_of(a).contains_key(t) {
            lemma_insert_then_match(statics_of(a)[t], segs.skip(1), h, statics_of(b)[t]);
        } else {
            lemma_fresh_then_match(segs.skip(1), h, statics_of(b)[t]);
        }
    }
}

} // verus!
