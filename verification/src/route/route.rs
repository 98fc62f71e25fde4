//! A route as a sequence of segments, and direct matching of a request
//! path against it.

use vstd::prelude::*;
use vstd::string::*;

use crate::params::ParamMap;
use crate::route::path::{route_rep, spec_segments, Path, PathSegment};
use core::cmp::Ordering;

verus! {

/// The views of a list of segment strings.
pub open spec fn views_of(s: Seq<String>) -> Seq<Seq<char>> {
    Seq::new(s.len(), |i: int| s[i]@)
}

/// The reserved parameter name under which a deep wildcard records the
/// rest of the path.
pub open spec fn wildcard_key() -> Seq<char> {
    "wildcard_deep"@
}

/// The segments joined back together with `/` between them.
pub open spec fn join_slash(segs: Seq<Seq<char>>) -> Seq<char>
    decreases segs.len(),
{
    if segs.len() == 0 {
        Seq::empty()
    } else if segs.len() == 1 {
        segs[0]
    } else {
        join_slash(segs.drop_last()) + seq!['/'] + segs.last()
    }
}

/// What matching a route against request segments yields: the parameter
/// map on success, nothing on failure.  Each segment of the route
/// consumes one request segment; a deep wildcard consumes everything
/// that remains and records it, joined with `/`, under the reserved
/// name.  When one parameter name occurs twice, the later occurrence
/// wins.
pub open spec fn route_match(route: Seq<PathSegment>, segs: Seq<Seq<char>>) -> Option<
    Map<Seq<char>, Seq<char>>,
>
    decreases route.len(),
{
    if route.len() == 0 {
        if segs.len() == 0 {
            Some(Map::empty())
        } else {
            None
        }
    } else {
        match route[0] {
            PathSegment::Static(t) => if segs.len() > 0 && segs[0] == t@ {
                route_match(route.skip(1), segs.skip(1))
            } else {
                None
            },
            PathSegment::Parameter(n) => if segs.len() > 0 {
                match route_match(route.skip(1), segs.skip(1)) {
                    Some(m) => Some(
                        if m.contains_key(n@) {
                            m
                        } else {
                            m.insert(n@, segs[0])
                        },
                    ),
                    None => None,
                }
            } else {
                None
            },
            PathSegment::Wildcard => if segs.len() > 0 {
                route_match(route.skip(1), segs.skip(1))
            } else {
                None
            },
            PathSegment::WildcardDeep => Some(
                Map::empty().insert(wildcard_key(), join_slash(segs)),
            ),
        }
    }
}

/// A parsed route: the segments of a pattern string, in order.
#[derive(Debug, Clone)]
pub struct Route {
    /// The segments, in order.
    pub path: Vec<PathSegment>,
}

impl View for Route {
    type V = Seq<PathSegment>;

    open spec fn view(&self) -> Seq<PathSegment> {
        self.path@
    }
}

/// Joins the segments from index `j` on with `/` between them.
pub(crate) fn join_from(segs: &Vec<String>, j: usize) -> (r: String)
    requires
        j <= segs@.len(),
    ensures
        r@ == join_slash(views_of(segs@).skip(j as int)),
{
    proof {
        reveal_strlit("/");
    }
    let mut acc = String::new();
    let mut k: usize = j;
    while k < segs.len()
        invariant
            j <= k <= segs@.len(),
            acc@ == join_slash(views_of(segs@).subrange(j as int, k as int)),
        decreases segs@.len() - k,
    {
        let ghost pre = views_of(segs@).subrange(j as int, k as int);
        let ghost cur = views_of(segs@).subrange(j as int, k + 1);
        proof {
            assert(cur.drop_last() =~= pre);
            assert(cur.last() == segs@[k as int]@);
        }
        if k > j {
            acc.append("/");
        } else {
            proof {
                assert(acc@ =~= Seq::<char>::empty());
            }
        }
        acc.append(segs[k].as_str());
        proof {
            reveal_strlit("/");
            assert("/"@ =~= seq!['/']);
            if cur.len() == 1 {
                assert(acc@ =~= cur[0]);
            } else {
                assert(acc@ =~= join_slash(pre) + seq!['/'] + cur.last());
            }
        }
        k = k + 1;
    }
    proof {
        assert(views_of(segs@).subrange(j as int, segs@.len() as int) =~= views_of(segs@).skip(
            j as int,
        ));
    }
    acc
}

/// Matches the route from segment `i` on against the request segments
/// from `j` on, mirroring `route_match`.
fn match_from(route: &Vec<PathSegment>, i: usize, segs: &Vec<String>, j: usize) -> (r: Option<
    ParamMap,
>)
    requires
        i <= route@.len(),
        j <= segs@.len(),
    ensures
        match r {
            Some(pm) => route_match(route@.skip(i as int), views_of(segs@).skip(j as int))
                == Some(pm@),
            None => route_match(route@.skip(i as int), views_of(segs@).skip(j as int)) is None,
        },
    decreases route@.len() - i,
{
    let ghost rrest = route@.skip(i as int);
    let ghost srest = views_of(segs@).skip(j as int);
    proof {
        if i < route@.len() {
            assert(rrest[0] == route@[i as int]);
            assert(rrest.skip(1) =~= route@.skip(i + 1));
        }
        if j < segs@.len() {
            assert(srest[0] == segs@[j as int]@);
            assert(srest.skip(1) =~= views_of(segs@).skip(j + 1));
        }
    }
    if i == route.len() {
        if j == segs.len() {
            return Some(ParamMap::new());
        }
        return None;
    }
    match &route[i] {
        PathSegment::Static(t) => {
            if j < segs.len() && segs[j] == *t {
                match_from(route, i + 1, segs, j + 1)
            } else {
                None
            }
        },
        PathSegment::Parameter(n) => {
            if j < segs.len() {
                match match_from(route, i + 1, segs, j + 1) {
                    Some(mut pm) => {
                        if !pm.contains_key(n.as_str()) {
                            pm.insert(n.clone(), segs[j].clone());
                        }
                        Some(pm)
                    },
                    None => None,
                }
            } else {
                None
            }
        },
        PathSegment::Wildcard => {
            if j < segs.len() {
                match_from(route, i + 1, segs, j + 1)
            } else {
                None
            }
        },
        PathSegment::WildcardDeep => {
            let mut pm = ParamMap::new();
            let key: String = "wildcard_deep".to_owned();
            let value = join_from(segs, j);
            pm.insert(key, value);
            Some(pm)
        },
    }
}

impl Route {
    /// Parses a pattern string into a route.
    pub fn new(path: &str) -> (r: Route)
        ensures
            route_rep(r@, spec_segments(path@)),
    {
        Route { path: Path::parse(path) }
    }

    /// The segments of the route.
    pub fn segments(&self) -> (r: &Vec<PathSegment>)
        ensures
            r@ == self@,
    {
        &self.path
    }

    /// This route followed by another.
    pub fn concat(self, other: Route) -> (r: Route)
        ensures
            r@ == self@ + other@,
    {
        let mut path = self.path;
        let mut rest = other.path;
        path.append(&mut rest);
        Route { path }
    }

    /// Matches already-split request segments, merging captured
    /// parameters into `params`; on a shared name the capture wins.
    /// On failure `params` is left unchanged.
    pub fn matches_segments(&self, request_segments: &Vec<String>, params: &mut ParamMap) -> (r:
        bool)
        ensures
            r == (route_match(self@, views_of(request_segments@)) is Some),
            r ==> (route_match(self@, views_of(request_segments@)) matches Some(m)
                && final(params)@ == old(params)@.union_prefer_right(m)),
            !r ==> *final(params) == *old(params),
    {
        proof {
            assert(self@.skip(0) =~= self@);
            assert(views_of(request_segments@).skip(0) =~= views_of(request_segments@));
        }
        match match_from(&self.path, 0, request_segments, 0) {
            Some(pm) => {
                params.extend_from(&pm);
                true
            },
            None => false,
        }
    }

    /// Splits a request path on `/` and matches it against the route,
    /// returning the captured parameters on success.
    pub fn is_match(&self, request_path: &str) -> (r: Option<ParamMap>)
        ensures
            match r {
                Some(pm) => route_match(self@, spec_segments(request_path@)) == Some(pm@),
                None => route_match(self@, spec_segments(request_path@)) is None,
            },
    {
        let request_segments = crate::route::path::split_segments(request_path);
        proof {
            assert(views_of(request_segments@) =~= spec_segments(request_path@));
        }
        let mut params = ParamMap::new();
        if self.matches_segments(&request_segments, &mut params) {
            proof {
                let m = route_match(self@, spec_segments(request_path@))->Some_0;
                assert(Map::<Seq<char>, Seq<char>>::empty().union_prefer_right(m) =~= m);
            }
            Some(params)
        } else {
            None
        }
    }
}

impl PartialEq for Route {
    fn eq(&self, other: &Route) -> (r: bool) {
        if self.path.len() != other.path.len() {
            return false;
        }
        let mut i: usize = 0;
        while i < self.path.len()
            invariant
                i <= self.path@.len(),
                self.path@.len() == other.path@.len(),
                forall|j: int| 0 <= j < i ==> seg_like(#[trigger] self.path@[j], other.path@[j]),
            decreases self.path@.len() - i,
        {
            if !seg_eq(&self.path[i], &other.path[i]) {
                return false;
            }
            i = i + 1;
        }
        true
    }
}

impl vstd::std_specs::cmp::PartialEqSpecImpl for Route {
    open spec fn obeys_eq_spec() -> bool {
        true
    }

    open spec fn eq_spec(&self, other: &Route) -> bool {
        route_like(self.path@, other.path@)
    }
}

impl PartialOrd for Route {
    fn partial_cmp(&self, other: &Route) -> (r: Option<Ordering>) {
        if self.path.len() < other.path.len() {
            Some(Ordering::Less)
        } else if self.path.len() == other.path.len() {
            Some(Ordering::Equal)
        } else {
            Some(Ordering::Greater)
        }
    }
}

impl vstd::std_specs::cmp::PartialOrdSpecImpl for Route {
    open spec fn obeys_partial_cmp_spec() -> bool {
        true
    }

    open spec fn partial_cmp_spec(&self, other: &Route) -> Option<Ordering> {
        if self.path@.len() < other.path@.len() {
            Some(Ordering::Less)
        } else if self.path@.len() == other.path@.len() {
            Some(Ordering::Equal)
        } else {
            Some(Ordering::Greater)
        }
    }
}

/// Two segments are alike when they are the same kind with the same text.
pub open spec fn seg_like(a: PathSegment, b: PathSegment) -> bool {
    match (a, b) {
        (PathSegment::Static(x), PathSegment::Static(y)) => x@ == y@,
        (PathSegment::Parameter(x), PathSegment::Parameter(y)) => x@ == y@,
        (PathSegment::Wildcard, PathSegment::Wildcard) => true,
        (PathSegment::WildcardDeep, PathSegment::WildcardDeep) => true,
        _ => false,
    }
}

/// Two routes are alike when they are segment-wise alike.
pub open spec fn route_like(a: Seq<PathSegment>, b: Seq<PathSegment>) -> bool {
    a.len() == b.len() && forall|i: int| 0 <= i < a.len() ==> seg_like(#[trigger] a[i], b[i])
}

/// Compares two segments.
fn seg_eq(a: &PathSegment, b: &PathSegment) -> (r: bool)
    ensures
        r == seg_like(*a, *b),
{
    match (a, b) {
        (PathSegment::Static(x), PathSegment::Static(y)) => *x == *y,
        (PathSegment::Parameter(x), PathSegment::Parameter(y)) => *x == *y,
        (PathSegment::Wildcard, PathSegment::Wildcard) => true,
        (PathSegment::WildcardDeep, PathSegment::WildcardDeep) => true,
        _ => false,
    }
}

/// The text a segment carries: the literal of a static segment, the name
/// of a parameter, nothing for wildcards.
pub open spec fn seg_text(s: PathSegment) -> Seq<char> {
    match s {
        PathSegment::Static(t) => t@,
        PathSegment::Parameter(n) => n@,
        PathSegment::Wildcard => Seq::empty(),
        PathSegment::WildcardDeep => Seq::empty(),
    }
}

/// True when every segment of the route is a literal.
pub open spec fn all_static(route: Seq<PathSegment>) -> bool {
    forall|i: int| 0 <= i < route.len() ==> (#[trigger] route[i]) is Static
}

/// True when no segment of the route is a deep wildcard.
pub open spec fn no_deep_wildcard(route: Seq<PathSegment>) -> bool {
    forall|i: int| 0 <= i < route.len() ==> !((#[trigger] route[i]) is WildcardDeep)
}

/// The literal texts of an all-static route, in order.
pub open spec fn static_texts(route: Seq<PathSegment>) -> Seq<Seq<char>> {
    Seq::new(route.len(), |i: int| seg_text(route[i]))
}

/// A route without parameters or wildcards matches exactly its own
/// literal text, and the match captures nothing.
pub proof fn lemma_static_route_matches_identical(route: Seq<PathSegment>)
    requires
        all_static(route),
    ensures
        route_match(route, static_texts(route)) == Some(Map::<Seq<char>, Seq<char>>::empty()),
    decreases route.len(),
{
    if route.len() > 0 {
        assert(route[0] is Static);
        assert(static_texts(route)[0] == seg_text(route[0]));
        assert(all_static(route.skip(1))) by {
            assert forall|i: int| 0 <= i < route.skip(1).len() implies (#[trigger] route.skip(
                1,
            )[i]) is Static by {
                assert(route.skip(1)[i] == route[i + 1]);
            }
        }
        assert(static_texts(route).skip(1) =~= static_texts(route.skip(1)));
        lemma_static_route_matches_identical(route.skip(1));
    }
}

/// A route without parameters or wildcards rejects any path of the same
/// length that differs from it in some segment.
pub proof fn lemma_static_route_mismatch(route: Seq<PathSegment>, segs: Seq<Seq<char>>, k: int)
    requires
        all_static(route),
        segs.len() == route.len(),
        0 <= k < route.len(),
        segs[k] != seg_text(route[k]),
    ensures
        route_match(route, segs) is None,
    decreases route.len(),
{
    assert(route[0] is Static);
    if k == 0 {
    } else {
        assert(all_static(route.skip(1))) by {
            assert forall|i: int| 0 <= i < route.skip(1).len() implies (#[trigger] route.skip(
                1,
            )[i]) is Static by {
                assert(route.skip(1)[i] == route[i + 1]);
            }
        }
        assert(route.skip(1)[k - 1] == route[k]);
        assert(segs.skip(1)[k - 1] == segs[k]);
        lemma_static_route_mismatch(route.skip(1), segs.skip(1), k - 1);
    }
}

/// Without a deep wildcard, a successful match forces the path to have
/// exactly as many segments as the route.
pub proof fn lemma_match_fixes_segment_count(route: Seq<PathSegment>, segs: Seq<Seq<char>>)
    requires
        no_deep_wildcard(route),
        route_match(route, segs) is Some,
    ensures
        segs.len() == route.len(),
    decreases route.len(),
{
    if route.len() > 0 {
        assert(!(route[0] is WildcardDeep));
        assert(no_deep_wildcard(route.skip(1))) by {
            assert forall|i: int| 0 <= i < route.skip(1).len() implies !((#[trigger] route.skip(
                1,
            )[i]) is WildcardDeep) by {
                assert(route.skip(1)[i] == route[i + 1]);
            }
        }
        lemma_match_fixes_segment_count(route.skip(1), segs.skip(1));
    }
}

/// A route of literals ending in a deep wildcard matches any path that
/// begins with those literals, and captures everything after them,
/// joined with `/`, under the reserved name.
pub proof fn lemma_deep_wildcard_captures_rest(route: Seq<PathSegment>, segs: Seq<Seq<char>>)
    requires
        route.len() > 0,
        route.last() is WildcardDeep,
        forall|i: int|
            0 <= i < route.len() - 1 ==> (#[trigger] route[i]) is Static && seg_text(route[i])
                == segs[i],
        segs.len() >= route.len() - 1,
    ensures
        route_match(route, segs) == Some(
            Map::<Seq<char>, Seq<char>>::empty().insert(
                wildcard_key(),
                join_slash(segs.skip(route.len() - 1)),
            ),
        ),
    decreases route.len(),
{
    if route.len() == 1 {
        assert(segs.skip(0) =~= segs);
    } else {
        assert(route[0] is Static && seg_text(route[0]) == segs[0]);
        assert(segs.len() > 0);
        assert(route.skip(1).last() == route.last());
        assert forall|i: int| 0 <= i < route.skip(1).len() - 1 implies (#[trigger] route.skip(
            1,
        )[i]) is Static && seg_text(route.skip(1)[i]) == segs.skip(1)[i] by {
            assert(route.skip(1)[i] == route[i + 1]);
            assert(segs.skip(1)[i] == segs[i + 1]);
        }
        lemma_deep_wildcard_captures_rest(route.skip(1), segs.skip(1));
        assert(segs.skip(1).skip(route.skip(1).len() - 1) =~= segs.skip(route.len() - 1));
    }
}


/// A trailing parameter captures: a route of literals followed by one
/// parameter matches any path of those literals and one segment more,
/// and captures that segment under the parameter's name.
pub proof fn lemma_parameter_captures(route: Seq<PathSegment>, segs: Seq<Seq<char>>)
    requires
        route.len() > 0,
        route.last() is Parameter,
        forall|i: int|
            0 <= i < route.len() - 1 ==> (#[trigger] route[i]) is Static && seg_text(route[i])
                == segs[i],
        segs.len() == route.len(),
    ensures
        route_match(route, segs) == Some(
            Map::<Seq<char>, Seq<char>>::empty().insert(seg_text(route.last()), segs.last()),
        ),
    decreases route.len(),
{
    if route.len() == 1 {
        assert(route[0] is Parameter);
        assert(route.skip(1).len() == 0);
        assert(segs.skip(1).len() == 0);
        assert(route_match(route.skip(1), segs.skip(1)) == Some(
            Map::<Seq<char>, Seq<char>>::empty(),
        ));
        assert(!Map::<Seq<char>, Seq<char>>::empty().contains_key(seg_text(route[0])));
    } else {
        assert(route[0] is Static && seg_text(route[0]) == segs[0]);
        assert(route.skip(1).last() == route.last());
        assert(segs.skip(1).last() == segs.last());
        assert forall|i: int| 0 <= i < route.skip(1).len() - 1 implies ((#[trigger] route.skip(
            1,
        )[i]) is Static && seg_text(route.skip(1)[i]) == segs.skip(1)[i]) by {
            assert(route.skip(1)[i] == route[i + 1]);
            assert(segs.skip(1)[i] == segs[i + 1]);
        }
        lemma_parameter_captures(route.skip(1), segs.skip(1));
    }
}

} // verus!
