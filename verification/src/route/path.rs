//! Parsing of route pattern strings and request paths into segments.
//!
//! A path is split on `/`; empty tokens (leading, trailing or doubled
//! slashes) are dropped.  Each remaining token of a pattern becomes one
//! [`PathSegment`]: `{name}` a parameter, `*` a wildcard, `**` a deep
//! wildcard, anything else a literal.

use vstd::prelude::*;
use vstd::string::*;

verus! {

/// One segment of a route pattern.
#[derive(Debug, Clone)]
pub enum PathSegment {
    /// A literal segment that must match exactly.
    Static(String),
    /// A named parameter capturing one segment.
    Parameter(String),
    /// Matches exactly one segment of any text.
    Wildcard,
    /// Matches all remaining segments, however many.
    WildcardDeep,
}

/// Splitting state: the tokens accumulated in `acc`, with the scan at
/// position `i` and the current token running from `start`.
pub open spec fn seg_loop(s: Seq<char>, i: int, start: int, acc: Seq<Seq<char>>) -> Seq<Seq<char>>
    decreases s.len() - i,
{
    if i >= s.len() {
        if start < s.len() {
            acc.push(s.subrange(start, s.len() as int))
        } else {
            acc
        }
    } else if s[i] == '/' {
        seg_loop(
            s,
            i + 1,
            i + 1,
            if start < i {
                acc.push(s.subrange(start, i))
            } else {
                acc
            },
        )
    } else {
        seg_loop(s, i + 1, start, acc)
    }
}

/// The non-empty `/`-separated tokens of a path, in order.
pub open spec fn spec_segments(s: Seq<char>) -> Seq<Seq<char>> {
    seg_loop(s, 0, 0, Seq::empty())
}

/// How one pattern token reads as a segment: `*` a wildcard, `**` a deep
/// wildcard, `{name}` a parameter named `name`, anything else a literal.
pub open spec fn seg_matches_token(seg: PathSegment, t: Seq<char>) -> bool {
    if t.len() >= 2 && t[0] == '{' && t[t.len() - 1] == '}' {
        seg matches PathSegment::Parameter(n) && n@ == t.subrange(1, t.len() - 1)
    } else if t.len() == 1 && t[0] == '*' {
        seg is Wildcard
    } else if t.len() == 2 && t[0] == '*' && t[1] == '*' {
        seg is WildcardDeep
    } else {
        seg matches PathSegment::Static(x) && x@ == t
    }
}

/// A parsed pattern represents a token list when it has one segment per
/// token, each read as `seg_matches_token` says.
pub open spec fn route_rep(segs: Seq<PathSegment>, tokens: Seq<Seq<char>>) -> bool {
    &&& segs.len() == tokens.len()
    &&& forall|i: int| 0 <= i < segs.len() ==> seg_matches_token(#[trigger] segs[i], tokens[i])
}

/// Splits a path on `/`, dropping empty tokens.
pub fn split_segments(s: &str) -> (segs: Vec<String>)
    ensures
        segs@.map_values(|t: String| t@) == spec_segments(s@),
{
    let n: usize = s.unicode_len();
    let mut i: usize = 0;
    let mut start: usize = 0;
    let mut segs: Vec<String> = Vec::new();
    let ghost mut gsegs: Seq<Seq<char>> = Seq::empty();
    while i < n
        invariant
            start <= i <= n,
            n == s@.len(),
            gsegs.len() == segs@.len(),
            forall|j: int| 0 <= j < gsegs.len() ==> gsegs[j] == (#[trigger] segs@[j])@,
            seg_loop(s@, i as int, start as int, gsegs) == spec_segments(s@),
        decreases n - i,
    {
        let ghost prev = gsegs;
        let c = s.get_char(i);
        if c == '/' {
            if start < i {
                let piece = s.substring_char(start, i).to_owned();
                proof {
                    gsegs = gsegs.push(piece@);
                }
                segs.push(piece);
            }
            proof {
                assert(seg_loop(s@, i as int, start as int, prev) == seg_loop(
                    s@,
                    i + 1,
                    i + 1,
                    gsegs,
                ));
            }
            start = i + 1;
        } else {
            proof {
                assert(seg_loop(s@, i as int, start as int, prev) == seg_loop(
                    s@,
                    i + 1,
                    start as int,
                    gsegs,
                ));
            }
        }
        i = i + 1;
    }
    if start < n {
        let piece = s.substring_char(start, n).to_owned();
        proof {
            gsegs = gsegs.push(piece@);
        }
        segs.push(piece);
    }
    proof {
        assert(segs@.map_values(|t: String| t@) =~= gsegs);
    }
    segs
}

/// Reads one token of a pattern as a segment.
fn classify(t: String) -> (r: PathSegment)
    ensures
        seg_matches_token(r, t@),
{
    let n: usize = t.as_str().unicode_len();
    if n >= 2 && t.as_str().get_char(0) == '{' && t.as_str().get_char(n - 1) == '}' {
        PathSegment::Parameter(t.as_str().substring_char(1, n - 1).to_owned())
    } else if n == 1 && t.as_str().get_char(0) == '*' {
        PathSegment::Wildcard
    } else if n == 2 && t.as_str().get_char(0) == '*' && t.as_str().get_char(1) == '*' {
        PathSegment::WildcardDeep
    } else {
        PathSegment::Static(t)
    }
}

/// The pattern parser.
pub struct Path;

impl Path {
    /// Parses a pattern string into its segments.
    pub fn parse(path: &str) -> (r: Vec<PathSegment>)
        ensures
            route_rep(r@, spec_segments(path@)),
    {
        let tokens = split_segments(path);
        let ghost token_views = tokens@.map_values(|t: String| t@);
        let mut out: Vec<PathSegment> = Vec::new();
        let mut k: usize = 0;
        while k < tokens.len()
            invariant
                k <= tokens.len(),
                token_views == tokens@.map_values(|t: String| t@),
                token_views == spec_segments(path@),
                out@.len() == k,
                forall|i: int|
                    0 <= i < k ==> seg_matches_token(#[trigger] out@[i], token_views[i]),
            decreases tokens.len() - k,
        {
            let seg = classify(tokens[k].clone());
            out.push(seg);
            k = k + 1;
        }
        out
    }
}

} // verus!
