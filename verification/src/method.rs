//! HTTP methods and protocol versions as closed enumerations, with their
//! wire tokens.

use vstd::prelude::*;

verus! {

/// An HTTP request method.
///
/// The enumeration is closed: a request line whose method token is not
/// one of these nine is rejected at parse time as malformed.  Keeping
/// the set closed is what lets registry lookups and the per-method
/// route trees be reasoned about as plain value equality.
#[derive(Debug, Clone, Copy, PartialEq, Eq, Structural, Hash)]
pub enum Method {
    /// GET
    Get,
    /// POST
    Post,
    /// PUT
    Put,
    /// DELETE
    Delete,
    /// HEAD
    Head,
    /// OPTIONS
    Options,
    /// CONNECT
    Connect,
    /// PATCH
    Patch,
    /// TRACE
    Trace,
}

/// The wire token of a method.
pub open spec fn method_token(m: Method) -> Seq<u8> {
    match m {
        Method::Get => seq![71, 69, 84],
        Method::Post => seq![80, 79, 83, 84],
        Method::Put => seq![80, 85, 84],
        Method::Delete => seq![68, 69, 76, 69, 84, 69],
        Method::Head => seq![72, 69, 65, 68],
        Method::Options => seq![79, 80, 84, 73, 79, 78, 83],
        Method::Connect => seq![67, 79, 78, 78, 69, 67, 84],
        Method::Patch => seq![80, 65, 84, 67, 72],
        Method::Trace => seq![84, 82, 65, 67, 69],
    }
}

/// The method a request-line token denotes, if any.
pub open spec fn spec_method_of(tok: Seq<u8>) -> Option<Method> {
    if tok == method_token(Method::Get) {
        Some(Method::Get)
    } else if tok == method_token(Method::Post) {
        Some(Method::Post)
    } else if tok == method_token(Method::Put) {
        Some(Method::Put)
    } else if tok == method_token(Method::Delete) {
        Some(Method::Delete)
    } else if tok == method_token(Method::Head) {
        Some(Method::Head)
    } else if tok == method_token(Method::Options) {
        Some(Method::Options)
    } else if tok == method_token(Method::Connect) {
        Some(Method::Connect)
    } else if tok == method_token(Method::Patch) {
        Some(Method::Patch)
    } else if tok == method_token(Method::Trace) {
        Some(Method::Trace)
    } else {
        None
    }
}

/// Reads a request-line token as a method.
pub fn parse_method(tok: &Vec<u8>) -> (r: Option<Method>)
    ensures
        r == spec_method_of(tok@),
        match r {
            Some(m) => tok@ == method_token(m),
            None => forall|m: Method| tok@ != #[trigger] method_token(m),
        },
{
    let n = tok.len();
    if n == 3 && tok[0] == 71 && tok[1] == 69 && tok[2] == 84 {
        proof {
            assert(tok@ =~= method_token(Method::Get));
        }
        return Some(Method::Get);
    }
    if n == 4 && tok[0] == 80 && tok[1] == 79 && tok[2] == 83 && tok[3] == 84 {
        proof {
            assert(tok@ =~= method_token(Method::Post));
        }
        return Some(Method::Post);
    }
    if n == 3 && tok[0] == 80 && tok[1] == 85 && tok[2] == 84 {
        proof {
            assert(tok@ =~= method_token(Method::Put));
        }
        return Some(Method::Put);
    }
    if n == 6 && tok[0] == 68 && tok[1] == 69 && tok[2] == 76 && tok[3] == 69 && tok[4]
        == 84 && tok[5] == 69 {
        proof {
            assert(tok@ =~= method_token(Method::Delete));
        }
        return Some(Method::Delete);
    }
    if n == 4 && tok[0] == 72 && tok[1] == 69 && tok[2] == 65 && tok[3] == 68 {
        proof {
            assert(tok@ =~= method_token(Method::Head));
        }
        return Some(Method::Head);
    }
    if n == 7 && tok[0] == 79 && tok[1] == 80 && tok[2] == 84 && tok[3] == 73 && tok[4]
        == 79 && tok[5] == 78 && tok[6] == 83 {
        proof {
            assert(tok@ =~= method_token(Method::Options));
        }
        return Some(Method::Options);
    }
    if n == 7 && tok[0] == 67 && tok[1] == 79 && tok[2] == 78 && tok[3] == 78 && tok[4]
        == 69 && tok[5] == 67 && tok[6] == 84 {
        proof {
            assert(tok@ =~= method_token(Method::Connect));
        }
        return Some(Method::Connect);
    }
    if n == 5 && tok[0] == 80 && tok[1] == 65 && tok[2] == 84 && tok[3] == 67 && tok[4]
        == 72 {
        proof {
            assert(tok@ =~= method_token(Method::Patch));
        }
        return Some(Method::Patch);
    }
    if n == 5 && tok[0] == 84 && tok[1] == 82 && tok[2] == 65 && tok[3] == 67 && tok[4]
        == 69 {
        proof {
            assert(tok@ =~= method_token(Method::Trace));
        }
        return Some(Method::Trace);
    }
    proof {
        assert forall|m: Method| tok@ != #[trigger] method_token(m) by {
            assert(tok@ != method_token(Method::Get));
            assert(tok@ != method_token(Method::Post));
            assert(tok@ != method_token(Method::Put));
            assert(tok@ != method_token(Method::Delete));
            assert(tok@ != method_token(Method::Head));
            assert(tok@ != method_token(Method::Options));
            assert(tok@ != method_token(Method::Connect));
            assert(tok@ != method_token(Method::Patch));
            assert(tok@ != method_token(Method::Trace));
        }
    }
    None
}

/// An HTTP protocol version.
#[derive(Debug, Clone, Copy, PartialEq, Eq, Structural)]
pub enum Version {
    /// HTTP/1.0
    Http10,
    /// HTTP/1.1
    Http11,
}

/// The wire token of a version.
pub open spec fn version_token(v: Version) -> Seq<u8> {
    match v {
        Version::Http10 => seq![72, 84, 84, 80, 47, 49, 46, 48],
        Version::Http11 => seq![72, 84, 84, 80, 47, 49, 46, 49],
    }
}

/// The version a request-line token denotes, if any.
pub open spec fn spec_version_of(tok: Seq<u8>) -> Option<Version> {
    if tok == version_token(Version::Http10) {
        Some(Version::Http10)
    } else if tok == version_token(Version::Http11) {
        Some(Version::Http11)
    } else {
        None
    }
}

/// Reads a request-line token as a version.
pub fn parse_version(tok: &Vec<u8>) -> (r: Option<Version>)
    ensures
        r == spec_version_of(tok@),
        match r {
            Some(v) => tok@ == version_token(v),
            None => forall|v: Version| tok@ != #[trigger] version_token(v),
        },
{
    let n = tok.len();
    if n == 8 && tok[0] == 72 && tok[1] == 84 && tok[2] == 84 && tok[3] == 80 && tok[4]
        == 47 && tok[5] == 49 && tok[6] == 46 {
        if tok[7] == 48 {
            proof {
                assert(tok@ =~= version_token(Version::Http10));
            }
            return Some(Version::Http10);
        }
        if tok[7] == 49 {
            proof {
                assert(tok@ =~= version_token(Version::Http11));
            }
            return Some(Version::Http11);
        }
    }
    proof {
        assert forall|v: Version| tok@ != #[trigger] version_token(v) by {
            assert(tok@ != version_token(Version::Http10));
            assert(tok@ != version_token(Version::Http11));
        }
    }
    None
}

/// Writes a version's wire token.
pub fn version_bytes(v: Version) -> (r: Vec<u8>)
    ensures
        r@ == version_token(v),
{
    let mut r: Vec<u8> = Vec::new();
    r.push(72);
    r.push(84);
    r.push(84);
    r.push(80);
    r.push(47);
    r.push(49);
    r.push(46);
    match v {
        Version::Http10 => r.push(48),
        Version::Http11 => r.push(49),
    }
    proof {
        assert(r@ =~= version_token(v));
    }
    r
}

} // verus!
