//! The request: its structured form, and parsing it from the raw bytes
//! of a connection.
//!
//! The wire form is a request line (method, path, version, separated by
//! single spaces), header lines (name, colon, value), a blank line, and
//! the body.  Parsing is strict: an unknown method, a malformed line or
//! a byte that is not plain printable ASCII in the head is a fatal
//! error, as is a head that never completes.

use vstd::prelude::*;
use vstd::slice::{slice_subrange, slice_to_vec};

use crate::errors::ServerError;
use crate::headers::{header_name_wf, header_value_wf, Headers};
use crate::method::{
    parse_method, parse_version, spec_method_of, spec_version_of, Method, Version,
};
use crate::params::ParamMap;
use crate::state::State;
use crate::text::{
    ascii_bytes, chars_of_bytes, lemma_ascii_byte_round, lower_ascii, lower_byte, lower_bytes,
    lower_bytes_of, string_from_ascii,
};
use crate::wire::{
    find_byte, find_headers_end, head_lines, lemma_find_byte, skip_spaces, spec_headers_end,
    split_lines, strip_spaces,
};

verus! {

/// A byte a path may carry: printable ASCII, no space.
pub open spec fn path_byte_ok(b: u8) -> bool {
    33 <= b <= 126
}

/// A byte a header name may carry: printable ASCII, no space, no colon.
pub open spec fn name_byte_ok(b: u8) -> bool {
    33 <= b <= 126 && b != 58
}

/// A byte a header value may carry: printable ASCII, space or tab.
pub open spec fn value_byte_ok(b: u8) -> bool {
    b == 9 || (32 <= b <= 126)
}

/// The head has arrived in full.
pub open spec fn req_complete(s: Seq<u8>) -> bool {
    spec_headers_end(s) is Some
}

/// The head: everything before the blank line.
pub open spec fn head_of(s: Seq<u8>) -> Seq<u8> {
    s.subrange(0, spec_headers_end(s)->Some_0)
}

/// The body: everything after the blank line.
pub open spec fn body_of(s: Seq<u8>) -> Seq<u8> {
    s.skip(spec_headers_end(s)->Some_0 + 4)
}

/// The payload a request hands its extractors: the body bytes, limited
/// to the count the head declares.  Bytes past the declared count are
/// dropped.
pub open spec fn req_payload(s: Seq<u8>) -> Seq<u8> {
    if crate::connection::spec_content_length(s) <= body_of(s).len() {
        body_of(s).take(crate::connection::spec_content_length(s))
    } else {
        body_of(s)
    }
}

/// The lines of the head.
pub open spec fn lines_of(s: Seq<u8>) -> Seq<Seq<u8>> {
    split_lines(head_of(s))
}

/// The request line.
pub open spec fn req_line(s: Seq<u8>) -> Seq<u8> {
    lines_of(s)[0]
}

/// The first space of the request line, ending the method token.
pub open spec fn rl_sp1(s: Seq<u8>) -> Option<int> {
    find_byte(req_line(s), 32)
}

/// The method token.
pub open spec fn rl_method_tok(s: Seq<u8>) -> Seq<u8> {
    req_line(s).subrange(0, rl_sp1(s)->Some_0)
}

/// The request line after the method token.
pub open spec fn rl_rest(s: Seq<u8>) -> Seq<u8> {
    req_line(s).skip(rl_sp1(s)->Some_0 + 1)
}

/// The second space, ending the path token.
pub open spec fn rl_sp2(s: Seq<u8>) -> Option<int> {
    find_byte(rl_rest(s), 32)
}

/// The path token (path and query, still joined).
pub open spec fn rl_path_tok(s: Seq<u8>) -> Seq<u8> {
    rl_rest(s).subrange(0, rl_sp2(s)->Some_0)
}

/// The version token.
pub open spec fn rl_version_tok(s: Seq<u8>) -> Seq<u8> {
    rl_rest(s).skip(rl_sp2(s)->Some_0 + 1)
}

/// The question mark splitting path from query, if any.
pub open spec fn rl_q(s: Seq<u8>) -> Option<int> {
    find_byte(rl_path_tok(s), 63)
}

/// The path part of the path token.
pub open spec fn req_path_bytes(s: Seq<u8>) -> Seq<u8> {
    match rl_q(s) {
        Some(i) => rl_path_tok(s).subrange(0, i),
        None => rl_path_tok(s),
    }
}

/// The query part of the path token, if any.
pub open spec fn req_query_bytes(s: Seq<u8>) -> Option<Seq<u8>> {
    match rl_q(s) {
        Some(i) => Some(rl_path_tok(s).skip(i + 1)),
        None => None,
    }
}

/// The method named on the request line, if known.
pub open spec fn req_method(s: Seq<u8>) -> Option<Method> {
    spec_method_of(rl_method_tok(s))
}

/// The version named on the request line, if known.
pub open spec fn req_version(s: Seq<u8>) -> Option<Version> {
    spec_version_of(rl_version_tok(s))
}

/// A header line is legal: a non-empty name of name bytes, a colon, and
/// value bytes.
pub open spec fn header_line_ok(line: Seq<u8>) -> bool {
    match find_byte(line, 58) {
        Some(c) => c > 0 && (forall|j: int| 0 <= j < c ==> name_byte_ok(#[trigger] line[j])) && (
        forall|j: int| c < j < line.len() ==> value_byte_ok(#[trigger] line[j])),
        None => false,
    }
}

/// The name of a header line, lower-cased.
pub open spec fn header_name_bytes(line: Seq<u8>) -> Seq<u8> {
    lower_bytes(line.subrange(0, find_byte(line, 58)->Some_0))
}

/// The value of a header line, with the spaces after the colon dropped.
pub open spec fn header_value_bytes(line: Seq<u8>) -> Seq<u8> {
    strip_spaces(line.skip(find_byte(line, 58)->Some_0 + 1))
}

/// Every header line of the head is legal.
pub open spec fn req_headers_ok(s: Seq<u8>) -> bool {
    forall|i: int| 1 <= i < lines_of(s).len() ==> header_line_ok(#[trigger] lines_of(s)[i])
}

/// The headers of the request, as name/value text pairs in order.
pub open spec fn req_headers_view(s: Seq<u8>) -> Seq<(Seq<char>, Seq<char>)> {
    Seq::new(
        (lines_of(s).len() - 1) as nat,
        |i: int|
            (
                chars_of_bytes(header_name_bytes(lines_of(s)[i + 1])),
                chars_of_bytes(header_value_bytes(lines_of(s)[i + 1])),
            ),
    )
}

/// Every path byte is legal.
pub open spec fn req_path_ok(s: Seq<u8>) -> bool {
    forall|j: int| 0 <= j < rl_path_tok(s).len() ==> path_byte_ok(#[trigger] rl_path_tok(s)[j])
}

/// The bytes hold one complete, legal request.
pub open spec fn req_wf(s: Seq<u8>) -> bool {
    &&& req_complete(s)
    &&& rl_sp1(s) is Some
    &&& rl_sp2(s) is Some
    &&& req_method(s) is Some
    &&& rl_path_tok(s).len() > 0
    &&& req_path_ok(s)
    &&& req_version(s) is Some
    &&& req_headers_ok(s)
}

/// The error a malformed or incomplete request is rejected with,
/// checked in the same order as the parser works.
pub open spec fn req_error_of(s: Seq<u8>) -> ServerError {
    if !req_complete(s) {
        ServerError::PartialParsed
    } else if rl_sp1(s) is None {
        ServerError::UriEmpty
    } else if rl_sp2(s) is None {
        ServerError::VersionEmpty
    } else if req_method(s) is None {
        ServerError::ParseError
    } else if rl_path_tok(s).len() == 0 {
        ServerError::UriEmpty
    } else if !req_path_ok(s) {
        ServerError::InvalidEncoding
    } else if req_version(s) is None {
        ServerError::ParseError
    } else {
        ServerError::ParseError
    }
}

/// The body bytes of a request, shared and consumed by the extractors.
#[derive(Debug, Clone)]
pub struct HttpPayload {
    /// The raw body bytes.
    pub body: Vec<u8>,
}

impl View for HttpPayload {
    type V = Seq<u8>;

    open spec fn view(&self) -> Seq<u8> {
        self.body@
    }
}

impl HttpPayload {
    /// Wraps body bytes.
    pub fn new(body: Vec<u8>) -> (r: HttpPayload)
        ensures
            r@ == body@,
    {
        HttpPayload { body }
    }

    /// Wraps body bytes.
    pub fn from_bytes(bytes: Vec<u8>) -> (r: HttpPayload)
        ensures
            r@ == bytes@,
    {
        HttpPayload { body: bytes }
    }

    /// An empty payload.
    pub fn empty() -> (r: HttpPayload)
        ensures
            r@ == Seq::<u8>::empty(),
    {
        HttpPayload { body: Vec::new() }
    }

    /// The number of body bytes.
    pub fn len(&self) -> (r: usize)
        ensures
            r == self@.len(),
    {
        self.body.len()
    }
}

/// A parsed request.
#[derive(Debug, Clone)]
pub struct HttpRequest {
    /// The request method.
    pub method: Method,
    /// The path part of the request target.
    pub path: String,
    /// The query part of the request target, if one was given.
    pub query: Option<String>,
    /// The request headers.
    pub headers: Headers,
    /// The protocol version.
    pub version: Version,
    /// Path parameters, filled in when a route matches.
    pub params: ParamMap,
    /// The process-wide shared state handle registry.
    pub data: State,
}

impl HttpRequest {
    /// Builds a request from its parts, with no parameters and empty
    /// shared state.
    pub fn new(method: Method, path: String, headers: Headers, version: Version) -> (r:
        HttpRequest)
        ensures
            r.method == method,
            r.path@ == path@,
            r.query is None,
            r.headers == headers,
            r.version == version,
            r.params@ == Map::<Seq<char>, Seq<char>>::empty(),
            r.data@ == Map::<u64, u64>::empty(),
    {
        HttpRequest {
            method,
            path,
            query: None,
            headers,
            version,
            params: ParamMap::new(),
            data: State::new(),
        }
    }

    /// The path part of the request target.
    pub fn path(&self) -> (r: &String)
        ensures
            r@ == self.path@,
    {
        &self.path
    }

    /// The query part of the request target, if one was given.
    pub fn query(&self) -> (r: &Option<String>)
        ensures
            r == &self.query,
    {
        &self.query
    }

    /// The request method.
    pub fn method(&self) -> (r: &Method)
        ensures
            r == self.method,
    {
        &self.method
    }

    /// The request headers.
    pub fn headers(&self) -> (r: &Headers)
        ensures
            r == &self.headers,
    {
        &self.headers
    }

    /// The protocol version.
    pub fn version(&self) -> (r: &Version)
        ensures
            r == self.version,
    {
        &self.version
    }

    /// The captured path parameters.
    pub fn params(&self) -> (r: &ParamMap)
        ensures
            r == &self.params,
    {
        &self.params
    }

    /// The captured path parameters, for filling in at dispatch time.
    pub fn params_mut(&mut self) -> (r: &mut ParamMap)
        ensures
            *r == old(self).params,
            *final(r) == final(self).params,
            final(self).method == old(self).method,
            final(self).path == old(self).path,
            final(self).query == old(self).query,
            final(self).headers == old(self).headers,
            final(self).version == old(self).version,
            final(self).data == old(self).data,
    {
        &mut self.params
    }

    /// Parses one complete request from the bytes read off a connection.
    /// The bytes after the blank line become the payload.
    pub fn from_bytes(buffer: &[u8]) -> (r: Result<(HttpRequest, HttpPayload), ServerError>)
        ensures
            r is Ok <==> req_wf(buffer@),
            match r {
                Ok(pair) => {
                    &&& Some(pair.0.method) == req_method(buffer@)
                    &&& pair.0.path@ == chars_of_bytes(req_path_bytes(buffer@))
                    &&& (match (pair.0.query, req_query_bytes(buffer@)) {
                        (Some(q), Some(qb)) => q@ == chars_of_bytes(qb),
                        (None, None) => true,
                        _ => false,
                    })
                    &&& Some(pair.0.version) == req_version(buffer@)
                    &&& pair.0.headers@ == req_headers_view(buffer@)
                    &&& pair.0.headers.wf()
                    &&& pair.0.params@ == Map::<Seq<char>, Seq<char>>::empty()
                    &&& pair.0.data@ == Map::<u64, u64>::empty()
                    &&& pair.1@ == req_payload(buffer@)
                },
                Err(e) => e == req_error_of(buffer@),
            },
    {
        let he = match find_headers_end(buffer) {
            None => {
                return Err(ServerError::PartialParsed);
            },
            Some(i) => i,
        };
        proof {
            crate::wire::lemma_headers_end(buffer@);
            assert(crate::wire::crlf2_at(buffer@, he as int));
        }
        let blen = buffer.len();
        let head = slice_subrange(buffer, 0, he);
        let mut body = slice_to_vec(slice_subrange(buffer, he + 4, blen));
        proof {
            assert(head@ =~= head_of(buffer@));
            assert(body@ =~= body_of(buffer@));
        }
        let cl = crate::connection::content_length_of(buffer);
        if cl < body.len() {
            body.truncate(cl);
        }
        proof {
            assert(body@ == req_payload(buffer@));
        }
        let lines = head_lines(head);
        proof {
            assert(split_lines(head@).len() >= 1) by {
                match crate::wire::first_crlf(head@) {
                    Some(i) => {},
                    None => {},
                }
            }
        }
        let line0 = &lines[0];
        let ghost rline = req_line(buffer@);
        proof {
            assert(line0@ == rline);
        }
        // Split the request line into its three tokens.
        let sp1 = match find_byte_in(line0, 32) {
            None => {
                return Err(ServerError::UriEmpty);
            },
            Some(i) => i,
        };
        proof {
            lemma_find_byte(line0@, 32);
        }
        let m_tok = slice_to_vec(slice_subrange(line0.as_slice(), 0, sp1));
        let rest = slice_to_vec(slice_subrange(line0.as_slice(), sp1 + 1, line0.len()));
        proof {
            assert(m_tok@ =~= rl_method_tok(buffer@));
            assert(rest@ =~= rl_rest(buffer@));
        }
        let sp2 = match find_byte_in(&rest, 32) {
            None => {
                return Err(ServerError::VersionEmpty);
            },
            Some(i) => i,
        };
        proof {
            lemma_find_byte(rest@, 32);
        }
        let p_tok = slice_to_vec(slice_subrange(rest.as_slice(), 0, sp2));
        let v_tok = slice_to_vec(slice_subrange(rest.as_slice(), sp2 + 1, rest.len()));
        proof {
            assert(p_tok@ =~= rl_path_tok(buffer@));
            assert(v_tok@ =~= rl_version_tok(buffer@));
        }
        let method = match parse_method(&m_tok) {
            None => {
                return Err(ServerError::ParseError);
            },
            Some(m) => m,
        };
        if p_tok.len() == 0 {
            return Err(ServerError::UriEmpty);
        }
        if !check_path_bytes(&p_tok) {
            return Err(ServerError::InvalidEncoding);
        }
        let version = match parse_version(&v_tok) {
            None => {
                return Err(ServerError::ParseError);
            },
            Some(v) => v,
        };
        // Split path and query at the first question mark.
        let (path, query) = match find_byte_in(&p_tok, 63) {
            Some(qi) => {
                proof {
                    lemma_find_byte(p_tok@, 63);
                }
                let pb = slice_to_vec(slice_subrange(p_tok.as_slice(), 0, qi));
                let qb = slice_to_vec(slice_subrange(p_tok.as_slice(), qi + 1, p_tok.len()));
                proof {
                    assert(pb@ =~= req_path_bytes(buffer@));
                    assert(Some(qb@) =~= req_query_bytes(buffer@));
                    assert(ascii_bytes(pb@));
                    assert(ascii_bytes(qb@));
                }
                (string_from_ascii(&pb), Some(string_from_ascii(&qb)))
            },
            None => {
                proof {
                    assert(p_tok@ =~= req_path_bytes(buffer@));
                    assert(ascii_bytes(p_tok@));
                }
                (string_from_ascii(&p_tok), None)
            },
        };
        // Parse the header lines.
        let mut items: Vec<(String, String)> = Vec::new();
        let mut i: usize = 1;
        while i < lines.len()
            invariant
                1 <= i <= lines@.len(),
                req_complete(buffer@),
                rl_sp1(buffer@) is Some,
                rl_sp2(buffer@) is Some,
                req_method(buffer@) is Some,
                rl_path_tok(buffer@).len() > 0,
                req_path_ok(buffer@),
                req_version(buffer@) is Some,
                lines@.len() == lines_of(buffer@).len(),
                forall|j: int|
                    0 <= j < lines@.len() ==> (#[trigger] lines@[j])@ == lines_of(buffer@)[j],
                items@.len() == i - 1,
                forall|j: int|
                    1 <= j < i ==> header_line_ok(#[trigger] lines_of(buffer@)[j]),
                forall|j: int|
                    0 <= j < i - 1 ==> ((#[trigger] items@[j]).0@ == chars_of_bytes(
                        header_name_bytes(lines_of(buffer@)[j + 1]),
                    ) && items@[j].1@ == chars_of_bytes(
                        header_value_bytes(lines_of(buffer@)[j + 1]),
                    ) && header_name_wf(items@[j].0@) && lower_ascii(items@[j].0@) == items@[j].0@
                        && header_value_wf(items@[j].1@)),
            decreases lines@.len() - i,
        {
            match parse_header_line(&lines[i]) {
                None => {
                    proof {
                        assert(!header_line_ok(lines_of(buffer@)[i as int]));
                        assert(!req_headers_ok(buffer@));
                    }
                    return Err(ServerError::ParseError);
                },
                Some(pair) => {
                    items.push(pair);
                },
            }
            i = i + 1;
        }
        let headers = Headers { items };
        let req = HttpRequest {
            method,
            path,
            query,
            headers,
            version,
            params: ParamMap::new(),
            data: State::new(),
        };
        proof {
            assert(req.headers@ =~= req_headers_view(buffer@));
            assert(req.headers.wf()) by {
                assert forall|j: int| 0 <= j < req.headers@.len() implies (header_name_wf(
                    (#[trigger] req.headers@[j]).0,
                ) && lower_ascii(req.headers@[j].0) == req.headers@[j].0 && header_value_wf(
                    req.headers@[j].1,
                )) by {
                    assert(req.headers@[j] == (req.headers.items@[j].0@, req.headers.items@[j].1@));
                }
            }
        }
        Ok((req, HttpPayload { body }))
    }
}

/// Finds the first occurrence of a byte in a vector.
pub fn find_byte_in(v: &Vec<u8>, b: u8) -> (r: Option<usize>)
    ensures
        match r {
            Some(i) => find_byte(v@, b) == Some(i as int),
            None => find_byte(v@, b) is None,
        },
{
    proof {
        lemma_find_byte(v@, b);
    }
    let mut i: usize = 0;
    while i < v.len()
        invariant
            i <= v@.len(),
            forall|j: int| 0 <= j < i ==> v@[j] != b,
        decreases v@.len() - i,
    {
        if v[i] == b {
            proof {
                lemma_find_byte(v@, b);
                match find_byte(v@, b) {
                    Some(k) => {
                        if k < i {
                            assert(v@[k] != b);
                        }
                        if k > i {
                            assert(v@[i as int] != b);
                        }
                    },
                    None => {
                        assert(v@[i as int] != b);
                    },
                }
            }
            return Some(i);
        }
        i = i + 1;
    }
    proof {
        lemma_find_byte(v@, b);
        match find_byte(v@, b) {
            Some(k) => {
                assert(v@[k] != b);
            },
            None => {},
        }
    }
    None
}

/// True when every byte may stand in a path.
fn check_path_bytes(v: &Vec<u8>) -> (r: bool)
    ensures
        r == (forall|j: int| 0 <= j < v@.len() ==> path_byte_ok(#[trigger] v@[j])),
{
    let mut i: usize = 0;
    while i < v.len()
        invariant
            i <= v@.len(),
            forall|j: int| 0 <= j < i ==> path_byte_ok(#[trigger] v@[j]),
        decreases v@.len() - i,
    {
        if v[i] < 33 || v[i] > 126 {
            return false;
        }
        i = i + 1;
    }
    true
}

/// Parses one header line into its lower-cased name and its value.
pub(crate) fn parse_header_line(line: &Vec<u8>) -> (r: Option<(String, String)>)
    ensures
        match r {
            Some(pair) => {
                &&& header_line_ok(line@)
                &&& pair.0@ == chars_of_bytes(header_name_bytes(line@))
                &&& pair.1@ == chars_of_bytes(header_value_bytes(line@))
                &&& header_name_wf(pair.0@)
                &&& lower_ascii(pair.0@) == pair.0@
                &&& header_value_wf(pair.1@)
            },
            None => !header_line_ok(line@),
        },
{
    let c = match find_byte_in(line, 58) {
        None => {
            return None;
        },
        Some(i) => i,
    };
    proof {
        lemma_find_byte(line@, 58);
    }
    let n = line.len();
    if c == 0 {
        return None;
    }
    // Check the name bytes.
    let mut i: usize = 0;
    while i < c
        invariant
            i <= c < n,
            n == line@.len(),
            find_byte(line@, 58) == Some(c as int),
            forall|j: int| 0 <= j < i ==> name_byte_ok(#[trigger] line@[j]),
        decreases c - i,
    {
        if line[i] < 33 || line[i] > 126 || line[i] == 58 {
            proof {
                assert(!name_byte_ok(line@[i as int]));
            }
            return None;
        }
        i = i + 1;
    }
    // Check the value bytes.
    let mut k: usize = c + 1;
    while k < n
        invariant
            c < k <= n,
            n == line@.len(),
            find_byte(line@, 58) == Some(c as int),
            forall|j: int| c < j < k ==> value_byte_ok(#[trigger] line@[j]),
        decreases n - k,
    {
        if !(line[k] == 9 || (32 <= line[k] && line[k] <= 126)) {
            proof {
                assert(!value_byte_ok(line@[k as int]));
            }
            return None;
        }
        k = k + 1;
    }
    let name_raw = slice_to_vec(slice_subrange(line.as_slice(), 0, c));
    let name_low = lower_bytes_of(&name_raw);
    let vstart = skip_spaces(line, c + 1);
    let value_raw = slice_to_vec(slice_subrange(line.as_slice(), vstart, line.len()));
    proof {
        assert(name_raw@ =~= line@.subrange(0, c as int));
        assert(name_low@ == header_name_bytes(line@));
        assert(line@.skip(c + 1).skip(vstart - (c + 1)) =~= line@.skip(vstart as int));
        assert(value_raw@ =~= line@.skip(vstart as int));
        assert(strip_spaces(line@.skip(c + 1)) == line@.skip(vstart as int));
        assert(value_raw@ == header_value_bytes(line@));
        assert forall|j: int| 0 <= j < name_low@.len() implies (name_byte_ok(
            #[trigger] name_low@[j],
        ) && lower_byte(name_low@[j]) == name_low@[j]) by {
            assert(name_low@[j] == lower_byte(name_raw@[j]));
            assert(name_byte_ok(line@[j]));
        }
        assert forall|j: int| 0 <= j < value_raw@.len() implies value_byte_ok(
            #[trigger] value_raw@[j],
        ) by {
            assert(value_raw@[j] == line@[vstart + j]);
            assert(value_byte_ok(line@[vstart + j]));
        }
    }
    let name = string_from_ascii(&name_low);
    let value = string_from_ascii(&value_raw);
    proof {
        lemma_header_text_wf(name_low@, value_raw@);
        assert(name@ == chars_of_bytes(header_name_bytes(line@)));
        assert(value@ == chars_of_bytes(header_value_bytes(line@)));
    }
    Some((name, value))
}

/// Bytes that are legal, lower-cased header-name bytes and legal value
/// bytes read as legal, lower-cased header text.
pub proof fn lemma_header_text_wf(name: Seq<u8>, value: Seq<u8>)
    requires
        name.len() > 0,
        forall|j: int|
            0 <= j < name.len() ==> (name_byte_ok(#[trigger] name[j]) && lower_byte(name[j])
                == name[j]),
        forall|j: int| 0 <= j < value.len() ==> value_byte_ok(#[trigger] value[j]),
        value.len() > 0 ==> value[0] != 32,
    ensures
        header_name_wf(chars_of_bytes(name)),
        lower_ascii(chars_of_bytes(name)) == chars_of_bytes(name),
        header_value_wf(chars_of_bytes(value)),
{
    let nc = chars_of_bytes(name);
    let vc = chars_of_bytes(value);
    assert forall|i: int| 0 <= i < nc.len() implies (33 <= ((#[trigger] nc[i]) as u32) <= 126
        && nc[i] != ':') by {
        lemma_ascii_byte_round(name[i]);
        assert(name[i] != 58);
    }
    assert forall|i: int| 0 <= i < vc.len() implies (((#[trigger] vc[i]) as u32) == 9 || 32 <= (
    vc[i] as u32) <= 126) by {
        lemma_ascii_byte_round(value[i]);
    }
    if vc.len() > 0 {
        lemma_ascii_byte_round(value[0]);
        assert(vc[0] != ' ');
    }
    crate::headers::lemma_header_text_ascii(nc);
    crate::text::lemma_lower_ascii_pointwise(nc);
    assert forall|i: int| 0 <= i < nc.len() implies #[trigger] lower_ascii(nc)[i] == nc[i] by {
        lemma_ascii_byte_round(name[i]);
        assert(lower_ascii(nc)[i] == (lower_byte(nc[i] as u8) as char));
        assert(nc[i] as u8 == name[i]);
    }
    assert(lower_ascii(nc) =~= nc);
}

} // verus!
