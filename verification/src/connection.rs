//! The per-connection read state machine and the response send path.
//!
//! Reading accumulates chunks until the head terminator has arrived and
//! at least as many body bytes as the `Content-Length` header declares
//! (zero if absent).  A zero-length read before that point means the
//! peer closed early, which is fatal.  Sending stamps `Content-Length`
//! and `Connection: close` on the response and writes it to bytes.

use vstd::prelude::*;

use crate::errors::ServerError;
use crate::headers::{header_name_wf, header_value_wf, strip_key};
use crate::request::lines_of;
use crate::response::{ser_response, HttpResponse};
use crate::text::{chars_of_bytes, lower_ascii, lower_bytes, lower_bytes_of, string_from_ascii};
use crate::wire::{find_byte, find_headers_end, lemma_find_byte, spec_headers_end, strip_spaces};

verus! {

broadcast use vstd::utf8::char_u32_cast;

/// A decimal digit byte.
pub open spec fn digit_byte(b: u8) -> bool {
    48 <= b <= 57
}

/// Every byte is a decimal digit.
pub open spec fn all_digits(s: Seq<u8>) -> bool {
    forall|i: int| 0 <= i < s.len() ==> digit_byte(#[trigger] s[i])
}

/// The number decimal digit bytes spell.
pub open spec fn dec_val(s: Seq<u8>) -> int
    decreases s.len(),
{
    if s.len() == 0 {
        0
    } else {
        dec_val(s.drop_last()) * 10 + (s.last() - 48)
    }
}

/// Digits spell a number that is not negative.
proof fn lemma_dec_nonneg(s: Seq<u8>)
    requires
        all_digits(s),
    ensures
        dec_val(s) >= 0,
    decreases s.len(),
{
    if s.len() > 0 {
        assert(all_digits(s.drop_last())) by {
            assert forall|j: int| 0 <= j < s.drop_last().len() implies digit_byte(
                #[trigger] s.drop_last()[j],
            ) by {
                assert(s.drop_last()[j] == s[j]);
            }
        }
        lemma_dec_nonneg(s.drop_last());
        assert((s[s.len() - 1]) >= 48);
    }
}

/// A digit text spells at least as much as any of its prefixes.
proof fn lemma_dec_grows(s: Seq<u8>, k: int)
    requires
        0 <= k <= s.len(),
        all_digits(s),
    ensures
        dec_val(s) >= dec_val(s.subrange(0, k)),
    decreases s.len() - k,
{
    if k == s.len() {
        assert(s.subrange(0, k) =~= s);
    } else {
        lemma_dec_grows(s, k + 1);
        assert(s.subrange(0, k + 1).drop_last() =~= s.subrange(0, k));
        assert(s.subrange(0, k + 1).last() == s[k]);
        assert(all_digits(s.subrange(0, k))) by {
            assert forall|j: int| 0 <= j < k implies digit_byte(
                #[trigger] s.subrange(0, k)[j],
            ) by {
                assert(s.subrange(0, k)[j] == s[j]);
            }
        }
        lemma_dec_nonneg(s.subrange(0, k));
        assert(s[k] >= 48);
    }
}

/// The text with its trailing spaces dropped.
pub open spec fn strip_spaces_end(s: Seq<u8>) -> Seq<u8>
    decreases s.len(),
{
    if s.len() > 0 && s.last() == 32 {
        strip_spaces_end(s.drop_last())
    } else {
        s
    }
}

/// The lower-cased name `content-length`.
pub open spec fn cl_name() -> Seq<u8> {
    seq![99u8, 111, 110, 116, 101, 110, 116, 45, 108, 101, 110, 103, 116, 104]
}

/// The line names the content length, whatever its case.
pub open spec fn is_cl_line(line: Seq<u8>) -> bool {
    match find_byte(line, 58) {
        Some(c) => lower_bytes(line.subrange(0, c)) == cl_name(),
        None => false,
    }
}

/// The count such a line declares: the text between the first colon and
/// the next colon or the line end, trimmed of spaces; anything that is
/// not a plain number that fits counts as zero.
pub open spec fn cl_value(line: Seq<u8>) -> int {
    let after = line.skip(find_byte(line, 58)->Some_0 + 1);
    let seg = match find_byte(after, 58) {
        Some(d) => after.subrange(0, d),
        None => after,
    };
    let t = strip_spaces_end(strip_spaces(seg));
    if t.len() > 0 && all_digits(t) && dec_val(t) <= usize::MAX {
        dec_val(t)
    } else {
        0
    }
}

/// The declared content length after folding the lines from `i` on over
/// the count so far; a later declaration wins.
pub open spec fn cl_from(lines: Seq<Seq<u8>>, i: int, acc: int) -> int
    decreases lines.len() - i,
{
    if i < 0 || i >= lines.len() {
        acc
    } else {
        cl_from(
            lines,
            i + 1,
            if is_cl_line(lines[i]) {
                cl_value(lines[i])
            } else {
                acc
            },
        )
    }
}

/// The content length the head declares; zero when no line declares one.
pub open spec fn spec_content_length(s: Seq<u8>) -> int {
    cl_from(lines_of(s), 0, 0)
}

/// A full request has arrived: the head terminator is there and at
/// least as many body bytes as the head declares follow it.
pub open spec fn request_ready(s: Seq<u8>) -> bool {
    match spec_headers_end(s) {
        Some(he) => s.len() >= he + 4 + spec_content_length(s),
        None => false,
    }
}

/// The buffer a connection reads its request into, chunk by chunk.
#[derive(Debug, Clone)]
pub struct RequestReader {
    /// Everything read so far.
    pub buffer: Vec<u8>,
}

impl View for RequestReader {
    type V = Seq<u8>;

    open spec fn view(&self) -> Seq<u8> {
        self.buffer@
    }
}

impl RequestReader {
    /// A reader that has seen nothing yet.
    pub fn new() -> (r: RequestReader)
        ensures
            r@ == Seq::<u8>::empty(),
    {
        RequestReader { buffer: Vec::new() }
    }

    /// Takes the bytes read so far, leaving the reader empty.
    pub fn into_buffer(self) -> (r: Vec<u8>)
        ensures
            r@ == self@,
    {
        self.buffer
    }

    /// Feeds the bytes of one read.  An empty chunk means the peer
    /// closed; before a full request has arrived that is fatal.
    /// `Ok(true)` says a full request is in the buffer; `Ok(false)`
    /// says more reads are needed.
    pub fn feed(&mut self, chunk: &[u8]) -> (r: Result<bool, ServerError>)
        ensures
            chunk@.len() == 0 ==> r == Err::<bool, ServerError>(ServerError::ConnectionClosed)
                && final(self)@ == old(self)@,
            chunk@.len() > 0 ==> final(self)@ == old(self)@ + chunk@ && r == Ok::<
                bool,
                ServerError,
            >(request_ready(old(self)@ + chunk@)),
    {
        if chunk.len() == 0 {
            return Err(ServerError::ConnectionClosed);
        }
        self.buffer.extend_from_slice(chunk);
        Ok(buffer_ready(&self.buffer))
    }
}

/// True when the buffer holds a full request.
pub fn buffer_ready(buffer: &Vec<u8>) -> (r: bool)
    ensures
        r == request_ready(buffer@),
{
    let he = match find_headers_end(buffer.as_slice()) {
        None => {
            return false;
        },
        Some(i) => i,
    };
    proof {
        crate::wire::lemma_headers_end(buffer@);
        assert(crate::wire::crlf2_at(buffer@, he as int));
    }
    let cl = content_length_of(buffer.as_slice());
    let have = buffer.len() - (he + 4);
    have >= cl
}

/// Reads the declared content length out of a buffer whose head has
/// arrived.
pub fn content_length_of(buffer: &[u8]) -> (r: usize)
    requires
        spec_headers_end(buffer@) is Some,
    ensures
        r == spec_content_length(buffer@),
{
    proof {
        crate::wire::lemma_headers_end(buffer@);
        assert(crate::wire::crlf2_at(buffer@, spec_headers_end(buffer@)->Some_0));
    }
    let he = match find_headers_end(buffer) {
        None => {
            proof {
                assert(false);
            }
            0
        },
        Some(i) => i,
    };
    let head = vstd::slice::slice_subrange(buffer, 0, he);
    proof {
        assert(head@ =~= crate::request::head_of(buffer@));
    }
    let lines = crate::wire::head_lines(head);
    let mut acc: usize = 0;
    let mut i: usize = 0;
    while i < lines.len()
        invariant
            i <= lines@.len(),
            lines@.len() == lines_of(buffer@).len(),
            forall|j: int|
                0 <= j < lines@.len() ==> (#[trigger] lines@[j])@ == lines_of(buffer@)[j],
            cl_from(lines_of(buffer@), i as int, acc as int) == spec_content_length(buffer@),
        decreases lines@.len() - i,
    {
        match cl_line_value(&lines[i]) {
            Some(v) => {
                acc = v;
            },
            None => {},
        }
        i = i + 1;
    }
    acc
}

/// The count one line declares, or nothing when the line does not name
/// the content length.  A named count that is no plain number reads as
/// zero, as the fold expects.
fn cl_line_value(line: &Vec<u8>) -> (r: Option<usize>)
    ensures
        match r {
            Some(v) => is_cl_line(line@) && v == cl_value(line@),
            None => !is_cl_line(line@),
        },
{
    let c = match crate::request::find_byte_in(line, 58) {
        None => {
            return None;
        },
        Some(i) => i,
    };
    proof {
        lemma_find_byte(line@, 58);
    }
    let name_raw = vstd::slice::slice_to_vec(vstd::slice::slice_subrange(line.as_slice(), 0, c));
    let name_low = lower_bytes_of(&name_raw);
    proof {
        assert(name_raw@ =~= line@.subrange(0, c as int));
    }
    if !is_cl_name(&name_low) {
        return None;
    }
    let n = line.len();
    let after = vstd::slice::slice_to_vec(
        vstd::slice::slice_subrange(line.as_slice(), c + 1, n),
    );
    proof {
        assert(after@ =~= line@.skip(c + 1));
    }
    let seg = match crate::request::find_byte_in(&after, 58) {
        Some(d) => {
            proof {
                lemma_find_byte(after@, 58);
            }
            vstd::slice::slice_to_vec(vstd::slice::slice_subrange(after.as_slice(), 0, d))
        },
        None => after,
    };
    let start = crate::wire::skip_spaces(&seg, 0);
    let end = skip_spaces_end(&seg, start);
    let t = vstd::slice::slice_to_vec(vstd::slice::slice_subrange(seg.as_slice(), start, end));
    proof {
        assert(seg@.skip(0) =~= seg@);
        assert(t@ =~= seg@.subrange(start as int, end as int));
        assert(t@ == strip_spaces_end(strip_spaces(seg@)));
    }
    match parse_dec(&t) {
        Some(v) => Some(v),
        None => Some(0),
    }
}

/// True when the bytes are exactly the lower-cased name
/// `content-length`.
fn is_cl_name(v: &Vec<u8>) -> (r: bool)
    ensures
        r == (v@ == cl_name()),
{
    let mut pat: Vec<u8> = Vec::new();
    pat.push(99);
    pat.push(111);
    pat.push(110);
    pat.push(116);
    pat.push(101);
    pat.push(110);
    pat.push(116);
    pat.push(45);
    pat.push(108);
    pat.push(101);
    pat.push(110);
    pat.push(103);
    pat.push(116);
    pat.push(104);
    proof {
        assert(pat@ =~= cl_name());
    }
    crate::text::bytes_eq(v.as_slice(), &pat)
}

/// Where the trailing spaces of the tail from `from` on begin.
pub fn skip_spaces_end(v: &Vec<u8>, from: usize) -> (r: usize)
    requires
        from <= v@.len(),
    ensures
        from <= r <= v@.len(),
        strip_spaces_end(v@.skip(from as int)) == v@.subrange(from as int, r as int),
{
    let mut end = v.len();
    while end > from
        invariant
            from <= end <= v@.len(),
            strip_spaces_end(v@.skip(from as int)) == strip_spaces_end(
                v@.subrange(from as int, end as int),
            ),
        decreases end,
    {
        if v[end - 1] == 32 {
            proof {
                let cur = v@.subrange(from as int, end as int);
                assert(cur.last() == v@[end - 1]);
                assert(cur.drop_last() =~= v@.subrange(from as int, end - 1));
            }
            end = end - 1;
        } else {
            proof {
                let cur = v@.subrange(from as int, end as int);
                assert(cur.last() == v@[end - 1]);
            }
            return end;
        }
    }
    proof {
        assert(v@.subrange(from as int, from as int) =~= Seq::<u8>::empty());
    }
    from
}

/// Reads decimal digits as a number; anything else, an empty text or a
/// number that does not fit is refused.
pub fn parse_dec(v: &Vec<u8>) -> (r: Option<usize>)
    ensures
        match r {
            Some(n) => v@.len() > 0 && all_digits(v@) && dec_val(v@) <= usize::MAX && n == dec_val(
                v@,
            ),
            None => !(v@.len() > 0 && all_digits(v@) && dec_val(v@) <= usize::MAX),
        },
{
    if v.len() == 0 {
        return None;
    }
    let mut acc: usize = 0;
    let mut i: usize = 0;
    while i < v.len()
        invariant
            i <= v@.len(),
            all_digits(v@.subrange(0, i as int)),
            acc == dec_val(v@.subrange(0, i as int)),
        decreases v@.len() - i,
    {
        let b = v[i];
        if b < 48 || b > 57 {
            proof {
                assert(!digit_byte(v@[i as int]));
                assert(!all_digits(v@));
            }
            return None;
        }
        let d = (b - 48) as usize;
        if acc > (usize::MAX - d) / 10 {
            proof {
                assert(v@.subrange(0, i + 1).drop_last() =~= v@.subrange(0, i as int));
                assert(v@.subrange(0, i + 1).last() == v@[i as int]);
                assert(dec_val(v@.subrange(0, i + 1)) == acc * 10 + d);
                assert(acc * 10 + d > usize::MAX) by (nonlinear_arith)
                    requires
                        acc > (usize::MAX - d) / 10,
                        d <= 9,
                ;
                if all_digits(v@) {
                    lemma_dec_grows(v@, i + 1);
                }
            }
            return None;
        }
        proof {
            assert(acc * 10 + d <= usize::MAX) by (nonlinear_arith)
                requires
                    acc <= (usize::MAX - d) / 10,
                    d <= 9,
            ;
            assert(v@.subrange(0, i + 1).drop_last() =~= v@.subrange(0, i as int));
            assert(v@.subrange(0, i + 1).last() == v@[i as int]);
            assert(all_digits(v@.subrange(0, i + 1))) by {
                assert forall|j: int| 0 <= j < i + 1 implies digit_byte(
                    #[trigger] v@.subrange(0, i + 1)[j],
                ) by {
                    if j < i {
                        assert(v@.subrange(0, i + 1)[j] == v@.subrange(0, i as int)[j]);
                    }
                }
            }
        }
        acc = acc * 10 + d;
        i = i + 1;
    }
    proof {
        assert(v@.subrange(0, v@.len() as int) =~= v@);
    }
    Some(acc)
}


/// The decimal digits of a count.
pub open spec fn dec_digits(n: int) -> Seq<u8>
    decreases n,
{
    if n < 10 {
        seq![(48 + n) as u8]
    } else {
        dec_digits(n / 10) + seq![(48 + n % 10) as u8]
    }
}

/// The digits of a count are digits, and there is at least one.
proof fn lemma_dec_digits_range(n: int)
    requires
        n >= 0,
    ensures
        dec_digits(n).len() > 0,
        forall|i: int| 0 <= i < dec_digits(n).len() ==> digit_byte(#[trigger] dec_digits(n)[i]),
    decreases n,
{
    if n >= 10 {
        lemma_dec_digits_range(n / 10);
        assert forall|i: int| 0 <= i < dec_digits(n).len() implies digit_byte(
            #[trigger] dec_digits(n)[i],
        ) by {
            if i < dec_digits(n / 10).len() {
                assert(dec_digits(n)[i] == dec_digits(n / 10)[i]);
            }
        }
    }
}

/// Writes a count in decimal.
pub fn dec_bytes(n: usize) -> (r: Vec<u8>)
    ensures
        r@ == dec_digits(n as int),
    decreases n,
{
    if n < 10 {
        let mut r: Vec<u8> = Vec::new();
        r.push(48 + (n as u8));
        proof {
            assert(r@ =~= dec_digits(n as int));
        }
        r
    } else {
        let mut r = dec_bytes(n / 10);
        r.push(48 + ((n % 10) as u8));
        proof {
            assert(r@ =~= dec_digits(n as int));
        }
        r
    }
}

/// The lower-cased key the content length is stored under.
pub open spec fn cl_key() -> Seq<char> {
    lower_ascii("Content-Length"@)
}

/// The lower-cased key the connection directive is stored under.
pub open spec fn conn_key() -> Seq<char> {
    lower_ascii("Connection"@)
}

/// The headers a response is sent with: its own, with the content
/// length of its body and `Connection: close` stamped on.
pub open spec fn final_headers(hs: Seq<(Seq<char>, Seq<char>)>, n: int) -> Seq<
    (Seq<char>, Seq<char>),
> {
    strip_key(
        strip_key(hs, cl_key()).push((cl_key(), chars_of_bytes(dec_digits(n)))),
        conn_key(),
    ).push((conn_key(), "close"@))
}

/// Stamps `Content-Length` and `Connection: close` on a response and
/// writes it to wire bytes.
pub fn finalize_response(response: HttpResponse) -> (r: Vec<u8>)
    requires
        response.wf(),
    ensures
        r@ == ser_response(
            response.status_code,
            response.version,
            final_headers(response.headers@, response.body@.len() as int),
            response.body@,
        ),
{
    let mut response = response;
    let n = response.body.len();
    let digits = dec_bytes(n);
    proof {
        lemma_dec_digits_range(n as int);
        assert(crate::text::ascii_bytes(digits@));
    }
    let value = string_from_ascii(&digits);
    proof {
        reveal_strlit("Content-Length");
        assert(header_name_wf("Content-Length"@));
        assert(header_value_wf(value@)) by {
            assert forall|i: int| 0 <= i < value@.len() implies (((#[trigger] value@[i]) as u32)
                == 9 || 32 <= (value@[i] as u32) <= 126) by {
                crate::text::lemma_ascii_byte_round(digits@[i]);
            }
            if value@.len() > 0 {
                crate::text::lemma_ascii_byte_round(digits@[0]);
                assert((value@[0] as u32) != 32) by {
                    crate::text::lemma_ascii_cast_round(' ');
                }
            }
        }
    }
    response.insert_header("Content-Length".to_owned(), value);
    proof {
        reveal_strlit("Connection");
        reveal_strlit("close");
        assert(header_name_wf("Connection"@));
        assert(header_value_wf("close"@));
    }
    response.insert_header("Connection".to_owned(), "close".to_owned());
    response.to_bytes()
}

} // verus!
