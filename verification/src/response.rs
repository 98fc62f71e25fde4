//! The response: its structured form, writing it to wire bytes, and
//! reading such bytes back.
//!
//! The wire form is a status line (version, three-digit code, reason),
//! header lines, a blank line, and the body.  Re-parsing what the
//! serializer wrote recovers the status, headers and body exactly; the
//! proof of that law closes this module.

use vstd::prelude::*;
use vstd::slice::{slice_subrange, slice_to_vec};

use crate::errors::{Error, ServerError};
use crate::headers::{header_name_wf, header_value_wf, lemma_header_text_ascii, Headers};
use crate::method::{parse_version, spec_version_of, version_bytes, version_token, Version};
use crate::request::{
    body_of, find_byte_in, header_line_ok, header_name_bytes, header_value_bytes, lines_of,
    name_byte_ok, parse_header_line, req_headers_ok, req_headers_view, value_byte_ok,
};
use crate::text::{
    ascii_bytes_of_str, ascii_chars, bytes_of_chars, chars_of_bytes, lemma_ascii_cast_round,
    lower_ascii, lower_bytes,
};
use crate::wire::{
    find_byte, find_headers_end, first_crlf, head_lines, lemma_find_byte, spec_headers_end,
    split_lines, strip_spaces,
};

verus! {

broadcast use vstd::utf8::char_u32_cast;

/// The canonical reason phrase written after a status code; codes the
/// registry does not name read as `Unknown`.
pub open spec fn reason_of(code: u16) -> Seq<u8> {
    if code == 100 {
        seq![67u8, 111, 110, 116, 105, 110, 117, 101]
    } else if code == 101 {
        seq![83u8, 119, 105, 116, 99, 104, 105, 110, 103, 32, 80, 114, 111, 116, 111, 99, 111, 108, 115]
    } else if code == 102 {
        seq![80u8, 114, 111, 99, 101, 115, 115, 105, 110, 103]
    } else if code == 103 {
        seq![69u8, 97, 114, 108, 121, 32, 72, 105, 110, 116, 115]
    } else if code == 200 {
        seq![79u8, 75]
    } else if code == 201 {
        seq![67u8, 114, 101, 97, 116, 101, 100]
    } else if code == 202 {
        seq![65u8, 99, 99, 101, 112, 116, 101, 100]
    } else if code == 203 {
        seq![78u8, 111, 110, 45, 65, 117, 116, 104, 111, 114, 105, 116, 97, 116, 105, 118, 101, 32, 73, 110, 102, 111, 114, 109, 97, 116, 105, 111, 110]
    } else if code == 204 {
        seq![78u8, 111, 32, 67, 111, 110, 116, 101, 110, 116]
    } else if code == 205 {
        seq![82u8, 101, 115, 101, 116, 32, 67, 111, 110, 116, 101, 110, 116]
    } else if code == 206 {
        seq![80u8, 97, 114, 116, 105, 97, 108, 32, 67, 111, 110, 116, 101, 110, 116]
    } else if code == 207 {
        seq![77u8, 117, 108, 116, 105, 45, 83, 116, 97, 116, 117, 115]
    } else if code == 208 {
        seq![65u8, 108, 114, 101, 97, 100, 121, 32, 82, 101, 112, 111, 114, 116, 101, 100]
    } else if code == 226 {
        seq![73u8, 77, 32, 85, 115, 101, 100]
    } else if code == 300 {
        seq![77u8, 117, 108, 116, 105, 112, 108, 101, 32, 67, 104, 111, 105, 99, 101, 115]
    } else if code == 301 {
        seq![77u8, 111, 118, 101, 100, 32, 80, 101, 114, 109, 97, 110, 101, 110, 116, 108, 121]
    } else if code == 302 {
        seq![70u8, 111, 117, 110, 100]
    } else if code == 303 {
        seq![83u8, 101, 101, 32, 79, 116, 104, 101, 114]
    } else if code == 304 {
        seq![78u8, 111, 116, 32, 77, 111, 100, 105, 102, 105, 101, 100]
    } else if code == 305 {
        seq![85u8, 115, 101, 32, 80, 114, 111, 120, 121]
    } else if code == 307 {
        seq![84u8, 101, 109, 112, 111, 114, 97, 114, 121, 32, 82, 101, 100, 105, 114, 101, 99, 116]
    } else if code == 308 {
        seq![80u8, 101, 114, 109, 97, 110, 101, 110, 116, 32, 82, 101, 100, 105, 114, 101, 99, 116]
    } else if code == 400 {
        seq![66u8, 97, 100, 32, 82, 101, 113, 117, 101, 115, 116]
    } else if code == 401 {
        seq![85u8, 110, 97, 117, 116, 104, 111, 114, 105, 122, 101, 100]
    } else if code == 402 {
        seq![80u8, 97, 121, 109, 101, 110, 116, 32, 82, 101, 113, 117, 105, 114, 101, 100]
    } else if code == 403 {
        seq![70u8, 111, 114, 98, 105, 100, 100, 101, 110]
    } else if code == 404 {
        seq![78u8, 111, 116, 32, 70, 111, 117, 110, 100]
    } else if code == 405 {
        seq![77u8, 101, 116, 104, 111, 100, 32, 78, 111, 116, 32, 65, 108, 108, 111, 119, 101, 100]
    } else if code == 406 {
        seq![78u8, 111, 116, 32, 65, 99, 99, 101, 112, 116, 97, 98, 108, 101]
    } else if code == 407 {
        seq![80u8, 114, 111, 120, 121, 32, 65, 117, 116, 104, 101, 110, 116, 105, 99, 97, 116, 105, 111, 110, 32, 82, 101, 113, 117, 105, 114, 101, 100]
    } else if code == 408 {
        seq![82u8, 101, 113, 117, 101, 115, 116, 32, 84, 105, 109, 101, 111, 117, 116]
    } else if code == 409 {
        seq![67u8, 111, 110, 102, 108, 105, 99, 116]
    } else if code == 410 {
        seq![71u8, 111, 110, 101]
    } else if code == 411 {
        seq![76u8, 101, 110, 103, 116, 104, 32, 82, 101, 113, 117, 105, 114, 101, 100]
    } else if code == 412 {
        seq![80u8, 114, 101, 99, 111, 110, 100, 105, 116, 105, 111, 110, 32, 70, 97, 105, 108, 101, 100]
    } else if code == 413 {
        seq![80u8, 97, 121, 108, 111, 97, 100, 32, 84, 111, 111, 32, 76, 97, 114, 103, 101]
    } else if code == 414 {
        seq![85u8, 82, 73, 32, 84, 111, 111, 32, 76, 111, 110, 103]
    } else if code == 415 {
        seq![85u8, 110, 115, 117, 112, 112, 111, 114, 116, 101, 100, 32, 77, 101, 100, 105, 97, 32, 84, 121, 112, 101]
    } else if code == 416 {
        seq![82u8, 97, 110, 103, 101, 32, 78, 111, 116, 32, 83, 97, 116, 105, 115, 102, 105, 97, 98, 108, 101]
    } else if code == 417 {
        seq![69u8, 120, 112, 101, 99, 116, 97, 116, 105, 111, 110, 32, 70, 97, 105, 108, 101, 100]
    } else if code == 418 {
        seq![73u8, 39, 109, 32, 97, 32, 116, 101, 97, 112, 111, 116]
    } else if code == 421 {
        seq![77u8, 105, 115, 100, 105, 114, 101, 99, 116, 101, 100, 32, 82, 101, 113, 117, 101, 115, 116]
    } else if code == 422 {
        seq![85u8, 110, 112, 114, 111, 99, 101, 115, 115, 97, 98, 108, 101, 32, 69, 110, 116, 105, 116, 121]
    } else if code == 423 {
        seq![76u8, 111, 99, 107, 101, 100]
    } else if code == 424 {
        seq![70u8, 97, 105, 108, 101, 100, 32, 68, 101, 112, 101, 110, 100, 101, 110, 99, 121]
    } else if code == 426 {
        seq![85u8, 112, 103, 114, 97, 100, 101, 32, 82, 101, 113, 117, 105, 114, 101, 100]
    } else if code == 428 {
        seq![80u8, 114, 101, 99, 111, 110, 100, 105, 116, 105, 111, 110, 32, 82, 101, 113, 117, 105, 114, 101, 100]
    } else if code == 429 {
        seq![84u8, 111, 111, 32, 77, 97, 110, 121, 32, 82, 101, 113, 117, 101, 115, 116, 115]
    } else if code == 431 {
        seq![82u8, 101, 113, 117, 101, 115, 116, 32, 72, 101, 97, 100, 101, 114, 32, 70, 105, 101, 108, 100, 115, 32, 84, 111, 111, 32, 76, 97, 114, 103, 101]
    } else if code == 451 {
        seq![85u8, 110, 97, 118, 97, 105, 108, 97, 98, 108, 101, 32, 70, 111, 114, 32, 76, 101, 103, 97, 108, 32, 82, 101, 97, 115, 111, 110, 115]
    } else if code == 500 {
        seq![73u8, 110, 116, 101, 114, 110, 97, 108, 32, 83, 101, 114, 118, 101, 114, 32, 69, 114, 114, 111, 114]
    } else if code == 501 {
        seq![78u8, 111, 116, 32, 73, 109, 112, 108, 101, 109, 101, 110, 116, 101, 100]
    } else if code == 502 {
        seq![66u8, 97, 100, 32, 71, 97, 116, 101, 119, 97, 121]
    } else if code == 503 {
        seq![83u8, 101, 114, 118, 105, 99, 101, 32, 85, 110, 97, 118, 97, 105, 108, 97, 98, 108, 101]
    } else if code == 504 {
        seq![71u8, 97, 116, 101, 119, 97, 121, 32, 84, 105, 109, 101, 111, 117, 116]
    } else if code == 505 {
        seq![72u8, 84, 84, 80, 32, 86, 101, 114, 115, 105, 111, 110, 32, 78, 111, 116, 32, 83, 117, 112, 112, 111, 114, 116, 101, 100]
    } else if code == 506 {
        seq![86u8, 97, 114, 105, 97, 110, 116, 32, 65, 108, 115, 111, 32, 78, 101, 103, 111, 116, 105, 97, 116, 101, 115]
    } else if code == 507 {
        seq![73u8, 110, 115, 117, 102, 102, 105, 99, 105, 101, 110, 116, 32, 83, 116, 111, 114, 97, 103, 101]
    } else if code == 508 {
        seq![76u8, 111, 111, 112, 32, 68, 101, 116, 101, 99, 116, 101, 100]
    } else if code == 510 {
        seq![78u8, 111, 116, 32, 69, 120, 116, 101, 110, 100, 101, 100]
    } else if code == 511 {
        seq![78u8, 101, 116, 119, 111, 114, 107, 32, 65, 117, 116, 104, 101, 110, 116, 105, 99, 97, 116, 105, 111, 110, 32, 82, 101, 113, 117, 105, 114, 101, 100]
    } else {
        seq![85u8, 110, 107, 110, 111, 119, 110]
    }
}

/// The three decimal digits of a status code below 1000.
pub open spec fn status_digits(code: u16) -> Seq<u8> {
    seq![
        (48 + (code / 100) % 10) as u8,
        (48 + (code / 10) % 10) as u8,
        (48 + code % 10) as u8,
    ]
}

/// The status line, without its line end.
pub open spec fn sl_content(code: u16, v: Version) -> Seq<u8> {
    version_token(v) + seq![32u8] + status_digits(code) + seq![32u8] + reason_of(code)
}

/// A header line, with its line end.
pub open spec fn hl_content(p: (Seq<char>, Seq<char>)) -> Seq<u8> {
    bytes_of_chars(p.0) + seq![58u8, 32] + bytes_of_chars(p.1) + seq![13u8, 10]
}

/// The header lines, each closed by a line end.
pub open spec fn ser_hlines(hs: Seq<(Seq<char>, Seq<char>)>) -> Seq<u8>
    decreases hs.len(),
{
    if hs.len() == 0 {
        Seq::empty()
    } else {
        hl_content(hs[0]) + ser_hlines(hs.skip(1))
    }
}

/// A whole response on the wire: status line, header lines, a blank
/// line, the body.
pub open spec fn ser_response(
    code: u16,
    v: Version,
    hs: Seq<(Seq<char>, Seq<char>)>,
    body: Seq<u8>,
) -> Seq<u8> {
    sl_content(code, v) + seq![13u8, 10] + ser_hlines(hs) + seq![13u8, 10] + body
}

/// A response under construction and the wire form it serializes to.
#[derive(Debug, Clone)]
pub struct HttpResponse {
    /// The raw body bytes.
    pub body: Vec<u8>,
    /// The status code, between 100 and 999.
    pub status_code: u16,
    /// The response headers.
    pub headers: Headers,
    /// The protocol version written on the status line.
    pub version: Version,
}

impl HttpResponse {
    /// The status code names a status class and the headers are legal.
    pub open spec fn wf(&self) -> bool {
        &&& 100 <= self.status_code < 1000
        &&& self.headers.wf()
    }

    /// The bytes `to_bytes` writes.
    pub open spec fn spec_to_bytes(&self) -> Seq<u8> {
        ser_response(self.status_code, self.version, self.headers@, self.body@)
    }

    /// Creates an empty response with the given status code.
    pub fn new(status_code: u16) -> (r: HttpResponse)
        requires
            100 <= status_code < 1000,
        ensures
            r.status_code == status_code,
            r.headers@ == Seq::<(Seq<char>, Seq<char>)>::empty(),
            r.body@ == Seq::<u8>::empty(),
            r.version == Version::Http11,
            r.wf(),
    {
        HttpResponse {
            body: Vec::new(),
            status_code,
            headers: Headers::new(),
            version: Version::Http11,
        }
    }

    /// Creates an empty success response.
    pub fn ok() -> (r: HttpResponse)
        ensures
            r.status_code == 200,
            r.headers@ == Seq::<(Seq<char>, Seq<char>)>::empty(),
            r.body@ == Seq::<u8>::empty(),
            r.version == Version::Http11,
            r.wf(),
    {
        HttpResponse::new(200)
    }

    /// The status code.
    pub fn status_code(&self) -> (r: u16)
        ensures
            r == self.status_code,
    {
        self.status_code
    }

    /// The headers.
    pub fn headers(&self) -> (r: &Headers)
        ensures
            r == &self.headers,
    {
        &self.headers
    }

    /// The headers, for changing.
    pub fn headers_mut(&mut self) -> (r: &mut Headers)
        ensures
            *r == old(self).headers,
            *final(r) == final(self).headers,
            final(self).body == old(self).body,
            final(self).status_code == old(self).status_code,
            final(self).version == old(self).version,
    {
        &mut self.headers
    }

    /// Replaces the body.
    pub fn set_body(self, body: Vec<u8>) -> (r: HttpResponse)
        ensures
            r.body@ == body@,
            r.status_code == self.status_code,
            r.headers == self.headers,
            r.version == self.version,
    {
        HttpResponse { body, ..self }
    }

    /// Replaces the body; reads as a chained builder call.
    pub fn body(self, body: Vec<u8>) -> (r: HttpResponse)
        ensures
            r.body@ == body@,
            r.status_code == self.status_code,
            r.headers == self.headers,
            r.version == self.version,
    {
        self.set_body(body)
    }

    /// Sets a header, dropping entries already stored under the name.
    pub fn insert_header(&mut self, name: String, value: String)
        requires
            old(self).headers.wf(),
            header_name_wf(name@),
            header_value_wf(value@),
        ensures
            final(self).headers.wf(),
            final(self).headers@ == crate::headers::strip_key(
                old(self).headers@,
                lower_ascii(name@),
            ).push((lower_ascii(name@), value@)),
            final(self).body == old(self).body,
            final(self).status_code == old(self).status_code,
            final(self).version == old(self).version,
    {
        self.headers.insert(name, value);
    }

    /// Writes the response to wire bytes.
    pub fn to_bytes(&self) -> (r: Vec<u8>)
        requires
            self.wf(),
        ensures
            r@ == self.spec_to_bytes(),
    {
        let mut out = version_bytes(self.version);
        out.push(32);
        let c = self.status_code;
        let d0: u16 = 48 + (c / 100) % 10;
        let d1: u16 = 48 + (c / 10) % 10;
        let d2: u16 = 48 + c % 10;
        out.push(d0 as u8);
        out.push(d1 as u8);
        out.push(d2 as u8);
        out.push(32);
        let mut reason = reason_bytes(c);
        out.append(&mut reason);
        proof {
            assert(out@ =~= sl_content(self.status_code, self.version));
        }
        out.push(13);
        out.push(10);
        let ghost hs = self.headers@;
        let ghost prefix = sl_content(self.status_code, self.version) + seq![13u8, 10];
        proof {
            assert(out@ =~= prefix);
            assert(hs.skip(0) =~= hs);
        }
        let mut i: usize = 0;
        while i < self.headers.items.len()
            invariant
                i <= self.headers.items@.len(),
                self.wf(),
                hs == self.headers@,
                prefix == sl_content(self.status_code, self.version) + seq![13u8, 10],
                out@ + ser_hlines(hs.skip(i as int)) == prefix + ser_hlines(hs),
            decreases self.headers.items@.len() - i,
        {
            let ghost out0 = out@;
            proof {
                assert(hs.skip(i as int)[0] == hs[i as int]);
                assert(hs.skip(i as int).skip(1) =~= hs.skip(i + 1));
                assert(hs[i as int] == (self.headers.items@[i as int].0@,
                self.headers.items@[i as int].1@));
                lemma_header_text_ascii(self.headers.items@[i as int].0@);
                lemma_header_text_ascii(self.headers.items@[i as int].1@);
            }
            let mut nb = ascii_bytes_of_str(self.headers.items[i].0.as_str());
            out.append(&mut nb);
            out.push(58);
            out.push(32);
            let mut vb = ascii_bytes_of_str(self.headers.items[i].1.as_str());
            out.append(&mut vb);
            out.push(13);
            out.push(10);
            proof {
                assert(out@ =~= out0 + hl_content(hs[i as int]));
                assert(out0 + (hl_content(hs[i as int]) + ser_hlines(hs.skip(i + 1))) =~= out@
                    + ser_hlines(hs.skip(i + 1)));
            }
            i = i + 1;
        }
        proof {
            assert(hs.skip(i as int) =~= Seq::<(Seq<char>, Seq<char>)>::empty());
            assert(out@ + ser_hlines(hs.skip(i as int)) =~= out@);
        }
        out.push(13);
        out.push(10);
        out.extend_from_slice(self.body.as_slice());
        proof {
            assert(out@ =~= self.spec_to_bytes());
        }
        out
    }
}

/// Writes the reason phrase of a status code.
#[verifier::rlimit(50)]
fn reason_bytes(code: u16) -> (r: Vec<u8>)
    ensures
        r@ == reason_of(code),
{
    if code == 100 {
        proof {
            reveal_strlit("Continue");
            assert(ascii_chars("Continue"@));
            assert(bytes_of_chars("Continue"@) =~= reason_of(code));
        }
        return ascii_bytes_of_str("Continue");
    }
    if code == 101 {
        proof {
            reveal_strlit("Switching Protocols");
            assert(ascii_chars("Switching Protocols"@));
            assert(bytes_of_chars("Switching Protocols"@) =~= reason_of(code));
        }
        return ascii_bytes_of_str("Switching Protocols");
    }
    if code == 102 {
        proof {
            reveal_strlit("Processing");
            assert(ascii_chars("Processing"@));
            assert(bytes_of_chars("Processing"@) =~= reason_of(code));
        }
        return ascii_bytes_of_str("Processing");
    }
    if code == 103 {
        proof {
            reveal_strlit("Early Hints");
            assert(ascii_chars("Early Hints"@));
            assert(bytes_of_chars("Early Hints"@) =~= reason_of(code));
        }
        return ascii_bytes_of_str("Early Hints");
    }
    if code == 200 {
        proof {
            reveal_strlit("OK");
            assert(ascii_chars("OK"@));
            assert(bytes_of_chars("OK"@) =~= reason_of(code));
        }
        return ascii_bytes_of_str("OK");
    }
    if code == 201 {
        proof {
            reveal_strlit("Created");
            assert(ascii_chars("Created"@));
            assert(bytes_of_chars("Created"@) =~= reason_of(code));
        }
        return ascii_bytes_of_str("Created");
    }
    if code == 202 {
        proof {
            reveal_strlit("Accepted");
            assert(ascii_chars("Accepted"@));
            assert(bytes_of_chars("Accepted"@) =~= reason_of(code));
        }
        return ascii_bytes_of_str("Accepted");
    }
    if code == 203 {
        proof {
            reveal_strlit("Non-Authoritative Information");
            assert(ascii_chars("Non-Authoritative Information"@));
            assert(bytes_of_chars("Non-Authoritative Information"@) =~= reason_of(code));
        }
        return ascii_bytes_of_str("Non-Authoritative Information");
    }
    if code == 204 {
        proof {
            reveal_strlit("No Content");
            assert(ascii_chars("No Content"@));
            assert(bytes_of_chars("No Content"@) =~= reason_of(code));
        }
        return ascii_bytes_of_str("No Content");
    }
    if code == 205 {
        proof {
            reveal_strlit("Reset Content");
            assert(ascii_chars("Reset Content"@));
            assert(bytes_of_chars("Reset Content"@) =~= reason_of(code));
        }
        return ascii_bytes_of_str("Reset Content");
    }
    if code == 206 {
        proof {
            reveal_strlit("Partial Content");
            assert(ascii_chars("Partial Content"@));
            assert(bytes_of_chars("Partial Content"@) =~= reason_of(code));
        }
        return ascii_bytes_of_str("Partial Content");
    }
    if code == 207 {
        proof {
            reveal_strlit("Multi-Status");
            assert(ascii_chars("Multi-Status"@));
            assert(bytes_of_chars("Multi-Status"@) =~= reason_of(code));
        }
        return ascii_bytes_of_str("Multi-Status");
    }
    if code == 208 {
        proof {
            reveal_strlit("Already Reported");
            assert(ascii_chars("Already Reported"@));
            assert(bytes_of_chars("Already Reported"@) =~= reason_of(code));
        }
        return ascii_bytes_of_str("Already Reported");
    }
    if code == 226 {
        proof {
            reveal_strlit("IM Used");
            assert(ascii_chars("IM Used"@));
            assert(bytes_of_chars("IM Used"@) =~= reason_of(code));
        }
        return ascii_bytes_of_str("IM Used");
    }
    if code == 300 {
        proof {
            reveal_strlit("Multiple Choices");
            assert(ascii_chars("Multiple Choices"@));
            assert(bytes_of_chars("Multiple Choices"@) =~= reason_of(code));
        }
        return ascii_bytes_of_str("Multiple Choices");
    }
    if code == 301 {
        proof {
            reveal_strlit("Moved Permanently");
            assert(ascii_chars("Moved Permanently"@));
            assert(bytes_of_chars("Moved Permanently"@) =~= reason_of(code));
        }
        return ascii_bytes_of_str("Moved Permanently");
    }
    if code == 302 {
        proof {
            reveal_strlit("Found");
            assert(ascii_chars("Found"@));
            assert(bytes_of_chars("Found"@) =~= reason_of(code));
        }
        return ascii_bytes_of_str("Found");
    }
    if code == 303 {
        proof {
            reveal_strlit("See Other");
            assert(ascii_chars("See Other"@));
            assert(bytes_of_chars("See Other"@) =~= reason_of(code));
        }
        return ascii_bytes_of_str("See Other");
    }
    if code == 304 {
        proof {
            reveal_strlit("Not Modified");
            assert(ascii_chars("Not Modified"@));
            assert(bytes_of_chars("Not Modified"@) =~= reason_of(code));
        }
        return ascii_bytes_of_str("Not Modified");
    }
    if code == 305 {
        proof {
            reveal_strlit("Use Proxy");
            assert(ascii_chars("Use Proxy"@));
            assert(bytes_of_chars("Use Proxy"@) =~= reason_of(code));
        }
        return ascii_bytes_of_str("Use Proxy");
    }
    if code == 307 {
        proof {
            reveal_strlit("Temporary Redirect");
            assert(ascii_chars("Temporary Redirect"@));
            assert(bytes_of_chars("Temporary Redirect"@) =~= reason_of(code));
        }
        return ascii_bytes_of_str("Temporary Redirect");
    }
    if code == 308 {
        proof {
            reveal_strlit("Permanent Redirect");
            assert(ascii_chars("Permanent Redirect"@));
            assert(bytes_of_chars("Permanent Redirect"@) =~= reason_of(code));
        }
        return ascii_bytes_of_str("Permanent Redirect");
    }
    if code == 400 {
        proof {
            reveal_strlit("Bad Request");
            assert(ascii_chars("Bad Request"@));
            assert(bytes_of_chars("Bad Request"@) =~= reason_of(code));
        }
        return ascii_bytes_of_str("Bad Request");
    }
    if code == 401 {
        proof {
            reveal_strlit("Unauthorized");
            assert(ascii_chars("Unauthorized"@));
            assert(bytes_of_chars("Unauthorized"@) =~= reason_of(code));
        }
        return ascii_bytes_of_str("Unauthorized");
    }
    if code == 402 {
        proof {
            reveal_strlit("Payment Required");
            assert(ascii_chars("Payment Required"@));
            assert(bytes_of_chars("Payment Required"@) =~= reason_of(code));
        }
        return ascii_bytes_of_str("Payment Required");
    }
    if code == 403 {
        proof {
            reveal_strlit("Forbidden");
            assert(ascii_chars("Forbidden"@));
            assert(bytes_of_chars("Forbidden"@) =~= reason_of(code));
        }
        return ascii_bytes_of_str("Forbidden");
    }
    if code == 404 {
        proof {
            reveal_strlit("Not Found");
            assert(ascii_chars("Not Found"@));
            assert(bytes_of_chars("Not Found"@) =~= reason_of(code));
        }
        return ascii_bytes_of_str("Not Found");
    }
    if code == 405 {
        proof {
            reveal_strlit("Method Not Allowed");
            assert(ascii_chars("Method Not Allowed"@));
            assert(bytes_of_chars("Method Not Allowed"@) =~= reason_of(code));
        }
        return ascii_bytes_of_str("Method Not Allowed");
    }
    if code == 406 {
        proof {
            reveal_strlit("Not Acceptable");
            assert(ascii_chars("Not Acceptable"@));
            assert(bytes_of_chars("Not Acceptable"@) =~= reason_of(code));
        }
        return ascii_bytes_of_str("Not Acceptable");
    }
    if code == 407 {
        proof {
            reveal_strlit("Proxy Authentication Required");
            assert(ascii_chars("Proxy Authentication Required"@));
            assert(bytes_of_chars("Proxy Authentication Required"@) =~= reason_of(code));
        }
        return ascii_bytes_of_str("Proxy Authentication Required");
    }
    if code == 408 {
        proof {
            reveal_strlit("Request Timeout");
            assert(ascii_chars("Request Timeout"@));
            assert(bytes_of_chars("Request Timeout"@) =~= reason_of(code));
        }
        return ascii_bytes_of_str("Request Timeout");
    }
    if code == 409 {
        proof {
            reveal_strlit("Conflict");
            assert(ascii_chars("Conflict"@));
            assert(bytes_of_chars("Conflict"@) =~= reason_of(code));
        }
        return ascii_bytes_of_str("Conflict");
    }
    if code == 410 {
        proof {
            reveal_strlit("Gone");
            assert(ascii_chars("Gone"@));
            assert(bytes_of_chars("Gone"@) =~= reason_of(code));
        }
        return ascii_bytes_of_str("Gone");
    }
    if code == 411 {
        proof {
            reveal_strlit("Length Required");
            assert(ascii_chars("Length Required"@));
            assert(bytes_of_chars("Length Required"@) =~= reason_of(code));
        }
        return ascii_bytes_of_str("Length Required");
    }
    if code == 412 {
        proof {
            reveal_strlit("Precondition Failed");
            assert(ascii_chars("Precondition Failed"@));
            assert(bytes_of_chars("Precondition Failed"@) =~= reason_of(code));
        }
        return ascii_bytes_of_str("Precondition Failed");
    }
    if code == 413 {
        proof {
            reveal_strlit("Payload Too Large");
            assert(ascii_chars("Payload Too Large"@));
            assert(bytes_of_chars("Payload Too Large"@) =~= reason_of(code));
        }
        return ascii_bytes_of_str("Payload Too Large");
    }
    if code == 414 {
        proof {
            reveal_strlit("URI Too Long");
            assert(ascii_chars("URI Too Long"@));
            assert(bytes_of_chars("URI Too Long"@) =~= reason_of(code));
        }
        return ascii_bytes_of_str("URI Too Long");
    }
    if code == 415 {
        proof {
            reveal_strlit("Unsupported Media Type");
            assert(ascii_chars("Unsupported Media Type"@));
            assert(bytes_of_chars("Unsupported Media Type"@) =~= reason_of(code));
        }
        return ascii_bytes_of_str("Unsupported Media Type");
    }
    if code == 416 {
        proof {
            reveal_strlit("Range Not Satisfiable");
            assert(ascii_chars("Range Not Satisfiable"@));
            assert(bytes_of_chars("Range Not Satisfiable"@) =~= reason_of(code));
        }
        return ascii_bytes_of_str("Range Not Satisfiable");
    }
    if code == 417 {
        proof {
            reveal_strlit("Expectation Failed");
            assert(ascii_chars("Expectation Failed"@));
            assert(bytes_of_chars("Expectation Failed"@) =~= reason_of(code));
        }
        return ascii_bytes_of_str("Expectation Failed");
    }
    if code == 418 {
        proof {
            reveal_strlit("I'm a teapot");
            assert(ascii_chars("I'm a teapot"@));
            assert(bytes_of_chars("I'm a teapot"@) =~= reason_of(code));
        }
        return ascii_bytes_of_str("I'm a teapot");
    }
    if code == 421 {
        proof {
            reveal_strlit("Misdirected Request");
            assert(ascii_chars("Misdirected Request"@));
            assert(bytes_of_chars("Misdirected Request"@) =~= reason_of(code));
        }
        return ascii_bytes_of_str("Misdirected Request");
    }
    if code == 422 {
        proof {
            reveal_strlit("Unprocessable Entity");
            assert(ascii_chars("Unprocessable Entity"@));
            assert(bytes_of_chars("Unprocessable Entity"@) =~= reason_of(code));
        }
        return ascii_bytes_of_str("Unprocessable Entity");
    }
    if code == 423 {
        proof {
            reveal_strlit("Locked");
            assert(ascii_chars("Locked"@));
            assert(bytes_of_chars("Locked"@) =~= reason_of(code));
        }
        return ascii_bytes_of_str("Locked");
    }
    if code == 424 {
        proof {
            reveal_strlit("Failed Dependency");
            assert(ascii_chars("Failed Dependency"@));
            assert(bytes_of_chars("Failed Dependency"@) =~= reason_of(code));
        }
        return ascii_bytes_of_str("Failed Dependency");
    }
    if code == 426 {
        proof {
            reveal_strlit("Upgrade Required");
            assert(ascii_chars("Upgrade Required"@));
            assert(bytes_of_chars("Upgrade Required"@) =~= reason_of(code));
        }
        return ascii_bytes_of_str("Upgrade Required");
    }
    if code == 428 {
        proof {
            reveal_strlit("Precondition Required");
            assert(ascii_chars("Precondition Required"@));
            assert(bytes_of_chars("Precondition Required"@) =~= reason_of(code));
        }
        return ascii_bytes_of_str("Precondition Required");
    }
    if code == 429 {
        proof {
            reveal_strlit("Too Many Requests");
            assert(ascii_chars("Too Many Requests"@));
            assert(bytes_of_chars("Too Many Requests"@) =~= reason_of(code));
        }
        return ascii_bytes_of_str("Too Many Requests");
    }
    if code == 431 {
        proof {
            reveal_strlit("Request Header Fields Too Large");
            assert(ascii_chars("Request Header Fields Too Large"@));
            assert(bytes_of_chars("Request Header Fields Too Large"@) =~= reason_of(code));
        }
        return ascii_bytes_of_str("Request Header Fields Too Large");
    }
    if code == 451 {
        proof {
            reveal_strlit("Unavailable For Legal Reasons");
            assert(ascii_chars("Unavailable For Legal Reasons"@));
            assert(bytes_of_chars("Unavailable For Legal Reasons"@) =~= reason_of(code));
        }
        return ascii_bytes_of_str("Unavailable For Legal Reasons");
    }
    if code == 500 {
        proof {
            reveal_strlit("Internal Server Error");
            assert(ascii_chars("Internal Server Error"@));
            assert(bytes_of_chars("Internal Server Error"@) =~= reason_of(code));
        }
        return ascii_bytes_of_str("Internal Server Error");
    }
    if code == 501 {
        proof {
            reveal_strlit("Not Implemented");
            assert(ascii_chars("Not Implemented"@));
            assert(bytes_of_chars("Not Implemented"@) =~= reason_of(code));
        }
        return ascii_bytes_of_str("Not Implemented");
    }
    if code == 502 {
        proof {
            reveal_strlit("Bad Gateway");
            assert(ascii_chars("Bad Gateway"@));
            assert(bytes_of_chars("Bad Gateway"@) =~= reason_of(code));
        }
        return ascii_bytes_of_str("Bad Gateway");
    }
    if code == 503 {
        proof {
            reveal_strlit("Service Unavailable");
            assert(ascii_chars("Service Unavailable"@));
            assert(bytes_of_chars("Service Unavailable"@) =~= reason_of(code));
        }
        return ascii_bytes_of_str("Service Unavailable");
    }
    if code == 504 {
        proof {
            reveal_strlit("Gateway Timeout");
            assert(ascii_chars("Gateway Timeout"@));
            assert(bytes_of_chars("Gateway Timeout"@) =~= reason_of(code));
        }
        return ascii_bytes_of_str("Gateway Timeout");
    }
    if code == 505 {
        proof {
            reveal_strlit("HTTP Version Not Supported");
            assert(ascii_chars("HTTP Version Not Supported"@));
            assert(bytes_of_chars("HTTP Version Not Supported"@) =~= reason_of(code));
        }
        return ascii_bytes_of_str("HTTP Version Not Supported");
    }
    if code == 506 {
        proof {
            reveal_strlit("Variant Also Negotiates");
            assert(ascii_chars("Variant Also Negotiates"@));
            assert(bytes_of_chars("Variant Also Negotiates"@) =~= reason_of(code));
        }
        return ascii_bytes_of_str("Variant Also Negotiates");
    }
    if code == 507 {
        proof {
            reveal_strlit("Insufficient Storage");
            assert(ascii_chars("Insufficient Storage"@));
            assert(bytes_of_chars("Insufficient Storage"@) =~= reason_of(code));
        }
        return ascii_bytes_of_str("Insufficient Storage");
    }
    if code == 508 {
        proof {
            reveal_strlit("Loop Detected");
            assert(ascii_chars("Loop Detected"@));
            assert(bytes_of_chars("Loop Detected"@) =~= reason_of(code));
        }
        return ascii_bytes_of_str("Loop Detected");
    }
    if code == 510 {
        proof {
            reveal_strlit("Not Extended");
            assert(ascii_chars("Not Extended"@));
            assert(bytes_of_chars("Not Extended"@) =~= reason_of(code));
        }
        return ascii_bytes_of_str("Not Extended");
    }
    if code == 511 {
        proof {
            reveal_strlit("Network Authentication Required");
            assert(ascii_chars("Network Authentication Required"@));
            assert(bytes_of_chars("Network Authentication Required"@) =~= reason_of(code));
        }
        return ascii_bytes_of_str("Network Authentication Required");
    }
    proof {
        reveal_strlit("Unknown");
        assert(ascii_chars("Unknown"@));
        assert(bytes_of_chars("Unknown"@) =~= reason_of(code));
    }
    ascii_bytes_of_str("Unknown")
}

/// The status line of response bytes.
pub open spec fn resp_line(s: Seq<u8>) -> Seq<u8> {
    lines_of(s)[0]
}

/// The space ending the version token.
pub open spec fn resp_sp1(s: Seq<u8>) -> Option<int> {
    find_byte(resp_line(s), 32)
}

/// The version token.
pub open spec fn resp_version_tok(s: Seq<u8>) -> Seq<u8> {
    resp_line(s).subrange(0, resp_sp1(s)->Some_0)
}

/// The status line after the version token.
pub open spec fn resp_after(s: Seq<u8>) -> Seq<u8> {
    resp_line(s).skip(resp_sp1(s)->Some_0 + 1)
}

/// A decimal digit byte.
pub open spec fn digit(b: u8) -> bool {
    48 <= b <= 57
}

/// Three digits follow the version, then the line ends or a space and
/// the reason follow.
pub open spec fn resp_digits_ok(s: Seq<u8>) -> bool {
    &&& resp_after(s).len() >= 3
    &&& digit(resp_after(s)[0])
    &&& digit(resp_after(s)[1])
    &&& digit(resp_after(s)[2])
    &&& (resp_after(s).len() == 3 || resp_after(s)[3] == 32)
}

/// The status code the digits spell.
pub open spec fn resp_status(s: Seq<u8>) -> int {
    (resp_after(s)[0] - 48) * 100 + (resp_after(s)[1] - 48) * 10 + (resp_after(s)[2] - 48)
}

/// The version named on the status line, if known.
pub open spec fn resp_version(s: Seq<u8>) -> Option<Version> {
    spec_version_of(resp_version_tok(s))
}

/// The bytes hold one complete, legal response.
pub open spec fn resp_wf(s: Seq<u8>) -> bool {
    &&& spec_headers_end(s) is Some
    &&& resp_sp1(s) is Some
    &&& resp_version(s) is Some
    &&& resp_digits_ok(s)
    &&& resp_status(s) >= 100
    &&& req_headers_ok(s)
}

/// The error malformed or incomplete response bytes are rejected with.
pub open spec fn resp_error_of(s: Seq<u8>) -> ServerError {
    if spec_headers_end(s) is None {
        ServerError::PartialParsed
    } else {
        ServerError::ParseError
    }
}

/// Reads a response back from wire bytes.  The bytes after the blank
/// line become the body, whatever their count.
pub fn parse_response(buffer: &[u8]) -> (r: Result<HttpResponse, ServerError>)
    ensures
        r is Ok <==> resp_wf(buffer@),
        match r {
            Ok(resp) => {
                &&& resp.status_code == resp_status(buffer@)
                &&& Some(resp.version) == resp_version(buffer@)
                &&& resp.headers@ == req_headers_view(buffer@)
                &&& resp.headers.wf()
                &&& resp.body@ == body_of(buffer@)
                &&& resp.wf()
            },
            Err(e) => e == resp_error_of(buffer@),
        },
{
    let he = match find_headers_end(buffer) {
        None => {
            return Err(ServerError::PartialParsed);
        },
        Some(i) => i,
    };
    proof {
        crate::wire::lemma_headers_end(buffer@);
        assert(crate::wire::crlf2_at(buffer@, he as int));
    }
    let blen = buffer.len();
    let head = slice_subrange(buffer, 0, he);
    let body = slice_to_vec(slice_subrange(buffer, he + 4, blen));
    proof {
        assert(head@ =~= crate::request::head_of(buffer@));
        assert(body@ =~= body_of(buffer@));
    }
    let lines = head_lines(head);
    proof {
        assert(split_lines(head@).len() >= 1) by {
            match first_crlf(head@) {
                Some(i) => {},
                None => {},
            }
        }
    }
    let line0 = &lines[0];
    proof {
        assert(line0@ == resp_line(buffer@));
    }
    let sp1 = match find_byte_in(line0, 32) {
        None => {
            return Err(ServerError::ParseError);
        },
        Some(i) => i,
    };
    proof {
        lemma_find_byte(line0@, 32);
    }
    let v_tok = slice_to_vec(slice_subrange(line0.as_slice(), 0, sp1));
    let after = slice_to_vec(slice_subrange(line0.as_slice(), sp1 + 1, line0.len()));
    proof {
        assert(v_tok@ =~= resp_version_tok(buffer@));
        assert(after@ =~= resp_after(buffer@));
    }
    let version = match parse_version(&v_tok) {
        None => {
            return Err(ServerError::ParseError);
        },
        Some(v) => v,
    };
    if after.len() < 3 {
        return Err(ServerError::ParseError);
    }
    let b0 = after[0];
    let b1 = after[1];
    let b2 = after[2];
    if !(48 <= b0 && b0 <= 57 && 48 <= b1 && b1 <= 57 && 48 <= b2 && b2 <= 57) {
        return Err(ServerError::ParseError);
    }
    if after.len() > 3 && after[3] != 32 {
        return Err(ServerError::ParseError);
    }
    let status: u16 = (b0 - 48) as u16 * 100 + (b1 - 48) as u16 * 10 + (b2 - 48) as u16;
    if status < 100 {
        return Err(ServerError::ParseError);
    }
    // Parse the header lines.
    let mut items: Vec<(String, String)> = Vec::new();
    let mut i: usize = 1;
    while i < lines.len()
        invariant
            1 <= i <= lines@.len(),
            spec_headers_end(buffer@) is Some,
            resp_sp1(buffer@) is Some,
            resp_version(buffer@) is Some,
            resp_digits_ok(buffer@),
            resp_status(buffer@) >= 100,
            lines@.len() == lines_of(buffer@).len(),
            forall|j: int|
                0 <= j < lines@.len() ==> (#[trigger] lines@[j])@ == lines_of(buffer@)[j],
            items@.len() == i - 1,
            forall|j: int| 1 <= j < i ==> header_line_ok(#[trigger] lines_of(buffer@)[j]),
            forall|j: int|
                0 <= j < i - 1 ==> ((#[trigger] items@[j]).0@ == chars_of_bytes(
                    header_name_bytes(lines_of(buffer@)[j + 1]),
                ) && items@[j].1@ == chars_of_bytes(
                    header_value_bytes(lines_of(buffer@)[j + 1]),
                ) && header_name_wf(items@[j].0@) && lower_ascii(items@[j].0@) == items@[j].0@
                    && header_value_wf(items@[j].1@)),
        decreases lines@.len() - i,
    {
        match parse_header_line(&lines[i]) {
            None => {
                proof {
                    assert(!header_line_ok(lines_of(buffer@)[i as int]));
                    assert(!req_headers_ok(buffer@));
                }
                return Err(ServerError::ParseError);
            },
            Some(pair) => {
                items.push(pair);
            },
        }
        i = i + 1;
    }
    let headers = Headers { items };
    let resp = HttpResponse { body, status_code: status, headers, version };
    proof {
        assert(resp.headers@ =~= req_headers_view(buffer@));
        assert(resp.headers.wf()) by {
            assert forall|j: int| 0 <= j < resp.headers@.len() implies (header_name_wf(
                (#[trigger] resp.headers@[j]).0,
            ) && lower_ascii(resp.headers@[j].0) == resp.headers@[j].0 && header_value_wf(
                resp.headers@[j].1,
            )) by {
                assert(resp.headers@[j] == (resp.headers.items@[j].0@, resp.headers.items@[j].1@));
            }
        }
    }
    Ok(resp)
}


/// No carriage return anywhere in the text.
pub open spec fn no_cr(l: Seq<u8>) -> bool {
    forall|i: int| 0 <= i < l.len() ==> (#[trigger] l[i]) != 13
}

/// Lines joined by line ends, with no trailing line end.
pub open spec fn join_crlf(ls: Seq<Seq<u8>>) -> Seq<u8>
    decreases ls.len(),
{
    if ls.len() == 0 {
        Seq::empty()
    } else if ls.len() == 1 {
        ls[0]
    } else {
        ls[0] + seq![13u8, 10] + join_crlf(ls.skip(1))
    }
}

/// A legal head-line list: at least one line, no carriage returns, and
/// every line after the first non-empty.
pub open spec fn lines_wf(ls: Seq<Seq<u8>>) -> bool {
    &&& ls.len() > 0
    &&& forall|i: int| 0 <= i < ls.len() ==> no_cr(#[trigger] ls[i])
    &&& forall|i: int| 1 <= i < ls.len() ==> (#[trigger] ls[i]).len() > 0
}

/// The first line end of text that starts with line-end-free bytes is
/// the one written after them.
proof fn lemma_first_crlf_concat(l: Seq<u8>, rest: Seq<u8>)
    requires
        no_cr(l),
    ensures
        first_crlf(l + seq![13u8, 10] + rest) == Some(l.len() as int),
    decreases l.len(),
{
    let s = l + seq![13u8, 10] + rest;
    if l.len() == 0 {
        assert(s[0] == 13 && s[1] == 10);
    } else {
        assert(s[0] == l[0]);
        assert(s[0] != 13);
        assert(s.skip(1) =~= l.skip(1) + seq![13u8, 10] + rest);
        assert(no_cr(l.skip(1))) by {
            assert forall|i: int| 0 <= i < l.skip(1).len() implies (#[trigger] l.skip(1)[i])
                != 13 by {
                assert(l.skip(1)[i] == l[i + 1]);
            }
        }
        lemma_first_crlf_concat(l.skip(1), rest);
    }
}

/// Line-end-free text holds no line end at all.
proof fn lemma_first_crlf_none(l: Seq<u8>)
    requires
        no_cr(l),
    ensures
        first_crlf(l) is None,
{
    crate::wire::lemma_first_crlf(l);
    match first_crlf(l) {
        Some(i) => {
            assert(l[i] == 13);
        },
        None => {},
    }
}

/// The head terminator of text that starts with line-end-free bytes and
/// the terminator is right after those bytes.
proof fn lemma_headers_end_concat(l: Seq<u8>, body: Seq<u8>)
    requires
        no_cr(l),
    ensures
        spec_headers_end(l + seq![13u8, 10, 13, 10] + body) == Some(l.len() as int),
    decreases l.len(),
{
    let s = l + seq![13u8, 10, 13, 10] + body;
    if l.len() == 0 {
        assert(s[0] == 13 && s[1] == 10 && s[2] == 13 && s[3] == 10);
    } else {
        assert(s[0] == l[0]);
        assert(s[0] != 13);
        assert(s.skip(1) =~= l.skip(1) + seq![13u8, 10, 13, 10] + body);
        assert(no_cr(l.skip(1))) by {
            assert forall|i: int| 0 <= i < l.skip(1).len() implies (#[trigger] l.skip(1)[i])
                != 13 by {
                assert(l.skip(1)[i] == l[i + 1]);
            }
        }
        lemma_headers_end_concat(l.skip(1), body);
    }
}

/// Prepending a line-end-free line and its line end shifts the head
/// terminator by the line and the separator.
proof fn lemma_headers_end_shift(l: Seq<u8>, rest: Seq<u8>, k: int)
    requires
        no_cr(l),
        rest.len() >= 4,
        rest[0] != 13,
        spec_headers_end(rest) == Some(k),
    ensures
        spec_headers_end(l + seq![13u8, 10] + rest) == Some(l.len() + 2 + k),
    decreases l.len(),
{
    let s = l + seq![13u8, 10] + rest;
    if l.len() == 0 {
        assert(s =~= seq![13u8, 10] + rest);
        assert(s[0] == 13 && s[1] == 10);
        assert(s[2] == rest[0]);
        assert(s[2] != 13);
        let s1 = s.skip(1);
        assert(s1 =~= seq![10u8] + rest);
        assert(s1[0] == 10);
        assert(s1.skip(1) =~= rest);
        assert(spec_headers_end(s1) == Some(k + 1));
        assert(spec_headers_end(s) == Some(k + 2));
    } else {
        assert(s[0] == l[0]);
        assert(s[0] != 13);
        assert(s.skip(1) =~= l.skip(1) + seq![13u8, 10] + rest);
        assert(no_cr(l.skip(1))) by {
            assert forall|i: int| 0 <= i < l.skip(1).len() implies (#[trigger] l.skip(1)[i])
                != 13 by {
                assert(l.skip(1)[i] == l[i + 1]);
            }
        }
        lemma_headers_end_shift(l.skip(1), rest, k);
    }
}

/// Splitting joined lines gives the lines back.
proof fn lemma_split_join(ls: Seq<Seq<u8>>)
    requires
        lines_wf(ls),
    ensures
        split_lines(join_crlf(ls)) == ls,
    decreases ls.len(),
{
    if ls.len() == 1 {
        lemma_first_crlf_none(ls[0]);
        assert(split_lines(join_crlf(ls)) =~= ls);
    } else {
        let tl = ls.skip(1);
        let j = join_crlf(ls);
        assert(j == ls[0] + seq![13u8, 10] + join_crlf(tl));
        lemma_first_crlf_concat(ls[0], join_crlf(tl));
        let i = ls[0].len() as int;
        assert(j.subrange(0, i) =~= ls[0]);
        assert(j.skip(i + 2) =~= join_crlf(tl));
        assert(lines_wf(tl)) by {
            assert forall|x: int| 0 <= x < tl.len() implies no_cr(#[trigger] tl[x]) && (x >= 1
                ==> tl[x].len() > 0) by {
                assert(tl[x] == ls[x + 1]);
            }
            assert(tl[0] == ls[1]);
        }
        lemma_split_join(tl);
        assert(split_lines(j) =~= ls);
    }
}

/// Joined lines, a blank line and a body make a wire message whose
/// head, body and lines are exactly those pieces.
proof fn lemma_wire_structure(ls: Seq<Seq<u8>>, body: Seq<u8>)
    requires
        lines_wf(ls),
    ensures
        spec_headers_end(join_crlf(ls) + seq![13u8, 10, 13, 10] + body) == Some(
            join_crlf(ls).len() as int,
        ),
        crate::request::head_of(join_crlf(ls) + seq![13u8, 10, 13, 10] + body) == join_crlf(ls),
        body_of(join_crlf(ls) + seq![13u8, 10, 13, 10] + body) == body,
        lines_of(join_crlf(ls) + seq![13u8, 10, 13, 10] + body) == ls,
    decreases ls.len(),
{
    let bytes = join_crlf(ls) + seq![13u8, 10, 13, 10] + body;
    if ls.len() == 1 {
        lemma_headers_end_concat(ls[0], body);
    } else {
        let tl = ls.skip(1);
        assert(lines_wf(tl)) by {
            assert forall|x: int| 0 <= x < tl.len() implies no_cr(#[trigger] tl[x]) && (x >= 1
                ==> tl[x].len() > 0) by {
                assert(tl[x] == ls[x + 1]);
            }
            assert(tl[0] == ls[1]);
        }
        lemma_wire_structure(tl, body);
        let rest = join_crlf(tl) + seq![13u8, 10, 13, 10] + body;
        assert(join_crlf(tl).len() > 0) by {
            assert(tl[0].len() > 0);
            if tl.len() == 1 {
            } else {
                assert(join_crlf(tl) == tl[0] + seq![13u8, 10] + join_crlf(tl.skip(1)));
            }
        }
        assert(rest[0] == join_crlf(tl)[0]);
        assert(join_crlf(tl)[0] != 13) by {
            if tl.len() == 1 {
                assert(join_crlf(tl)[0] == tl[0][0]);
            } else {
                assert(join_crlf(tl) == tl[0] + seq![13u8, 10] + join_crlf(tl.skip(1)));
                assert(join_crlf(tl)[0] == tl[0][0]);
            }
        }
        lemma_headers_end_shift(ls[0], rest, join_crlf(tl).len() as int);
        assert(bytes =~= ls[0] + seq![13u8, 10] + rest);
        assert(spec_headers_end(bytes) == Some(join_crlf(ls).len() as int)) by {
            assert(join_crlf(ls) == ls[0] + seq![13u8, 10] + join_crlf(tl));
        }
    }
    assert(crate::request::head_of(bytes) =~= join_crlf(ls));
    assert(body_of(bytes) =~= body);
    lemma_split_join(ls);
    assert(crate::request::head_of(bytes) == join_crlf(ls));
}

/// The first occurrence of a byte absent from a prefix is the one
/// written right after the prefix.
proof fn lemma_find_byte_concat(a: Seq<u8>, b: u8, rest: Seq<u8>)
    requires
        forall|i: int| 0 <= i < a.len() ==> (#[trigger] a[i]) != b,
    ensures
        find_byte(a + seq![b] + rest, b) == Some(a.len() as int),
    decreases a.len(),
{
    let s = a + seq![b] + rest;
    if a.len() == 0 {
        assert(s[0] == b);
    } else {
        assert(s[0] == a[0]);
        assert(s[0] != b);
        assert(s.skip(1) =~= a.skip(1) + seq![b] + rest);
        assert forall|i: int| 0 <= i < a.skip(1).len() implies (#[trigger] a.skip(1)[i]) != b by {
            assert(a.skip(1)[i] == a[i + 1]);
        }
        lemma_find_byte_concat(a.skip(1), b, rest);
    }
}

/// The reason phrase is never empty and never holds a line end.
proof fn lemma_reason_text(code: u16)
    ensures
        reason_of(code).len() > 0,
        forall|i: int| 0 <= i < reason_of(code).len() ==> (#[trigger] reason_of(code)[i]) != 13,
{
}

/// The digits of a status code below 1000 spell the code back.
proof fn lemma_status_digits_value(c: u16)
    requires
        c < 1000,
    ensures
        digit(status_digits(c)[0]),
        digit(status_digits(c)[1]),
        digit(status_digits(c)[2]),
        (status_digits(c)[0] - 48) * 100 + (status_digits(c)[1] - 48) * 10 + (status_digits(c)[2]
            - 48) == c,
        forall|i: int| 0 <= i < 3 ==> (#[trigger] status_digits(c)[i]) != 13,
{
    assert(c / 100 < 10);
    assert((c / 100) % 10 == c / 100) by {
        assert(c / 100 < 10);
    }
    assert(c == 100 * (c / 100) + 10 * ((c / 10) % 10) + c % 10) by (nonlinear_arith)
        requires
            c < 1000,
    ;
}

/// The line body of a header pair: name, colon, space, value, with no
/// line end yet.
pub open spec fn hl_body(p: (Seq<char>, Seq<char>)) -> Seq<u8> {
    bytes_of_chars(p.0) + seq![58u8, 32] + bytes_of_chars(p.1)
}

/// A legal, lower-cased header pair's line parses back to the pair.
proof fn lemma_hl_round(p: (Seq<char>, Seq<char>))
    requires
        header_name_wf(p.0),
        lower_ascii(p.0) == p.0,
        header_value_wf(p.1),
    ensures
        hl_body(p).len() > 0,
        no_cr(hl_body(p)),
        header_line_ok(hl_body(p)),
        chars_of_bytes(header_name_bytes(hl_body(p))) == p.0,
        chars_of_bytes(header_value_bytes(hl_body(p))) == p.1,
{
    let line = hl_body(p);
    let nb = bytes_of_chars(p.0);
    let vb = bytes_of_chars(p.1);
    lemma_header_text_ascii(p.0);
    lemma_header_text_ascii(p.1);
    assert forall|i: int| 0 <= i < nb.len() implies (name_byte_ok(#[trigger] nb[i]) && nb[i]
        != 13) by {
        lemma_ascii_cast_round(p.0[i]);
        assert(nb[i] == (p.0[i] as u8));
        assert(p.0[i] != ':');
        assert((p.0[i] as u32) != 58) by {
            crate::text::lemma_ascii_byte_round(58);
        }
    }
    assert forall|i: int| 0 <= i < vb.len() implies (value_byte_ok(#[trigger] vb[i]) && vb[i]
        != 13) by {
        lemma_ascii_cast_round(p.1[i]);
        assert(vb[i] == (p.1[i] as u8));
    }
    // The colon is the first one on the line.
    assert(line =~= nb + seq![58u8] + (seq![32u8] + vb));
    lemma_find_byte_concat(nb, 58, seq![32u8] + vb);
    let c = nb.len() as int;
    assert(find_byte(line, 58) == Some(c));
    assert(no_cr(line)) by {
        assert forall|i: int| 0 <= i < line.len() implies (#[trigger] line[i]) != 13 by {
            if i < c {
                assert(line[i] == nb[i]);
            } else if i == c {
                assert(line[i] == 58);
            } else if i == c + 1 {
                assert(line[i] == 32);
            } else {
                assert(line[i] == vb[i - c - 2]);
            }
        }
    }
    assert(header_line_ok(line)) by {
        assert(c > 0);
        assert forall|j: int| 0 <= j < c implies name_byte_ok(#[trigger] line[j]) by {
            assert(line[j] == nb[j]);
        }
        assert forall|j: int| c < j < line.len() implies value_byte_ok(#[trigger] line[j]) by {
            if j == c + 1 {
                assert(line[j] == 32);
            } else {
                assert(line[j] == vb[j - c - 2]);
            }
        }
    }
    // The stored name is already lower case, so lower-casing is a no-op.
    assert(header_name_bytes(line) == nb) by {
        assert(line.subrange(0, c) =~= nb);
        crate::text::lemma_lower_ascii_pointwise(p.0);
        assert(lower_bytes(bytes_of_chars(p.0)) == bytes_of_chars(lower_ascii(p.0)));
    }
    crate::text::lemma_chars_bytes_round(p.0);
    // The single space after the colon is stripped, and the value
    // itself starts with no space.
    assert(header_value_bytes(line) == vb) by {
        assert(line.skip(c + 1) =~= seq![32u8] + vb);
        assert((seq![32u8] + vb).skip(1) =~= vb);
        assert(strip_spaces(seq![32u8] + vb) == strip_spaces(vb));
        if vb.len() > 0 {
            assert(p.1[0] != ' ');
            lemma_ascii_cast_round(p.1[0]);
            assert(vb[0] != 32) by {
                if vb[0] == 32 {
                    crate::text::lemma_ascii_byte_round(32);
                    assert((32u8 as char) == p.1[0]);
                    assert((' ' as u32) == 32);
                    assert((32u8 as char) == ' ') by {
                        crate::text::lemma_ascii_cast_round(' ');
                    }
                }
            }
        }
        assert(strip_spaces(vb) == vb);
    }
    crate::text::lemma_chars_bytes_round(p.1);
}

/// The head-line list of a serialized response: the status line, then
/// one line per header.
pub open spec fn resp_line_seq(code: u16, v: Version, hs: Seq<(Seq<char>, Seq<char>)>) -> Seq<
    Seq<u8>,
> {
    Seq::new(
        1 + hs.len(),
        |i: int|
            if i == 0 {
                sl_content(code, v)
            } else {
                hl_body(hs[i - 1])
            },
    )
}

/// The line bodies of the header pairs.
pub open spec fn hl_bodies(hs: Seq<(Seq<char>, Seq<char>)>) -> Seq<Seq<u8>> {
    Seq::new(hs.len(), |i: int| hl_body(hs[i]))
}

/// The closed header lines are the joined line bodies plus a final line
/// end.
proof fn lemma_hlines_join(hs: Seq<(Seq<char>, Seq<char>)>)
    requires
        hs.len() >= 1,
    ensures
        ser_hlines(hs) == join_crlf(hl_bodies(hs)) + seq![13u8, 10],
    decreases hs.len(),
{
    if hs.len() == 1 {
        assert(hl_bodies(hs).len() == 1);
        assert(join_crlf(hl_bodies(hs)) == hl_bodies(hs)[0]);
        assert(ser_hlines(hs.skip(1)) =~= Seq::<u8>::empty());
        assert(ser_hlines(hs) =~= hl_content(hs[0]));
        assert(hl_content(hs[0]) =~= hl_body(hs[0]) + seq![13u8, 10]);
        assert(ser_hlines(hs) =~= join_crlf(hl_bodies(hs)) + seq![13u8, 10]);
    } else {
        lemma_hlines_join(hs.skip(1));
        assert(hl_bodies(hs).skip(1) =~= hl_bodies(hs.skip(1)));
        assert(join_crlf(hl_bodies(hs)) == hl_bodies(hs)[0] + seq![13u8, 10] + join_crlf(
            hl_bodies(hs).skip(1),
        ));
        assert(hl_content(hs[0]) =~= hl_body(hs[0]) + seq![13u8, 10]);
        assert(ser_hlines(hs) =~= join_crlf(hl_bodies(hs)) + seq![13u8, 10]);
    }
}

/// A serialized response is its head lines joined, a blank line, and
/// the body.
proof fn lemma_ser_join(code: u16, v: Version, hs: Seq<(Seq<char>, Seq<char>)>, body: Seq<u8>)
    ensures
        ser_response(code, v, hs, body) == join_crlf(resp_line_seq(code, v, hs)) + seq![
            13u8,
            10,
            13,
            10,
        ] + body,
{
    let ls = resp_line_seq(code, v, hs);
    if hs.len() == 0 {
        assert(ls.len() == 1);
        assert(join_crlf(ls) == ls[0]);
        assert(ls[0] == sl_content(code, v));
        assert(ser_hlines(hs) =~= Seq::<u8>::empty());
        assert(ser_response(code, v, hs, body) =~= join_crlf(ls) + seq![13u8, 10, 13, 10] + body);
    } else {
        lemma_hlines_join(hs);
        assert(ls.skip(1) =~= hl_bodies(hs));
        assert(join_crlf(ls) == ls[0] + seq![13u8, 10] + join_crlf(ls.skip(1)));
        assert(ser_response(code, v, hs, body) =~= join_crlf(ls) + seq![13u8, 10, 13, 10] + body);
    }
}

/// The status line parses back to its version and status code.
proof fn lemma_sl_round(code: u16, v: Version)
    requires
        100 <= code < 1000,
    ensures
        sl_content(code, v).len() > 0,
        no_cr(sl_content(code, v)),
        find_byte(sl_content(code, v), 32) == Some(8int),
        sl_content(code, v).subrange(0, 8) == version_token(v),
        spec_version_of(version_token(v)) == Some(v),
        ({
            let a = sl_content(code, v).skip(9);
            &&& a.len() >= 4
            &&& digit(a[0])
            &&& digit(a[1])
            &&& digit(a[2])
            &&& a[3] == 32
            &&& (a[0] - 48) * 100 + (a[1] - 48) * 10 + (a[2] - 48) == code
        }),
{
    let sl = sl_content(code, v);
    let vt = version_token(v);
    lemma_status_digits_value(code);
    lemma_reason_text(code);
    assert(vt.len() == 8) by {
        match v {
            Version::Http10 => {},
            Version::Http11 => {},
        }
    }
    assert forall|i: int| 0 <= i < vt.len() implies (#[trigger] vt[i]) != 32 && vt[i] != 13 by {
        match v {
            Version::Http10 => {},
            Version::Http11 => {},
        }
    }
    assert(sl =~= vt + seq![32u8] + (status_digits(code) + seq![32u8] + reason_of(code)));
    lemma_find_byte_concat(vt, 32, status_digits(code) + seq![32u8] + reason_of(code));
    assert(sl.subrange(0, 8) =~= vt);
    assert(no_cr(sl)) by {
        assert forall|i: int| 0 <= i < sl.len() implies (#[trigger] sl[i]) != 13 by {
            if i < 8 {
                assert(sl[i] == vt[i]);
            } else if i == 8 {
                assert(sl[i] == 32);
            } else if i <= 11 {
                assert(sl[i] == status_digits(code)[i - 9]);
            } else if i == 12 {
                assert(sl[i] == 32);
            } else {
                assert(sl[i] == reason_of(code)[i - 13]);
            }
        }
    }
    assert(spec_version_of(version_token(v)) == Some(v)) by {
        assert(version_token(Version::Http10)[7] == 48);
        assert(version_token(Version::Http11)[7] == 49);
        match v {
            Version::Http10 => {},
            Version::Http11 => {},
        }
    }
    let a = sl.skip(9);
    assert(a =~= status_digits(code) + seq![32u8] + reason_of(code));
    assert(a[0] == status_digits(code)[0]);
    assert(a[1] == status_digits(code)[1]);
    assert(a[2] == status_digits(code)[2]);
    assert(a[3] == 32);
}

/// The round-trip law: a well-formed response, written to wire bytes
/// and read back, yields exactly its status code, version, headers and
/// body.
pub proof fn lemma_response_round_trip(resp: HttpResponse)
    requires
        resp.wf(),
    ensures
        resp_wf(resp.spec_to_bytes()),
        resp_status(resp.spec_to_bytes()) == resp.status_code,
        resp_version(resp.spec_to_bytes()) == Some(resp.version),
        req_headers_view(resp.spec_to_bytes()) == resp.headers@,
        body_of(resp.spec_to_bytes()) == resp.body@,
{
    let bytes = resp.spec_to_bytes();
    let hs = resp.headers@;
    let code = resp.status_code;
    let v = resp.version;
    let ls = resp_line_seq(code, v, hs);
    lemma_ser_join(code, v, hs, resp.body@);
    lemma_sl_round(code, v);
    assert(lines_wf(ls)) by {
        assert(ls[0] == sl_content(code, v));
        assert forall|i: int| 0 <= i < ls.len() implies no_cr(#[trigger] ls[i]) && (i >= 1
            ==> ls[i].len() > 0) by {
            if i >= 1 {
                assert(ls[i] == hl_body(hs[i - 1]));
                lemma_hl_round(hs[i - 1]);
            }
        }
    }
    lemma_wire_structure(ls, resp.body@);
    assert(lines_of(bytes) == ls);
    assert(resp_line(bytes) == sl_content(code, v));
    // Status line.
    assert(resp_sp1(bytes) == Some(8int));
    assert(resp_version_tok(bytes) == version_token(v)) by {
        assert(resp_version_tok(bytes) == resp_line(bytes).subrange(0, 8));
    }
    assert(resp_after(bytes) == sl_content(code, v).skip(9));
    assert(resp_digits_ok(bytes));
    assert(resp_status(bytes) == code);
    // Header lines.
    assert forall|i: int| 1 <= i < lines_of(bytes).len() implies header_line_ok(
        #[trigger] lines_of(bytes)[i],
    ) by {
        assert(lines_of(bytes)[i] == hl_body(hs[i - 1]));
        lemma_hl_round(hs[i - 1]);
    }
    assert(req_headers_view(bytes) =~= hs) by {
        assert forall|i: int| 0 <= i < hs.len() implies #[trigger] req_headers_view(bytes)[i]
            == hs[i] by {
            assert(lines_of(bytes)[i + 1] == hl_body(hs[i]));
            lemma_hl_round(hs[i]);
        }
    }
}


/// The content-type header text an error response carries.
pub open spec fn error_content_type() -> (Seq<char>, Seq<char>) {
    (lower_ascii("Content-Type"@), "text/plain; charset=utf-8"@)
}

impl ServerError {
    /// The error as a plain-text response with its status code.
    pub fn error_response(&self) -> (r: HttpResponse)
        ensures
            r.status_code == self.spec_status_code(),
            r.version == Version::Http11,
            r.headers@ == seq![error_content_type()],
            r.body@ == vstd::utf8::encode_utf8(self.spec_message()),
            r.wf(),
    {
        let msg = self.message();
        error_response_text(self.status_code(), &msg)
    }
}

impl Error {
    /// The error as a plain-text response with its status code.
    pub fn error_response(&self) -> (r: HttpResponse)
        requires
            100 <= self.status < 1000,
        ensures
            r.status_code == self.status,
            r.version == Version::Http11,
            r.headers@ == seq![error_content_type()],
            r.body@ == vstd::utf8::encode_utf8(self.message@),
            r.wf(),
    {
        error_response_text(self.status_code(), &self.message)
    }
}

/// A plain-text response carrying the given status and text.
pub fn error_response_text(status: u16, message: &String) -> (r: HttpResponse)
    requires
        100 <= status < 1000,
    ensures
        r.status_code == status,
        r.version == Version::Http11,
        r.headers@ == seq![error_content_type()],
        r.body@ == vstd::utf8::encode_utf8(message@),
        r.wf(),
{
    let mut resp = HttpResponse::new(status);
    proof {
        reveal_strlit("Content-Type");
        reveal_strlit("text/plain; charset=utf-8");
        assert(header_name_wf("Content-Type"@));
        assert(header_value_wf("text/plain; charset=utf-8"@));
    }
    resp.insert_header("Content-Type".to_owned(), "text/plain; charset=utf-8".to_owned());
    let body = message.as_str().as_bytes_vec();
    proof {
        assert(crate::headers::strip_key(
            Seq::<(Seq<char>, Seq<char>)>::empty(),
            lower_ascii("Content-Type"@),
        ) =~= Seq::<(Seq<char>, Seq<char>)>::empty());
        assert(resp.headers@ =~= seq![error_content_type()]);
    }
    resp.set_body(body)
}

} // verus!
