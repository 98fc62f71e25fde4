//! Compression negotiation and the response transform it selects.
//!
//! The `Accept-Encoding` header is read into encodings with q-values
//! (kept in thousandths, which is exact for the three decimal places
//! the protocol allows); the supported encoding with the highest
//! q-value wins, earlier entries winning ties.  The chosen transform
//! itself is the work of an outside compression library, reached
//! through trusted wrappers whose results this module only names.

use vstd::prelude::*;

use crate::connection::{all_digits, dec_val, strip_spaces_end};
use crate::headers::{header_name_wf, header_value_wf};
use crate::response::HttpResponse;
use crate::text::{ascii_bytes_of_str, ascii_chars, bytes_of_chars, lower_ascii};
use crate::wire::{find_byte, split_byte, split_on_byte, strip_spaces};

verus! {

broadcast use vstd::utf8::char_u32_cast;

/// A content encoding this module can negotiate.
#[derive(Debug, Clone, Copy, PartialEq, Eq, Structural)]
pub enum CompressionType {
    /// The gzip format.
    Gzip,
    /// The raw deflate format.
    Deflate,
}

/// The marker that asks a middleware stack for compression.
#[derive(Debug, Clone, Copy)]
pub struct CompressionLayer;

impl CompressionLayer {
    /// Creates the layer.
    pub fn new() -> (r: CompressionLayer) {
        CompressionLayer
    }
}

/// A service wrapped with compression of its responses.
#[derive(Debug, Clone)]
pub struct CompressionMiddleware<S> {
    /// The service whose responses are compressed.
    pub inner: S,
}

/// The gzip stream of the bytes.  The outside library computes it; this
/// name only promises that equal bytes give equal streams.
pub uninterp spec fn gzip_of(data: Seq<u8>) -> Seq<u8>;

/// The raw deflate stream of the bytes, named the same way.
pub uninterp spec fn deflate_of(data: Seq<u8>) -> Seq<u8>;

/// Relies on flate2's GzEncoder at the default level: it writes a fixed
/// header (zero timestamp, fixed system byte), so the stream depends on
/// the input bytes alone; writing into a vector cannot fail.
#[verifier::external_body]
fn gzip_compress(data: &Vec<u8>) -> (r: Vec<u8>)
    ensures
        r@ == gzip_of(data@),
{
    let mut encoder = flate2::write::GzEncoder::new(Vec::new(), flate2::Compression::default());
    std::io::Write::write_all(&mut encoder, data).unwrap();
    encoder.finish().unwrap()
}

/// Relies on flate2's DeflateEncoder at the default level: the stream
/// depends on the input bytes alone; writing into a vector cannot fail.
#[verifier::external_body]
fn deflate_compress(data: &Vec<u8>) -> (r: Vec<u8>)
    ensures
        r@ == deflate_of(data@),
{
    let mut encoder = flate2::write::DeflateEncoder::new(
        Vec::new(),
        flate2::Compression::default(),
    );
    std::io::Write::write_all(&mut encoder, data).unwrap();
    encoder.finish().unwrap()
}

/// Leading and trailing spaces dropped.
pub open spec fn trim(s: Seq<u8>) -> Seq<u8> {
    strip_spaces_end(strip_spaces(s))
}

/// The encoding a token names: `gzip`, `deflate`, or `*` (read as
/// gzip); anything else is unknown.
pub open spec fn enc_of(tok: Seq<u8>) -> Option<CompressionType> {
    if tok == seq![103u8, 122, 105, 112] {
        Some(CompressionType::Gzip)
    } else if tok == seq![100u8, 101, 102, 108, 97, 116, 101] {
        Some(CompressionType::Deflate)
    } else if tok == seq![42u8] {
        Some(CompressionType::Gzip)
    } else {
        None
    }
}

/// The fraction digits scaled to thousandths.
pub open spec fn frac_thousandths(fp: Seq<u8>) -> int {
    if fp.len() == 1 {
        dec_val(fp) * 100
    } else if fp.len() == 2 {
        dec_val(fp) * 10
    } else {
        dec_val(fp)
    }
}

/// A q-value read in thousandths: digits, with an optional point and up
/// to three fraction digits.
pub open spec fn q_parse(s: Seq<u8>) -> Option<u32> {
    match find_byte(s, 46) {
        None => if s.len() > 0 && s.len() <= 4 && all_digits(s) {
            Some((dec_val(s) * 1000) as u32)
        } else {
            None
        },
        Some(d) => {
            let ip = s.subrange(0, d);
            let fp = s.skip(d + 1);
            if ip.len() <= 4 && all_digits(ip) && 1 <= fp.len() <= 3 && all_digits(fp) {
                Some((dec_val(ip) * 1000 + frac_thousandths(fp)) as u32)
            } else {
                None
            }
        },
    }
}

/// The quality the tokens from `i` on declare: the first `q=` token
/// that reads as a number; one thousand (that is, one) when none does.
pub open spec fn q_from(toks: Seq<Seq<u8>>, i: int) -> u32
    decreases toks.len() - i,
{
    if i < 0 || i >= toks.len() {
        1000u32
    } else {
        let t = trim(toks[i]);
        if t.len() >= 2 && t[0] == 113 && t[1] == 61 {
            match q_parse(t.skip(2)) {
                Some(q) => q,
                None => q_from(toks, i + 1),
            }
        } else {
            q_from(toks, i + 1)
        }
    }
}

/// The encoding and quality one comma-part declares, if its first
/// token names a known encoding.
pub open spec fn entry_of(part: Seq<u8>) -> Option<(CompressionType, u32)> {
    let toks = split_byte(trim(part), 59);
    match enc_of(toks[0]) {
        Some(e) => Some((e, q_from(toks, 1))),
        None => None,
    }
}

/// The declared encodings of the parts from `i` on, in order.
pub open spec fn entries_from(parts: Seq<Seq<u8>>, i: int) -> Seq<(CompressionType, u32)>
    decreases parts.len() - i,
{
    if i < 0 || i >= parts.len() {
        Seq::empty()
    } else {
        match entry_of(parts[i]) {
            Some(p) => seq![p] + entries_from(parts, i + 1),
            None => entries_from(parts, i + 1),
        }
    }
}

/// The encodings an `Accept-Encoding` text declares, with their
/// q-values, in header order.
pub open spec fn spec_parse_accept(s: Seq<u8>) -> Seq<(CompressionType, u32)> {
    entries_from(split_byte(s, 44), 0)
}

/// Stable insertion into a descending list: the entry lands after every
/// entry whose q-value is at least its own.
pub open spec fn insert_desc(
    s: Seq<(CompressionType, u32)>,
    x: (CompressionType, u32),
) -> Seq<(CompressionType, u32)>
    decreases s.len(),
{
    if s.len() == 0 {
        seq![x]
    } else if s.last().1 >= x.1 {
        s.push(x)
    } else {
        insert_desc(s.drop_last(), x).push(s.last())
    }
}

/// The entries sorted by q-value descending; entries of equal q keep
/// their order (a stable sort).
pub open spec fn sort_desc(s: Seq<(CompressionType, u32)>) -> Seq<(CompressionType, u32)>
    decreases s.len(),
{
    if s.len() == 0 {
        Seq::empty()
    } else {
        insert_desc(sort_desc(s.drop_last()), s.last())
    }
}

/// Descending by q-value.
pub open spec fn sorted_desc_order(s: Seq<(CompressionType, u32)>) -> bool {
    forall|i: int, j: int| 0 <= i < j < s.len() ==> (#[trigger] s[i]).1 >= (#[trigger] s[j]).1
}

/// Where the entry lands, the insertion is a splice at that position.
proof fn lemma_insert_desc_at(s: Seq<(CompressionType, u32)>, x: (CompressionType, u32), p: int)
    requires
        0 <= p <= s.len(),
        forall|j: int| p <= j < s.len() ==> (#[trigger] s[j]).1 < x.1,
        p > 0 ==> s[p - 1].1 >= x.1,
    ensures
        insert_desc(s, x) == s.take(p) + seq![x] + s.skip(p),
    decreases s.len(),
{
    if p == s.len() {
        if s.len() == 0 {
            assert(insert_desc(s, x) =~= s.take(p) + seq![x] + s.skip(p));
        } else {
            assert(s.last().1 >= x.1);
            assert(s.take(p) + seq![x] + s.skip(p) =~= s.push(x));
        }
    } else {
        assert((s[s.len() - 1]).1 < x.1);
        assert forall|j: int| p <= j < s.drop_last().len() implies (#[trigger] s.drop_last()[j]).1
            < x.1 by {
            assert(s.drop_last()[j] == s[j]);
        }
        if p > 0 {
            assert(s.drop_last()[p - 1] == s[p - 1]);
        }
        lemma_insert_desc_at(s.drop_last(), x, p);
        assert((s.drop_last().take(p) + seq![x] + s.drop_last().skip(p)).push(s.last()) =~= s.take(
            p,
        ) + seq![x] + s.skip(p));
    }
}

/// Inserts an entry into a descending list, keeping it descending.
fn insert_sorted(v: &mut Vec<(CompressionType, u32)>, x: (CompressionType, u32))
    requires
        sorted_desc_order(old(v)@),
    ensures
        final(v)@ == insert_desc(old(v)@, x),
        sorted_desc_order(final(v)@),
{
    let ghost orig = v@;
    let mut pos = v.len();
    while pos > 0 && v[pos - 1].1 < x.1
        invariant
            pos <= orig.len(),
            v@ == orig,
            forall|j: int| pos <= j < orig.len() ==> (#[trigger] orig[j]).1 < x.1,
        decreases pos,
    {
        pos = pos - 1;
    }
    v.insert(pos, x);
    proof {
        lemma_insert_desc_at(orig, x, pos as int);
        assert(v@ =~= orig.take(pos as int) + seq![x] + orig.skip(pos as int));
        assert forall|i: int, j: int| 0 <= i < j < v@.len() implies (#[trigger] v@[i]).1 >= (
        #[trigger] v@[j]).1 by {
            let p = pos as int;
            if i < p {
                assert(v@[i] == orig[i]);
            } else if i == p {
                assert(v@[i] == x);
            } else {
                assert(v@[i] == orig[i - 1]);
            }
            if j < p {
                assert(v@[j] == orig[j]);
            } else if j == p {
                assert(v@[j] == x);
            } else {
                assert(v@[j] == orig[j - 1]);
            }
            if i < p && p > 0 {
                assert(orig[i].1 >= orig[p - 1].1);
            }
        }
    }
}

/// Reads an `Accept-Encoding` header value; the entries come back
/// sorted by q-value descending, entries of equal q in header order.
pub fn parse_accept_encoding(header_value: &str) -> (r: Vec<(CompressionType, u32)>)
    requires
        ascii_chars(header_value@),
    ensures
        r@ == sort_desc(spec_parse_accept(bytes_of_chars(header_value@))),
        sorted_desc_order(r@),
{
    let bytes = ascii_bytes_of_str(header_value);
    let parts = split_on_byte(bytes.as_slice(), 44);
    let ghost pseq = split_byte(bytes@, 44);
    let mut r: Vec<(CompressionType, u32)> = Vec::new();
    let mut i: usize = 0;
    while i < parts.len()
        invariant
            i <= parts@.len(),
            parts@.len() == pseq.len(),
            forall|j: int| 0 <= j < parts@.len() ==> (#[trigger] parts@[j])@ == pseq[j],
            pseq == split_byte(bytes@, 44),
            bytes@ == bytes_of_chars(header_value@),
            r@ + entries_from(pseq, i as int) == spec_parse_accept(bytes_of_chars(header_value@)),
        decreases parts@.len() - i,
    {
        let ghost r0 = r@;
        match part_entry(&parts[i]) {
            Some(p) => {
                r.push(p);
                proof {
                    assert(r0 + (seq![p] + entries_from(pseq, i + 1)) =~= r@ + entries_from(
                        pseq,
                        i + 1,
                    ));
                }
            },
            None => {},
        }
        i = i + 1;
    }
    proof {
        assert(entries_from(pseq, i as int) =~= Seq::<(CompressionType, u32)>::empty());
        assert(r@ + entries_from(pseq, i as int) =~= r@);
    }
    let mut sorted: Vec<(CompressionType, u32)> = Vec::new();
    let mut k: usize = 0;
    while k < r.len()
        invariant
            k <= r@.len(),
            sorted@ == sort_desc(r@.subrange(0, k as int)),
            sorted_desc_order(sorted@),
        decreases r@.len() - k,
    {
        insert_sorted(&mut sorted, r[k]);
        proof {
            assert(r@.subrange(0, k + 1).drop_last() =~= r@.subrange(0, k as int));
            assert(r@.subrange(0, k + 1).last() == r@[k as int]);
        }
        k = k + 1;
    }
    proof {
        assert(r@.subrange(0, r@.len() as int) =~= r@);
    }
    sorted
}

/// Reads one comma-part.
fn part_entry(part: &Vec<u8>) -> (r: Option<(CompressionType, u32)>)
    ensures
        r == entry_of(part@),
{
    let start = crate::wire::skip_spaces(part, 0);
    let end = crate::connection::skip_spaces_end(part, start);
    let trimmed = vstd::slice::slice_to_vec(
        vstd::slice::slice_subrange(part.as_slice(), start, end),
    );
    proof {
        assert(part@.skip(0) =~= part@);
        assert(trimmed@ =~= part@.subrange(start as int, end as int));
        assert(trimmed@ == trim(part@));
    }
    let toks = split_on_byte(trimmed.as_slice(), 59);
    let ghost tseq = split_byte(trim(part@), 59);
    proof {
        assert(tseq.len() >= 1) by {
            match find_byte(trim(part@), 59) {
                Some(x) => {},
                None => {},
            }
        }
    }
    let e = match token_encoding(&toks[0]) {
        None => {
            return None;
        },
        Some(e) => e,
    };
    let mut q: u32 = 1000;
    let mut found = false;
    let mut i: usize = 1;
    while i < toks.len() && !found
        invariant
            1 <= i <= toks@.len(),
            toks@.len() == tseq.len(),
            forall|j: int| 0 <= j < toks@.len() ==> (#[trigger] toks@[j])@ == tseq[j],
            !found ==> q == 1000 && q_from(tseq, i as int) == q_from(tseq, 1),
            found ==> q == q_from(tseq, 1),
        decreases toks@.len() - i,
    {
        let ts = crate::wire::skip_spaces(&toks[i], 0);
        let te = crate::connection::skip_spaces_end(&toks[i], ts);
        let tt = vstd::slice::slice_to_vec(
            vstd::slice::slice_subrange(toks[i].as_slice(), ts, te),
        );
        proof {
            assert(toks@[i as int]@.skip(0) =~= toks@[i as int]@);
            assert(tt@ =~= toks@[i as int]@.subrange(ts as int, te as int));
            assert(tt@ == trim(tseq[i as int]));
        }
        if tt.len() >= 2 && tt[0] == 113 && tt[1] == 61 {
            let qs = vstd::slice::slice_to_vec(
                vstd::slice::slice_subrange(tt.as_slice(), 2, tt.len()),
            );
            proof {
                assert(qs@ =~= tt@.skip(2));
            }
            match parse_q(&qs) {
                Some(v) => {
                    proof {
                        assert(q_from(tseq, i as int) == v);
                    }
                    q = v;
                    found = true;
                },
                None => {
                    proof {
                        assert(q_from(tseq, i as int) == q_from(tseq, i + 1));
                    }
                },
            }
        } else {
            proof {
                assert(q_from(tseq, i as int) == q_from(tseq, i + 1));
            }
        }
        i = i + 1;
    }
    proof {
        if !found {
            assert(q_from(tseq, i as int) == 1000);
        }
        assert(q == q_from(tseq, 1));
    }
    Some((e, q))
}

/// The encoding a token names.
fn token_encoding(tok: &Vec<u8>) -> (r: Option<CompressionType>)
    ensures
        r == enc_of(tok@),
{
    let n = tok.len();
    if n == 4 && tok[0] == 103 && tok[1] == 122 && tok[2] == 105 && tok[3] == 112 {
        proof {
            assert(tok@ =~= seq![103u8, 122, 105, 112]);
        }
        return Some(CompressionType::Gzip);
    }
    if n == 7 && tok[0] == 100 && tok[1] == 101 && tok[2] == 102 && tok[3] == 108 && tok[4] == 97
        && tok[5] == 116 && tok[6] == 101 {
        proof {
            assert(tok@ =~= seq![100u8, 101, 102, 108, 97, 116, 101]);
        }
        return Some(CompressionType::Deflate);
    }
    if n == 1 && tok[0] == 42 {
        proof {
            assert(tok@ =~= seq![42u8]);
        }
        return Some(CompressionType::Gzip);
    }
    proof {
        assert(tok@ != seq![103u8, 122, 105, 112]);
        assert(tok@ != seq![100u8, 101, 102, 108, 97, 116, 101]);
        assert(tok@ != seq![42u8]);
    }
    None
}

/// Reads a q-value in thousandths.
fn parse_q(s: &Vec<u8>) -> (r: Option<u32>)
    ensures
        r == q_parse(s@),
{
    match crate::request::find_byte_in(s, 46) {
        None => {
            if s.len() == 0 || s.len() > 4 {
                return None;
            }
            proof {
                assert(s@.subrange(0, s@.len() as int) =~= s@);
            }
            match small_dec(s, 0, s.len()) {
                Some(v) => Some(v * 1000),
                None => None,
            }
        },
        Some(d) => {
            proof {
                crate::wire::lemma_find_byte(s@, 46);
                assert(s@.subrange(0, d as int).len() == d as int);
                assert(s@.skip(d + 1).len() == s@.len() - d - 1);
            }
            let n = s.len();
            if d > 4 || n - d - 1 < 1 || n - d - 1 > 3 {
                return None;
            }
            let ip = match small_dec(s, 0, d) {
                Some(v) => v,
                None => {
                    return None;
                },
            };
            proof {
                assert(s@.subrange(d + 1, n as int) =~= s@.skip(d + 1));
            }
            let fp = match small_dec(s, d + 1, n) {
                Some(v) => v,
                None => {
                    return None;
                },
            };
            let flen = n - d - 1;
            proof {
                lemma_dec_digits_bound(s@.skip(d + 1));
                assert(ten_to(0) == 1 && ten_to(1) == 10 && ten_to(2) == 100 && ten_to(3)
                    == 1000);
                assert(fp <= 999);
            }
            let scaled: u32 = if flen == 1 {
                fp * 100
            } else if flen == 2 {
                fp * 10
            } else {
                fp
            };
            proof {
                assert(scaled == frac_thousandths(s@.skip(d + 1)));
            }
            Some(ip * 1000 + scaled)
        },
    }
}

/// Ten to a small power.
pub open spec fn ten_to(k: nat) -> int
    decreases k,
{
    if k == 0 {
        1
    } else {
        10 * ten_to((k - 1) as nat)
    }
}

/// Digit text spells less than ten to its length.
proof fn lemma_dec_digits_bound(s: Seq<u8>)
    requires
        all_digits(s),
    ensures
        0 <= dec_val(s) < ten_to(s.len()),
    decreases s.len(),
{
    if s.len() > 0 {
        assert(all_digits(s.drop_last())) by {
            assert forall|j: int| 0 <= j < s.drop_last().len() implies crate::connection::digit_byte(
                #[trigger] s.drop_last()[j],
            ) by {
                assert(s.drop_last()[j] == s[j]);
            }
        }
        lemma_dec_digits_bound(s.drop_last());
        assert((s[s.len() - 1]) >= 48 && (s[s.len() - 1]) <= 57);
    }
}

/// Reads up to four digit bytes of a range as a number.
fn small_dec(s: &Vec<u8>, from: usize, to: usize) -> (r: Option<u32>)
    requires
        from <= to <= s@.len(),
        to - from <= 4,
    ensures
        match r {
            Some(v) => all_digits(s@.subrange(from as int, to as int)) && v == dec_val(
                s@.subrange(from as int, to as int),
            ) && v <= 9999,
            None => !all_digits(s@.subrange(from as int, to as int)),
        },
{
    let mut acc: u32 = 0;
    let mut i: usize = from;
    while i < to
        invariant
            from <= i <= to <= s@.len(),
            to - from <= 4,
            all_digits(s@.subrange(from as int, i as int)),
            acc == dec_val(s@.subrange(from as int, i as int)),
        decreases to - i,
    {
        let b = s[i];
        if b < 48 || b > 57 {
            proof {
                assert(s@.subrange(from as int, to as int)[i - from] == s@[i as int]);
                assert(!crate::connection::digit_byte(s@[i as int]));
            }
            return None;
        }
        proof {
            lemma_dec_digits_bound(s@.subrange(from as int, i as int));
            assert(ten_to(0) == 1 && ten_to(1) == 10 && ten_to(2) == 100 && ten_to(3) == 1000);
            assert(acc <= 999);
            assert(s@.subrange(from as int, i + 1).drop_last() =~= s@.subrange(
                from as int,
                i as int,
            ));
            assert(s@.subrange(from as int, i + 1).last() == s@[i as int]);
            assert forall|j: int| 0 <= j < i + 1 - from implies crate::connection::digit_byte(
                #[trigger] s@.subrange(from as int, i + 1)[j],
            ) by {
                if j < i - from {
                    assert(s@.subrange(from as int, i + 1)[j] == s@.subrange(
                        from as int,
                        i as int,
                    )[j]);
                }
            }
        }
        acc = acc * 10 + ((b - 48) as u32);
        i = i + 1;
    }
    proof {
        lemma_dec_digits_bound(s@.subrange(from as int, to as int));
        assert(ten_to(0) == 1 && ten_to(1) == 10 && ten_to(2) == 100 && ten_to(3) == 1000
            && ten_to(4) == 10000);
        assert(dec_val(s@.subrange(from as int, to as int)) == acc);
    }
    Some(acc)
}

/// Whether a list of supported encodings holds one.
pub open spec fn supports(server: Seq<CompressionType>, e: CompressionType) -> bool {
    exists|i: int| 0 <= i < server.len() && server[i] == e
}

/// The best choice scanning the client entries from `i` on, given the
/// best supported entry seen so far: a supported entry with a strictly
/// higher q-value displaces it.
pub open spec fn best_from(
    client: Seq<(CompressionType, u32)>,
    server: Seq<CompressionType>,
    i: int,
    best: Option<(CompressionType, u32)>,
) -> Option<CompressionType>
    decreases client.len() - i,
{
    if i < 0 || i >= client.len() {
        match best {
            Some(p) => Some(p.0),
            None => None,
        }
    } else {
        let keep = if supports(server, client[i].0) && (best is None || client[i].1
            > best->Some_0.1) {
            Some(client[i])
        } else {
            best
        };
        best_from(client, server, i + 1, keep)
    }
}

/// The encoding negotiation picks: the supported client entry with the
/// highest q-value, the earliest among ties; nothing when no entry is
/// supported.
pub open spec fn spec_negotiate(
    client: Seq<(CompressionType, u32)>,
    server: Seq<CompressionType>,
) -> Option<CompressionType> {
    best_from(client, server, 0, None)
}

/// Picks the encoding to use.
pub fn negotiate_encoding(
    client_encodings: &Vec<(CompressionType, u32)>,
    server_encodings: &Vec<CompressionType>,
) -> (r: Option<CompressionType>)
    ensures
        r == spec_negotiate(client_encodings@, server_encodings@),
{
    let mut best: Option<(CompressionType, u32)> = None;
    let mut i: usize = 0;
    while i < client_encodings.len()
        invariant
            i <= client_encodings@.len(),
            best_from(client_encodings@, server_encodings@, i as int, best) == spec_negotiate(
                client_encodings@,
                server_encodings@,
            ),
        decreases client_encodings@.len() - i,
    {
        let e = client_encodings[i].0;
        let q = client_encodings[i].1;
        let sup = contains_encoding(server_encodings, e);
        let better = match best {
            None => sup,
            Some(p) => sup && q > p.1,
        };
        if better {
            best = Some((e, q));
        }
        i = i + 1;
    }
    match best {
        Some(p) => Some(p.0),
        None => None,
    }
}

/// Whether the list holds the encoding.
fn contains_encoding(list: &Vec<CompressionType>, e: CompressionType) -> (r: bool)
    ensures
        r == supports(list@, e),
{
    let mut i: usize = 0;
    while i < list.len()
        invariant
            i <= list@.len(),
            forall|j: int| 0 <= j < i ==> list@[j] != e,
        decreases list@.len() - i,
    {
        if list[i] == e {
            return true;
        }
        i = i + 1;
    }
    false
}


/// The wire token a chosen encoding is announced with.
pub open spec fn enc_value(e: CompressionType) -> Seq<char> {
    match e {
        CompressionType::Gzip => "gzip"@,
        CompressionType::Deflate => "deflate"@,
    }
}

/// The encoding chosen for a request that sent this `Accept-Encoding`
/// value, if any.
pub open spec fn spec_choice(accept: Option<Seq<char>>) -> Option<CompressionType> {
    match accept {
        Some(h) => spec_negotiate(
            sort_desc(spec_parse_accept(bytes_of_chars(h))),
            seq![CompressionType::Gzip, CompressionType::Deflate],
        ),
        None => None,
    }
}

/// The body after the chosen transform.
pub open spec fn spec_compressed_body(body: Seq<u8>, choice: Option<CompressionType>) -> Seq<u8> {
    match choice {
        Some(CompressionType::Gzip) => gzip_of(body),
        Some(CompressionType::Deflate) => deflate_of(body),
        None => body,
    }
}

/// Applies compression negotiation to a response: the body is encoded
/// with the chosen encoding, `Content-Encoding` announces it, and
/// `Vary: Accept-Encoding` is stamped either way.
pub fn apply_compression(response: HttpResponse, accept_encoding: Option<&String>) -> (r:
    HttpResponse)
    requires
        response.wf(),
        match accept_encoding {
            Some(h) => ascii_chars(h@),
            None => true,
        },
    ensures
        r.wf(),
        r.status_code == response.status_code,
        r.version == response.version,
        ({
            let choice = spec_choice(
                match accept_encoding {
                    Some(h) => Some(h@),
                    None => None,
                },
            );
            &&& r.body@ == spec_compressed_body(response.body@, choice)
            &&& r.headers@ == (match choice {
                Some(e) => crate::headers::strip_key(
                    crate::headers::strip_key(
                        response.headers@,
                        lower_ascii("Content-Encoding"@),
                    ).push((lower_ascii("Content-Encoding"@), enc_value(e))),
                    lower_ascii("Vary"@),
                ).push((lower_ascii("Vary"@), "Accept-Encoding"@)),
                None => crate::headers::strip_key(response.headers@, lower_ascii("Vary"@)).push(
                    (lower_ascii("Vary"@), "Accept-Encoding"@),
                ),
            })
        }),
{
    let choice = match accept_encoding {
        Some(h) => {
            let client = parse_accept_encoding(h.as_str());
            let mut server: Vec<CompressionType> = Vec::new();
            server.push(CompressionType::Gzip);
            server.push(CompressionType::Deflate);
            proof {
                assert(server@ =~= seq![CompressionType::Gzip, CompressionType::Deflate]);
            }
            negotiate_encoding(&client, &server)
        },
        None => None,
    };
    let HttpResponse { body, status_code, headers, version } = response;
    let mut resp = match choice {
        Some(CompressionType::Gzip) => {
            let compressed = gzip_compress(&body);
            let mut resp = HttpResponse { body: compressed, status_code, headers, version };
            proof {
                reveal_strlit("Content-Encoding");
                reveal_strlit("gzip");
                assert(header_name_wf("Content-Encoding"@));
                assert(header_value_wf("gzip"@));
            }
            resp.insert_header("Content-Encoding".to_owned(), "gzip".to_owned());
            resp
        },
        Some(CompressionType::Deflate) => {
            let compressed = deflate_compress(&body);
            let mut resp = HttpResponse { body: compressed, status_code, headers, version };
            proof {
                reveal_strlit("Content-Encoding");
                reveal_strlit("deflate");
                assert(header_name_wf("Content-Encoding"@));
                assert(header_value_wf("deflate"@));
            }
            resp.insert_header("Content-Encoding".to_owned(), "deflate".to_owned());
            resp
        },
        None => HttpResponse { body, status_code, headers, version },
    };
    proof {
        reveal_strlit("Vary");
        reveal_strlit("Accept-Encoding");
        assert(header_name_wf("Vary"@));
        assert(header_value_wf("Accept-Encoding"@));
    }
    resp.insert_header("Vary".to_owned(), "Accept-Encoding".to_owned());
    resp
}

} // verus!
