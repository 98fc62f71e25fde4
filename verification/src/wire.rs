//! Byte-level helpers shared by request parsing and response parsing:
//! finding line ends and the head terminator, splitting lines, stripping
//! spaces.

use vstd::prelude::*;
use vstd::slice::{slice_subrange, slice_to_vec};

verus! {

/// A carriage return/line feed pair starts at `i`.
pub open spec fn crlf_at(s: Seq<u8>, i: int) -> bool {
    0 <= i && i + 2 <= s.len() && s[i] == 13 && s[i + 1] == 10
}

/// The head terminator (two line ends in a row) starts at `i`.
pub open spec fn crlf2_at(s: Seq<u8>, i: int) -> bool {
    0 <= i && i + 4 <= s.len() && s[i] == 13 && s[i + 1] == 10 && s[i + 2] == 13 && s[i + 3] == 10
}

/// The first line end, if any.
pub open spec fn first_crlf(s: Seq<u8>) -> Option<int>
    decreases s.len(),
{
    if s.len() < 2 {
        None
    } else if s[0] == 13 && s[1] == 10 {
        Some(0)
    } else {
        match first_crlf(s.skip(1)) {
            Some(i) => Some(i + 1),
            None => None,
        }
    }
}

/// `first_crlf` is the first position where a line end starts.
pub proof fn lemma_first_crlf(s: Seq<u8>)
    ensures
        match first_crlf(s) {
            Some(i) => crlf_at(s, i) && (forall|j: int| 0 <= j < i ==> !crlf_at(s, j)),
            None => forall|j: int| !crlf_at(s, j),
        },
    decreases s.len(),
{
    if s.len() < 2 {
    } else if s[0] == 13 && s[1] == 10 {
    } else {
        lemma_first_crlf(s.skip(1));
        assert forall|j: int| crlf_at(s.skip(1), j) == crlf_at(s, j + 1) by {
            if 0 <= j && j + 2 <= s.skip(1).len() {
                assert(s.skip(1)[j] == s[j + 1]);
                assert(s.skip(1)[j + 1] == s[j + 2]);
            }
        }
        match first_crlf(s.skip(1)) {
            Some(i) => {
                assert(crlf_at(s, i + 1));
                assert forall|j: int| 0 <= j < i + 1 implies !crlf_at(s, j) by {
                    if j > 0 {
                        assert(!crlf_at(s.skip(1), j - 1));
                    }
                }
            },
            None => {
                assert forall|j: int| !crlf_at(s, j) by {
                    if j > 0 {
                        assert(!crlf_at(s.skip(1), j - 1));
                    }
                }
            },
        }
    }
}

/// The first head terminator, if any.
pub open spec fn spec_headers_end(s: Seq<u8>) -> Option<int>
    decreases s.len(),
{
    if s.len() < 4 {
        None
    } else if s[0] == 13 && s[1] == 10 && s[2] == 13 && s[3] == 10 {
        Some(0)
    } else {
        match spec_headers_end(s.skip(1)) {
            Some(i) => Some(i + 1),
            None => None,
        }
    }
}

/// `spec_headers_end` is the first position where the terminator starts.
pub proof fn lemma_headers_end(s: Seq<u8>)
    ensures
        match spec_headers_end(s) {
            Some(i) => crlf2_at(s, i) && (forall|j: int| 0 <= j < i ==> !crlf2_at(s, j)),
            None => forall|j: int| !crlf2_at(s, j),
        },
    decreases s.len(),
{
    if s.len() < 4 {
    } else if s[0] == 13 && s[1] == 10 && s[2] == 13 && s[3] == 10 {
    } else {
        lemma_headers_end(s.skip(1));
        assert forall|j: int| crlf2_at(s.skip(1), j) == crlf2_at(s, j + 1) by {
            if 0 <= j && j + 4 <= s.skip(1).len() {
                assert(s.skip(1)[j] == s[j + 1]);
                assert(s.skip(1)[j + 1] == s[j + 2]);
                assert(s.skip(1)[j + 2] == s[j + 3]);
                assert(s.skip(1)[j + 3] == s[j + 4]);
            }
        }
        match spec_headers_end(s.skip(1)) {
            Some(i) => {
                assert(crlf2_at(s, i + 1));
                assert forall|j: int| 0 <= j < i + 1 implies !crlf2_at(s, j) by {
                    if j > 0 {
                        assert(!crlf2_at(s.skip(1), j - 1));
                    }
                }
            },
            None => {
                assert forall|j: int| !crlf2_at(s, j) by {
                    if j > 0 {
                        assert(!crlf2_at(s.skip(1), j - 1));
                    }
                }
            },
        }
    }
}

/// The first occurrence of a byte, if any.
pub open spec fn find_byte(s: Seq<u8>, b: u8) -> Option<int>
    decreases s.len(),
{
    if s.len() == 0 {
        None
    } else if s[0] == b {
        Some(0)
    } else {
        match find_byte(s.skip(1), b) {
            Some(i) => Some(i + 1),
            None => None,
        }
    }
}

/// `find_byte` is the first position holding the byte.
pub proof fn lemma_find_byte(s: Seq<u8>, b: u8)
    ensures
        match find_byte(s, b) {
            Some(i) => 0 <= i < s.len() && s[i] == b && (forall|j: int|
                0 <= j < i ==> s[j] != b),
            None => forall|j: int| 0 <= j < s.len() ==> s[j] != b,
        },
    decreases s.len(),
{
    if s.len() == 0 {
    } else if s[0] == b {
    } else {
        lemma_find_byte(s.skip(1), b);
        assert forall|j: int| 0 <= j < s.skip(1).len() implies s.skip(1)[j] == s[j + 1] by {}
        match find_byte(s.skip(1), b) {
            Some(i) => {
                assert(s.skip(1)[i] == s[i + 1]);
                assert forall|j: int| 0 <= j < i + 1 implies s[j] != b by {
                    if j > 0 {
                        assert(s.skip(1)[j - 1] == s[j]);
                    }
                }
            },
            None => {
                assert forall|j: int| 0 <= j < s.len() implies s[j] != b by {
                    if j > 0 {
                        assert(s.skip(1)[j - 1] == s[j]);
                    }
                }
            },
        }
    }
}

/// The lines of a head: text between line ends, the last line unclosed.
pub open spec fn split_lines(s: Seq<u8>) -> Seq<Seq<u8>>
    decreases s.len(),
{
    match first_crlf(s) {
        None => seq![s],
        Some(i) => if 0 <= i && i + 2 <= s.len() {
            seq![s.subrange(0, i)] + split_lines(s.skip(i + 2))
        } else {
            seq![s]
        },
    }
}

/// The text with its leading spaces dropped.
pub open spec fn strip_spaces(s: Seq<u8>) -> Seq<u8>
    decreases s.len(),
{
    if s.len() > 0 && s[0] == 32 {
        strip_spaces(s.skip(1))
    } else {
        s
    }
}

/// Finds where the head ends: the start of the first blank line, if one
/// has arrived.
pub fn find_headers_end(buffer: &[u8]) -> (r: Option<usize>)
    ensures
        match r {
            Some(i) => spec_headers_end(buffer@) == Some(i as int),
            None => spec_headers_end(buffer@) is None,
        },
{
    proof {
        lemma_headers_end(buffer@);
    }
    let n = buffer.len();
    if n < 4 {
        return None;
    }
    let mut i: usize = 0;
    while i <= n - 4
        invariant
            4 <= n,
            i <= n,
            n == buffer@.len(),
            forall|j: int| 0 <= j < i ==> !crlf2_at(buffer@, j),
        decreases n - i,
    {
        if buffer[i] == 13 && buffer[i + 1] == 10 && buffer[i + 2] == 13 && buffer[i + 3] == 10 {
            proof {
                lemma_headers_end(buffer@);
                assert(crlf2_at(buffer@, i as int));
                match spec_headers_end(buffer@) {
                    Some(k) => {
                        if k < i {
                            assert(!crlf2_at(buffer@, k));
                        }
                        if k > i {
                            assert(!crlf2_at(buffer@, i as int));
                        }
                    },
                    None => {
                        assert(!crlf2_at(buffer@, i as int));
                    },
                }
            }
            return Some(i);
        }
        i = i + 1;
    }
    proof {
        lemma_headers_end(buffer@);
        assert(spec_headers_end(buffer@) is None) by {
            match spec_headers_end(buffer@) {
                Some(k) => {
                    assert(crlf2_at(buffer@, k));
                    assert(!crlf2_at(buffer@, k));
                },
                None => {},
            }
        }
    }
    None
}

/// Finds the first line end at or after `from`.
fn find_crlf_from(s: &[u8], from: usize) -> (r: Option<usize>)
    requires
        from <= s@.len(),
    ensures
        match r {
            Some(j) => from <= j && j + 2 <= s@.len() && first_crlf(s@.skip(from as int)) == Some(
                j - from,
            ),
            None => first_crlf(s@.skip(from as int)) is None,
        },
{
    let ghost rest = s@.skip(from as int);
    proof {
        lemma_first_crlf(rest);
        assert forall|j: int| 0 <= j && j + 2 <= rest.len() implies (crlf_at(rest, j) == crlf_at(
            s@,
            j + from,
        )) by {
            assert(rest[j] == s@[j + from]);
            assert(rest[j + 1] == s@[j + from + 1]);
        }
    }
    let n = s.len();
    if n < 2 || from > n - 2 {
        proof {
            lemma_first_crlf(rest);
            assert forall|j: int| !crlf_at(rest, j) by {}
            match first_crlf(rest) {
                Some(k) => {
                    assert(crlf_at(rest, k));
                },
                None => {},
            }
        }
        return None;
    }
    let mut i: usize = from;
    while i <= n - 2
        invariant
            2 <= n,
            from <= i <= n,
            n == s@.len(),
            rest == s@.skip(from as int),
            forall|j: int| from <= j < i ==> !crlf_at(s@, j),
        decreases n - i,
    {
        if *slice_index_get_u8(s, i) == 13 && *slice_index_get_u8(s, i + 1) == 10 {
            proof {
                lemma_first_crlf(rest);
                assert forall|j: int|
                    0 <= j && j + 2 <= rest.len() implies (crlf_at(rest, j) == crlf_at(
                    s@,
                    j + from,
                )) by {
                    assert(rest[j] == s@[j + from]);
                    assert(rest[j + 1] == s@[j + from + 1]);
                }
                assert(crlf_at(s@, i as int));
                assert(crlf_at(rest, i - from));
                match first_crlf(rest) {
                    Some(k) => {
                        if k < i - from {
                            assert(crlf_at(rest, k));
                            assert(crlf_at(s@, k + from));
                            assert(!crlf_at(s@, k + from));
                        }
                        if k > i - from {
                            assert(!crlf_at(rest, i - from));
                        }
                    },
                    None => {
                        assert(!crlf_at(rest, i - from));
                    },
                }
            }
            return Some(i);
        }
        i = i + 1;
    }
    proof {
        lemma_first_crlf(rest);
        assert forall|j: int| !crlf_at(rest, j) by {
            if 0 <= j && j + 2 <= rest.len() {
                assert(rest[j] == s@[j + from]);
                assert(rest[j + 1] == s@[j + from + 1]);
                assert(!crlf_at(s@, j + from));
            }
        }
        match first_crlf(rest) {
            Some(k) => {
                assert(crlf_at(rest, k));
            },
            None => {},
        }
    }
    None
}

/// Reads one byte of a slice.
fn slice_index_get_u8(s: &[u8], i: usize) -> (r: &u8)
    requires
        i < s@.len(),
    ensures
        *r == s@[i as int],
{
    vstd::slice::slice_index_get(s, i)
}

/// Splits the head into its lines, from position `p` on.
fn split_lines_from(head: &[u8], p: usize) -> (r: Vec<Vec<u8>>)
    requires
        p <= head@.len(),
    ensures
        r@.len() == split_lines(head@.skip(p as int)).len(),
        forall|i: int|
            0 <= i < r@.len() ==> (#[trigger] r@[i])@ == split_lines(head@.skip(p as int))[i],
    decreases head@.len() - p,
{
    let ghost rest = head@.skip(p as int);
    match find_crlf_from(head, p) {
        None => {
            let line = slice_to_vec(slice_subrange(head, p, head.len()));
            let mut r: Vec<Vec<u8>> = Vec::new();
            proof {
                assert(head@.subrange(p as int, head@.len() as int) =~= rest);
            }
            r.push(line);
            r
        },
        Some(j) => {
            let hl = head.len();
            let line = slice_to_vec(slice_subrange(head, p, j));
            let mut r: Vec<Vec<u8>> = Vec::new();
            r.push(line);
            let mut tail = split_lines_from(head, j + 2);
            let ghost tail0 = tail@;
            r.append(&mut tail);
            proof {
                let i = j - p;
                assert(rest.subrange(0, i) =~= head@.subrange(p as int, j as int));
                assert(rest.skip(i + 2) =~= head@.skip(j + 2));
                assert(split_lines(rest) == seq![rest.subrange(0, i)] + split_lines(
                    rest.skip(i + 2),
                ));
                assert forall|x: int| 0 <= x < r@.len() implies (#[trigger] r@[x])@ == split_lines(
                    rest,
                )[x] by {
                    if x == 0 {
                        assert(r@[0] == line);
                        assert(split_lines(rest)[0] == rest.subrange(0, i));
                    } else {
                        assert(r@[x] == tail0[x - 1]);
                        assert(split_lines(rest)[x] == split_lines(rest.skip(i + 2))[x - 1]);
                    }
                }
            }
            r
        },
    }
}

/// Splits a head into its lines.
pub fn head_lines(head: &[u8]) -> (r: Vec<Vec<u8>>)
    ensures
        r@.len() == split_lines(head@).len(),
        forall|i: int| 0 <= i < r@.len() ==> (#[trigger] r@[i])@ == split_lines(head@)[i],
{
    proof {
        assert(head@.skip(0) =~= head@);
    }
    split_lines_from(head, 0)
}

/// Where the leading spaces of a line end.
pub fn skip_spaces(line: &Vec<u8>, from: usize) -> (r: usize)
    requires
        from <= line@.len(),
    ensures
        from <= r <= line@.len(),
        strip_spaces(line@.skip(from as int)) == line@.skip(r as int),
        r < line@.len() ==> line@[r as int] != 32,
    decreases line@.len() - from,
{
    if from < line.len() && line[from] == 32 {
        proof {
            assert(line@.skip(from as int).skip(1) =~= line@.skip(from + 1));
            assert(line@.skip(from as int)[0] == line@[from as int]);
        }
        skip_spaces(line, from + 1)
    } else {
        proof {
            if from < line@.len() {
                assert(line@.skip(from as int)[0] == line@[from as int]);
            }
        }
        from
    }
}


/// The pieces of the text between occurrences of a byte.
pub open spec fn split_byte(s: Seq<u8>, b: u8) -> Seq<Seq<u8>>
    decreases s.len(),
{
    match find_byte(s, b) {
        None => seq![s],
        Some(i) => if 0 <= i && i + 1 <= s.len() {
            seq![s.subrange(0, i)] + split_byte(s.skip(i + 1), b)
        } else {
            seq![s]
        },
    }
}

/// Finds the first occurrence of a byte at or after `from`.
fn find_byte_from(s: &[u8], from: usize, b: u8) -> (r: Option<usize>)
    requires
        from <= s@.len(),
    ensures
        match r {
            Some(j) => from <= j < s@.len() && find_byte(s@.skip(from as int), b) == Some(
                j - from,
            ),
            None => find_byte(s@.skip(from as int), b) is None,
        },
{
    let ghost rest = s@.skip(from as int);
    let n = s.len();
    let mut i: usize = from;
    while i < n
        invariant
            from <= i <= n,
            n == s@.len(),
            rest == s@.skip(from as int),
            forall|j: int| from <= j < i ==> s@[j] != b,
        decreases n - i,
    {
        if *slice_index_get_u8(s, i) == b {
            proof {
                lemma_find_byte(rest, b);
                assert forall|j: int| 0 <= j < rest.len() implies rest[j] == s@[j + from] by {}
                match find_byte(rest, b) {
                    Some(k) => {
                        if k < i - from {
                            assert(rest[k] == b);
                            assert(s@[k + from] == b);
                        }
                        if k > i - from {
                            assert(rest[i - from] != b);
                            assert(s@[i as int] != b);
                        }
                    },
                    None => {
                        assert(rest[i - from] != b);
                    },
                }
            }
            return Some(i);
        }
        i = i + 1;
    }
    proof {
        lemma_find_byte(rest, b);
        assert forall|j: int| 0 <= j < rest.len() implies rest[j] != b by {
            assert(rest[j] == s@[j + from]);
        }
        match find_byte(rest, b) {
            Some(k) => {
                assert(rest[k] == b);
            },
            None => {},
        }
    }
    None
}

/// Splits the text on a byte, from position `p` on.
fn split_byte_from(s: &[u8], p: usize, b: u8) -> (r: Vec<Vec<u8>>)
    requires
        p <= s@.len(),
    ensures
        r@.len() == split_byte(s@.skip(p as int), b).len(),
        forall|i: int|
            0 <= i < r@.len() ==> (#[trigger] r@[i])@ == split_byte(s@.skip(p as int), b)[i],
    decreases s@.len() - p,
{
    let ghost rest = s@.skip(p as int);
    match find_byte_from(s, p, b) {
        None => {
            let piece = slice_to_vec(slice_subrange(s, p, s.len()));
            let mut r: Vec<Vec<u8>> = Vec::new();
            proof {
                assert(s@.subrange(p as int, s@.len() as int) =~= rest);
            }
            r.push(piece);
            r
        },
        Some(j) => {
            let sl = s.len();
            let piece = slice_to_vec(slice_subrange(s, p, j));
            let mut r: Vec<Vec<u8>> = Vec::new();
            r.push(piece);
            let mut tail = split_byte_from(s, j + 1, b);
            let ghost tail0 = tail@;
            r.append(&mut tail);
            proof {
                let i = j - p;
                assert(rest.subrange(0, i) =~= s@.subrange(p as int, j as int));
                assert(rest.skip(i + 1) =~= s@.skip(j + 1));
                assert(split_byte(rest, b) == seq![rest.subrange(0, i)] + split_byte(
                    rest.skip(i + 1),
                    b,
                ));
                assert forall|x: int| 0 <= x < r@.len() implies (#[trigger] r@[x])@ == split_byte(
                    rest,
                    b,
                )[x] by {
                    if x == 0 {
                        assert(r@[0] == piece);
                        assert(split_byte(rest, b)[0] == rest.subrange(0, i));
                    } else {
                        assert(r@[x] == tail0[x - 1]);
                        assert(split_byte(rest, b)[x] == split_byte(rest.skip(i + 1), b)[x - 1]);
                    }
                }
            }
            r
        },
    }
}

/// Splits text on a byte.
pub fn split_on_byte(s: &[u8], b: u8) -> (r: Vec<Vec<u8>>)
    ensures
        r@.len() == split_byte(s@, b).len(),
        forall|i: int| 0 <= i < r@.len() ==> (#[trigger] r@[i])@ == split_byte(s@, b)[i],
{
    proof {
        assert(s@.skip(0) =~= s@);
    }
    split_byte_from(s, 0, b)
}

} // verus!
