//! Header maps: ordered lists of name/value pairs with case-insensitive
//! names, kept lower-cased in storage.

use vstd::prelude::*;
use vstd::string::*;

use crate::text::{
    ascii_bytes_of_str, ascii_chars, bytes_eq, bytes_of_chars, lower_ascii, lower_byte,
    lower_bytes_of, string_from_ascii,
};
use crate::text::{lemma_ascii_byte_round, lemma_ascii_cast_round, lemma_lower_ascii_pointwise};

verus! {

broadcast use vstd::utf8::char_u32_cast;

/// Legal text for a header name: non-empty printable ASCII with no
/// space and no colon.
pub open spec fn header_name_wf(s: Seq<char>) -> bool {
    &&& s.len() > 0
    &&& forall|i: int|
        0 <= i < s.len() ==> (33 <= ((#[trigger] s[i]) as u32) <= 126 && s[i] != ':')
}

/// Legal text for a header value: printable ASCII, spaces and tabs, not
/// starting with a space.
pub open spec fn header_value_wf(s: Seq<char>) -> bool {
    &&& forall|i: int|
        0 <= i < s.len() ==> (((#[trigger] s[i]) as u32) == 9 || 32 <= (s[i] as u32) <= 126)
    &&& (s.len() > 0 ==> s[0] != ' ')
}

/// A legal header name or value is ASCII text.
pub proof fn lemma_header_text_ascii(s: Seq<char>)
    requires
        header_name_wf(s) || header_value_wf(s),
    ensures
        ascii_chars(s),
{
}

/// The first value stored under a name.
pub open spec fn h_lookup(s: Seq<(Seq<char>, Seq<char>)>, k: Seq<char>) -> Option<Seq<char>>
    decreases s.len(),
{
    if s.len() == 0 {
        None
    } else if s[0].0 == k {
        Some(s[0].1)
    } else {
        h_lookup(s.skip(1), k)
    }
}

/// The list without the entries stored under a name.
pub open spec fn strip_key(s: Seq<(Seq<char>, Seq<char>)>, k: Seq<char>) -> Seq<
    (Seq<char>, Seq<char>),
>
    decreases s.len(),
{
    if s.len() == 0 {
        Seq::empty()
    } else if s[0].0 == k {
        strip_key(s.skip(1), k)
    } else {
        seq![s[0]] + strip_key(s.skip(1), k)
    }
}

/// ASCII strings with equal bytes are equal.
pub proof fn lemma_ascii_bytes_injective(a: Seq<char>, b: Seq<char>)
    requires
        ascii_chars(a),
        ascii_chars(b),
        bytes_of_chars(a) == bytes_of_chars(b),
    ensures
        a == b,
{
    assert(bytes_of_chars(a).len() == a.len());
    assert(a.len() == b.len());
    assert forall|i: int| 0 <= i < a.len() implies a[i] == b[i] by {
        assert(bytes_of_chars(a)[i] == bytes_of_chars(b)[i]);
        assert(bytes_of_chars(a)[i] == (a[i] as u8));
        assert(bytes_of_chars(b)[i] == (b[i] as u8));
        lemma_ascii_cast_round(a[i]);
        lemma_ascii_cast_round(b[i]);
        assert(((a[i] as u8) as char) == a[i]);
        assert(((b[i] as u8) as char) == b[i]);
    }
    assert(a =~= b);
}

/// An ordered list of header name/value pairs; names are stored in lower
/// case and looked up without regard to case.
#[derive(Debug, Clone)]
pub struct Headers {
    /// The entries, in insertion order.
    pub items: Vec<(String, String)>,
}

impl View for Headers {
    type V = Seq<(Seq<char>, Seq<char>)>;

    open spec fn view(&self) -> Seq<(Seq<char>, Seq<char>)> {
        Seq::new(self.items@.len(), |i: int| (self.items@[i].0@, self.items@[i].1@))
    }
}

impl Headers {
    /// Every stored name is legal and already lower-cased; every stored
    /// value is legal.
    pub open spec fn wf(&self) -> bool {
        forall|i: int|
            0 <= i < self@.len() ==> (header_name_wf((#[trigger] self@[i]).0) && lower_ascii(
                self@[i].0,
            ) == self@[i].0 && header_value_wf(self@[i].1))
    }

    /// Creates an empty header map.
    pub fn new() -> (r: Headers)
        ensures
            r@ == Seq::<(Seq<char>, Seq<char>)>::empty(),
            r.wf(),
    {
        let r = Headers { items: Vec::new() };
        proof {
            assert(r@ =~= Seq::<(Seq<char>, Seq<char>)>::empty());
        }
        r
    }

    /// The number of entries.
    pub fn len(&self) -> (r: usize)
        ensures
            r == self@.len(),
    {
        self.items.len()
    }

    /// Looks a header up by name, without regard to case.
    pub fn get(&self, name: &str) -> (r: Option<&String>)
        requires
            self.wf(),
            ascii_chars(name@),
        ensures
            match r {
                Some(v) => h_lookup(self@, lower_ascii(name@)) == Some(v@),
                None => h_lookup(self@, lower_ascii(name@)) is None,
            },
    {
        let nb = ascii_bytes_of_str(name);
        let key = lower_bytes_of(&nb);
        let ghost k = lower_ascii(name@);
        proof {
            lemma_lower_ascii_pointwise(name@);
            assert(bytes_of_chars(k) == key@);
        }
        let mut i: usize = 0;
        proof {
            assert(self@.skip(0) =~= self@);
        }
        while i < self.items.len()
            invariant
                i <= self.items@.len(),
                self.wf(),
                k == lower_ascii(name@),
                bytes_of_chars(k) == key@,
                ascii_chars(k),
                h_lookup(self@, k) == h_lookup(self@.skip(i as int), k),
            decreases self.items@.len() - i,
        {
            proof {
                assert(self@.skip(i as int)[0] == self@[i as int]);
                assert(self@.skip(i as int).skip(1) =~= self@.skip(i + 1));
            }
            proof {
                lemma_header_text_ascii(self.items@[i as int].0@);
            }
            let sb = ascii_bytes_of_str(self.items[i].0.as_str());
            if bytes_eq(sb.as_slice(), &key) {
                proof {
                    assert(self@[i as int] == (self.items@[i as int].0@, self.items@[i as int].1@));
                    lemma_ascii_bytes_injective(self.items@[i as int].0@, k);
                    assert(self@.skip(i as int)[0].0 == k);
                    assert(h_lookup(self@.skip(i as int), k) == Some(self@[i as int].1));
                }
                return Some(&self.items[i].1);
            }
            proof {
                assert(self@[i as int].0 != k) by {
                    if self@[i as int].0 == k {
                        assert(bytes_of_chars(self@[i as int].0) == bytes_of_chars(k));
                    }
                }
            }
            i = i + 1;
        }
        proof {
            assert(self@.skip(i as int) =~= Seq::<(Seq<char>, Seq<char>)>::empty());
        }
        None
    }

    /// Adds a header at the end, keeping entries already present.
    pub fn append(&mut self, name: String, value: String)
        requires
            old(self).wf(),
            header_name_wf(name@),
            header_value_wf(value@),
        ensures
            final(self).wf(),
            final(self)@ == old(self)@.push((lower_ascii(name@), value@)),
    {
        proof {
            lemma_header_text_ascii(name@);
        }
        let lowered = lower_string(&name);
        self.items.push((lowered, value));
        proof {
            assert(final(self)@ =~= old(self)@.push((lower_ascii(name@), value@)));
            lemma_lower_name_wf(name@);
            assert forall|i: int| 0 <= i < self@.len() implies (header_name_wf(
                (#[trigger] self@[i]).0,
            ) && lower_ascii(self@[i].0) == self@[i].0 && header_value_wf(self@[i].1)) by {
                if i < old(self)@.len() {
                    assert(self@[i] == old(self)@[i]);
                }
            }
        }
    }

    /// Sets a header, dropping any entries already stored under the name.
    pub fn insert(&mut self, name: String, value: String)
        requires
            old(self).wf(),
            header_name_wf(name@),
            header_value_wf(value@),
        ensures
            final(self).wf(),
            final(self)@ == strip_key(old(self)@, lower_ascii(name@)).push(
                (lower_ascii(name@), value@),
            ),
    {
        let ghost orig = self@;
        let ghost k = lower_ascii(name@);
        proof {
            lemma_header_text_ascii(name@);
        }
        let lowered = lower_string(&name);
        proof {
            lemma_lower_name_wf(name@);
            lemma_lower_ascii_pointwise(name@);
        }
        let kb = ascii_bytes_of_str(lowered.as_str());
        let mut kept: Vec<(String, String)> = Vec::new();
        let ghost mut kept_views: Seq<(Seq<char>, Seq<char>)> = Seq::empty();
        let mut i: usize = 0;
        proof {
            assert(orig.skip(0) =~= orig);
            assert(kept_views + strip_key(orig, k) =~= strip_key(orig, k));
        }
        while i < self.items.len()
            invariant
                i <= self.items@.len(),
                self.wf(),
                orig == self@,
                k == lower_ascii(name@),
                kb@ == bytes_of_chars(k),
                ascii_chars(k),
                kept_views.len() == kept@.len(),
                forall|j: int|
                    0 <= j < kept_views.len() ==> kept_views[j] == ((#[trigger] kept@[j]).0@,
                kept@[j].1@),
                forall|j: int|
                    0 <= j < kept@.len() ==> (header_name_wf((#[trigger] kept@[j]).0@)
                        && lower_ascii(kept@[j].0@) == kept@[j].0@ && header_value_wf(
                        kept@[j].1@,
                    )),
                strip_key(orig, k) == kept_views + strip_key(orig.skip(i as int), k),
            decreases self.items@.len() - i,
        {
            proof {
                assert(orig.skip(i as int)[0] == orig[i as int]);
                assert(orig.skip(i as int).skip(1) =~= orig.skip(i + 1));
                lemma_header_text_ascii(self.items@[i as int].0@);
            }
            let sb = ascii_bytes_of_str(self.items[i].0.as_str());
            if bytes_eq(sb.as_slice(), &kb) {
                proof {
                    lemma_ascii_bytes_injective(self.items@[i as int].0@, k);
                    assert(strip_key(orig.skip(i as int), k) == strip_key(orig.skip(i + 1), k));
                }
            } else {
                let pair = (self.items[i].0.clone(), self.items[i].1.clone());
                kept.push(pair);
                proof {
                    assert(orig[i as int].0 != k) by {
                        if orig[i as int].0 == k {
                            assert(bytes_of_chars(orig[i as int].0) == bytes_of_chars(k));
                        }
                    }
                    let old_views = kept_views;
                    kept_views = kept_views.push(orig[i as int]);
                    assert(strip_key(orig.skip(i as int), k) =~= seq![orig[i as int]] + strip_key(
                        orig.skip(i + 1),
                        k,
                    ));
                    assert(old_views + (seq![orig[i as int]] + strip_key(orig.skip(i + 1), k))
                        =~= kept_views + strip_key(orig.skip(i + 1), k));
                }
            }
            i = i + 1;
        }
        proof {
            assert(orig.skip(i as int) =~= Seq::<(Seq<char>, Seq<char>)>::empty());
            assert(kept_views + strip_key(orig.skip(i as int), k) =~= kept_views);
        }
        kept.push((lowered, value));
        self.items = kept;
        proof {
            assert(self@ =~= kept_views.push((k, value@)));
            assert(self@ =~= strip_key(orig, k).push((k, value@)));
            assert forall|j: int| 0 <= j < self@.len() implies (header_name_wf(
                (#[trigger] self@[j]).0,
            ) && lower_ascii(self@[j].0) == self@[j].0 && header_value_wf(self@[j].1)) by {
                if j < kept_views.len() {
                    assert(self@[j] == (kept@[j].0@, kept@[j].1@));
                }
            }
        }
    }
}

/// Folding to lower case keeps a name legal and is idempotent.
proof fn lemma_lower_name_wf(s: Seq<char>)
    requires
        header_name_wf(s),
    ensures
        header_name_wf(lower_ascii(s)),
        lower_ascii(lower_ascii(s)) == lower_ascii(s),
{
    lemma_header_text_ascii(s);
    lemma_lower_ascii_pointwise(s);
    let ls = lower_ascii(s);
    assert forall|i: int| 0 <= i < ls.len() implies (33 <= ((#[trigger] ls[i]) as u32) <= 126
        && ls[i] != ':') by {
        lemma_ascii_cast_round(s[i]);
        lemma_ascii_byte_round(lower_byte(s[i] as u8));
        assert((ls[i] as u32) == lower_byte(s[i] as u8) as u32);
        assert((s[i] as u32) != 58) by {
            lemma_ascii_byte_round(58);
        }
    }
    lemma_lower_ascii_pointwise(ls);
    assert forall|i: int| 0 <= i < ls.len() implies #[trigger] lower_ascii(ls)[i] == ls[i] by {
        lemma_ascii_cast_round(s[i]);
        lemma_ascii_byte_round(lower_byte(s[i] as u8));
        assert(lower_ascii(ls)[i] == (lower_byte(ls[i] as u8) as char));
        assert(ls[i] as u8 == lower_byte(s[i] as u8));
        assert(lower_byte(lower_byte(s[i] as u8)) == lower_byte(s[i] as u8));
    }
    assert(lower_ascii(ls) =~= ls);
}

/// Folds an ASCII string to lower case.
pub fn lower_string(s: &String) -> (r: String)
    requires
        ascii_chars(s@),
    ensures
        r@ == lower_ascii(s@),
{
    let b = ascii_bytes_of_str(s.as_str());
    let lb = lower_bytes_of(&b);
    proof {
        assert forall|i: int| 0 <= i < lb@.len() implies (#[trigger] lb@[i]) < 128 by {
            assert(lb@[i] == lower_byte(b@[i]));
            lemma_ascii_cast_round(s@[i]);
        }
    }
    let r = string_from_ascii(&lb);
    proof {
        assert(r@ =~= lower_ascii(s@));
    }
    r
}

} // verus!
