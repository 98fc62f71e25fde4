//! The map of path parameters captured while matching a route.

use vstd::prelude::*;
use vstd::string::*;

verus! {

/// The map that a sequence of (key, value) pairs denotes: later pairs
/// overwrite earlier ones.
pub open spec fn map_of(s: Seq<(String, String)>) -> Map<Seq<char>, Seq<char>>
    decreases s.len(),
{
    if s.len() == 0 {
        Map::empty()
    } else {
        map_of(s.drop_last()).insert(s.last().0@, s.last().1@)
    }
}

/// Path parameters captured during a match, keyed by parameter name.
/// A later entry under a name already present replaces the earlier one.
#[derive(Debug, Clone)]
pub struct ParamMap {
    /// The entries, in insertion order; a later entry shadows an earlier
    /// one under the same name.
    pub items: Vec<(String, String)>,
}

impl View for ParamMap {
    type V = Map<Seq<char>, Seq<char>>;

    open spec fn view(&self) -> Map<Seq<char>, Seq<char>> {
        map_of(self.items@)
    }
}

/// A key is in the denoted map exactly when some pair holds it.
pub proof fn lemma_map_of_domain(s: Seq<(String, String)>)
    ensures
        forall|k: Seq<char>|
            map_of(s).contains_key(k) <==> exists|i: int|
                0 <= i < s.len() && (#[trigger] s[i]).0@ == k,
    decreases s.len(),
{
    if s.len() > 0 {
        lemma_map_of_domain(s.drop_last());
        assert forall|k: Seq<char>| map_of(s).contains_key(k) implies exists|i: int|
            0 <= i < s.len() && (#[trigger] s[i]).0@ == k by {
            if s.last().0@ == k {
                assert((s[s.len() - 1]).0@ == k);
            } else {
                assert(map_of(s.drop_last()).contains_key(k));
                let i = choose|i: int|
                    0 <= i < s.drop_last().len() && (#[trigger] s.drop_last()[i]).0@ == k;
                assert(s.drop_last()[i] == s[i]);
                assert((s[i]).0@ == k);
            }
        }
        assert forall|k: Seq<char>|
            (exists|i: int| 0 <= i < s.len() && (#[trigger] s[i]).0@ == k) implies map_of(
            s,
        ).contains_key(k) by {
            let i = choose|i: int| 0 <= i < s.len() && (#[trigger] s[i]).0@ == k;
            if i < s.len() - 1 {
                assert(s.drop_last()[i] == s[i]);
                assert(map_of(s.drop_last()).contains_key(k));
            }
        }
    }
}

/// The denoted map looks only at the views of the pairs.
proof fn lemma_map_of_congruent(a: Seq<(String, String)>, b: Seq<(String, String)>)
    requires
        a.len() == b.len(),
        forall|i: int|
            0 <= i < a.len() ==> ((#[trigger] a[i]).0@ == (#[trigger] b[i]).0@ && a[i].1@
                == b[i].1@),
    ensures
        map_of(a) == map_of(b),
    decreases a.len(),
{
    if a.len() > 0 {
        assert forall|i: int| 0 <= i < a.drop_last().len() implies ((
        #[trigger] a.drop_last()[i]).0@ == (#[trigger] b.drop_last()[i]).0@
            && a.drop_last()[i].1@ == b.drop_last()[i].1@) by {
            assert(a.drop_last()[i] == a[i]);
            assert(b.drop_last()[i] == b[i]);
        }
        lemma_map_of_congruent(a.drop_last(), b.drop_last());
        assert((a[a.len() - 1]).0@ == (b[b.len() - 1]).0@);
        assert((a[a.len() - 1]).1@ == (b[b.len() - 1]).1@);
    }
}

/// Concatenating two pair lists denotes the union of their maps, the
/// second list winning on shared keys.
pub proof fn lemma_map_of_concat(a: Seq<(String, String)>, b: Seq<(String, String)>)
    ensures
        map_of(a + b) == map_of(a).union_prefer_right(map_of(b)),
    decreases b.len(),
{
    if b.len() == 0 {
        assert(a + b =~= a);
        assert(map_of(a).union_prefer_right(map_of(b)) =~= map_of(a));
    } else {
        assert((a + b).drop_last() =~= a + b.drop_last());
        lemma_map_of_concat(a, b.drop_last());
        assert((a + b).last() == b.last());
        assert(map_of(a).union_prefer_right(map_of(b.drop_last())).insert(b.last().0@, b.last().1@)
            =~= map_of(a).union_prefer_right(map_of(b)));
    }
}

/// The value under a key is the one of the last pair holding that key.
proof fn lemma_map_of_last_match(s: Seq<(String, String)>, i: int)
    requires
        0 <= i < s.len(),
        forall|j: int| i < j < s.len() ==> (#[trigger] s[j]).0@ != s[i].0@,
    ensures
        map_of(s).contains_key(s[i].0@),
        map_of(s)[s[i].0@] == s[i].1@,
    decreases s.len(),
{
    if i == s.len() - 1 {
    } else {
        assert(s.drop_last()[i] == s[i]);
        assert forall|j: int| i < j < s.drop_last().len() implies (#[trigger] s.drop_last()[j]).0@
            != s.drop_last()[i].0@ by {
            assert(s.drop_last()[j] == s[j]);
        }
        lemma_map_of_last_match(s.drop_last(), i);
        assert((s[s.len() - 1]).0@ != s[i].0@);
    }
}

impl ParamMap {
    /// Creates an empty map.
    pub fn new() -> (r: ParamMap)
        ensures
            r@ == Map::<Seq<char>, Seq<char>>::empty(),
            r.items@.len() == 0,
    {
        ParamMap { items: Vec::new() }
    }

    /// The number of entries recorded (shadowed entries included).
    pub fn len(&self) -> (r: usize)
        ensures
            r == self.items@.len(),
    {
        self.items.len()
    }

    /// True when the map holds nothing.
    pub fn is_empty(&self) -> (r: bool)
        ensures
            r == (self@ == Map::<Seq<char>, Seq<char>>::empty()),
    {
        proof {
            lemma_map_of_domain(self.items@);
            if self.items@.len() > 0 {
                assert(self@.contains_key((self.items@[0]).0@));
            } else {
                assert(self@ =~= Map::<Seq<char>, Seq<char>>::empty());
            }
        }
        self.items.len() == 0
    }

    /// Looks a parameter up by name.
    pub fn get(&self, name: &str) -> (r: Option<&String>)
        ensures
            match r {
                Some(v) => self@.contains_key(name@) && self@[name@] == v@,
                None => !self@.contains_key(name@),
            },
    {
        let key = name.to_owned();
        let mut i: usize = self.items.len();
        while i > 0
            invariant
                i <= self.items@.len(),
                key@ == name@,
                forall|j: int|
                    i <= j < self.items@.len() ==> (#[trigger] self.items@[j]).0@ != name@,
            decreases i,
    {
            i = i - 1;
            if self.items[i].0 == key {
                proof {
                    lemma_map_of_last_match(self.items@, i as int);
                }
                return Some(&self.items[i].1);
            }
        }
        proof {
            lemma_map_of_domain(self.items@);
        }
        None
    }

    /// True when the map holds an entry under the name.
    pub fn contains_key(&self, name: &str) -> (r: bool)
        ensures
            r == self@.contains_key(name@),
    {
        match self.get(name) {
            Some(_) => true,
            None => false,
        }
    }

    /// Merges another map into this one; on a shared name the other map's
    /// value wins.
    pub fn extend_from(&mut self, other: &ParamMap)
        ensures
            final(self)@ == old(self)@.union_prefer_right(other@),
    {
        let ghost orig = self.items@;
        let mut i: usize = 0;
        while i < other.items.len()
            invariant
                i <= other.items@.len(),
                self.items@.len() == orig.len() + i,
                forall|j: int| 0 <= j < orig.len() ==> self.items@[j] == orig[j],
                forall|j: int|
                    0 <= j < i ==> ((#[trigger] self.items@[orig.len() + j]).0@
                        == (#[trigger] other.items@[j]).0@ && self.items@[orig.len() + j].1@
                        == other.items@[j].1@),
            decreases other.items@.len() - i,
        {
            let pair = (other.items[i].0.clone(), other.items[i].1.clone());
            self.items.push(pair);
            i = i + 1;
        }
        proof {
            let cat = orig + other.items@;
            assert forall|j: int| 0 <= j < self.items@.len() implies ((
            #[trigger] self.items@[j]).0@ == (#[trigger] cat[j]).0@ && self.items@[j].1@
                == cat[j].1@) by {
                if j < orig.len() {
                    assert(cat[j] == orig[j]);
                } else {
                    assert(cat[j] == other.items@[j - orig.len()]);
                    assert(self.items@[orig.len() + (j - orig.len())].0@ == other.items@[j
                        - orig.len()].0@ && self.items@[orig.len() + (j - orig.len())].1@
                        == other.items@[j - orig.len()].1@);
                }
            }
            lemma_map_of_congruent(self.items@, cat);
            lemma_map_of_concat(orig, other.items@);
        }
    }

    /// Adds a parameter; an entry already present under the same name is
    /// shadowed by the new one.
    pub fn insert(&mut self, name: String, value: String)
        ensures
            final(self)@ == old(self)@.insert(name@, value@),
            final(self).items@.len() == old(self).items@.len() + 1,
    {
        let ghost orig = self.items@;
        self.items.push((name, value));
        proof {
            assert(self.items@.drop_last() =~= orig);
        }
    }
}

} // verus!
