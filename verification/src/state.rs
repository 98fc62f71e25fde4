//! Process-wide shared application state, as a small closed registry:
//! the application assigns each piece of state a key and stores a plain
//! handle under it; what a handle refers to lives with the caller.

use vstd::prelude::*;

verus! {

/// The map a key/handle list denotes; later entries win.
pub open spec fn state_map_of(s: Seq<(u64, u64)>) -> Map<u64, u64>
    decreases s.len(),
{
    if s.len() == 0 {
        Map::empty()
    } else {
        state_map_of(s.drop_last()).insert(s.last().0, s.last().1)
    }
}

/// A registry of typed-state handles keyed by application-chosen keys.
/// It is filled while the server is built and read-only afterwards.
#[derive(Debug, Clone)]
pub struct State {
    /// The entries, in insertion order; a later entry shadows an earlier
    /// one under the same key.
    pub items: Vec<(u64, u64)>,
}

impl View for State {
    type V = Map<u64, u64>;

    open spec fn view(&self) -> Map<u64, u64> {
        state_map_of(self.items@)
    }
}

/// A key is in the denoted map exactly when some pair holds it.
proof fn lemma_state_domain(s: Seq<(u64, u64)>)
    ensures
        forall|k: u64|
            state_map_of(s).contains_key(k) <==> exists|i: int|
                0 <= i < s.len() && (#[trigger] s[i]).0 == k,
    decreases s.len(),
{
    if s.len() > 0 {
        lemma_state_domain(s.drop_last());
        assert forall|k: u64| state_map_of(s).contains_key(k) implies exists|i: int|
            0 <= i < s.len() && (#[trigger] s[i]).0 == k by {
            if s.last().0 == k {
                assert((s[s.len() - 1]).0 == k);
            } else {
                assert(state_map_of(s.drop_last()).contains_key(k));
                let i = choose|i: int|
                    0 <= i < s.drop_last().len() && (#[trigger] s.drop_last()[i]).0 == k;
                assert(s.drop_last()[i] == s[i]);
            }
        }
        assert forall|k: u64|
            (exists|i: int| 0 <= i < s.len() && (#[trigger] s[i]).0 == k) implies state_map_of(
            s,
        ).contains_key(k) by {
            let i = choose|i: int| 0 <= i < s.len() && (#[trigger] s[i]).0 == k;
            if i < s.len() - 1 {
                assert(s.drop_last()[i] == s[i]);
                assert(state_map_of(s.drop_last()).contains_key(k));
            }
        }
    }
}

/// The handle under a key is the one of the last pair holding that key.
proof fn lemma_state_last_match(s: Seq<(u64, u64)>, i: int)
    requires
        0 <= i < s.len(),
        forall|j: int| i < j < s.len() ==> (#[trigger] s[j]).0 != s[i].0,
    ensures
        state_map_of(s).contains_key(s[i].0),
        state_map_of(s)[s[i].0] == s[i].1,
    decreases s.len(),
{
    if i == s.len() - 1 {
    } else {
        assert(s.drop_last()[i] == s[i]);
        assert forall|j: int| i < j < s.drop_last().len() implies (#[trigger] s.drop_last()[j]).0
            != s.drop_last()[i].0 by {
            assert(s.drop_last()[j] == s[j]);
        }
        lemma_state_last_match(s.drop_last(), i);
        assert((s[s.len() - 1]).0 != s[i].0);
    }
}

impl State {
    /// Creates an empty registry.
    pub fn new() -> (r: State)
        ensures
            r@ == Map::<u64, u64>::empty(),
    {
        State { items: Vec::new() }
    }

    /// Stores a handle under a key; an earlier handle under the same key
    /// is shadowed.
    pub fn insert(&mut self, key: u64, handle: u64)
        ensures
            final(self)@ == old(self)@.insert(key, handle),
    {
        let ghost orig = self.items@;
        self.items.push((key, handle));
        proof {
            assert(self.items@.drop_last() =~= orig);
        }
    }

    /// Looks the handle under a key up.
    pub fn get(&self, key: u64) -> (r: Option<u64>)
        ensures
            match r {
                Some(h) => self@.contains_key(key) && self@[key] == h,
                None => !self@.contains_key(key),
            },
    {
        let mut i: usize = self.items.len();
        while i > 0
            invariant
                i <= self.items@.len(),
                forall|j: int|
                    i <= j < self.items@.len() ==> (#[trigger] self.items@[j]).0 != key,
            decreases i,
        {
            i = i - 1;
            if self.items[i].0 == key {
                proof {
                    lemma_state_last_match(self.items@, i as int);
                }
                return Some(self.items[i].1);
            }
        }
        proof {
            lemma_state_domain(self.items@);
        }
        None
    }
}

} // verus!
