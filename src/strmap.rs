use vstd::prelude::*;

use crate::text::compare_str;
use vstd::pervasive::VecAdditionalExecFns;

verus! {

/// The value bound to `k` in an association list: the first pair with that key wins.
pub open spec fn lookup(s: Seq<(String, String)>, k: Seq<char>) -> Option<Seq<char>>
    decreases s.len(),
{
    if s.len() == 0 {
        None
    } else if s[0].0@ == k {
        Some(s[0].1@)
    } else {
        lookup(s.drop_first(), k)
    }
}

proof fn lemma_lookup_update(s: Seq<(String, String)>, i: int, e: (String, String))
    requires
        0 <= i < s.len(),
        s[i].0@ == e.0@,
        forall|j: int| 0 <= j < i ==> (#[trigger] s[j]).0@ != e.0@,
    ensures
        forall|k: Seq<char>|
            #[trigger] lookup(s.update(i, e), k) == if k == e.0@ {
                Some(e.1@)
            } else {
                lookup(s, k)
            },
    decreases s.len(),
{
    let n = s.update(i, e);
    if i == 0 {
        assert(n.drop_first() =~= s.drop_first());
        assert forall|k: Seq<char>| #[trigger] lookup(n, k) == if k == e.0@ {
            Some(e.1@)
        } else {
            lookup(s, k)
        } by {
            assert(n[0] == e);
        }
    } else {
        assert(n.drop_first() =~= s.drop_first().update(i - 1, e));
        assert forall|j: int| 0 <= j < i - 1 implies (#[trigger] s.drop_first()[j]).0@ != e.0@ by {
            assert(s.drop_first()[j] == s[j + 1]);
        }
        lemma_lookup_update(s.drop_first(), i - 1, e);
        assert(s[0].0@ != e.0@);
        assert forall|k: Seq<char>| #[trigger] lookup(n, k) == if k == e.0@ {
            Some(e.1@)
        } else {
            lookup(s, k)
        } by {
            assert(n[0] == s[0]);
            assert(lookup(n.drop_first(), k) == lookup(s.drop_first().update(i - 1, e), k));
        }
    }
}

proof fn lemma_lookup_push(s: Seq<(String, String)>, e: (String, String))
    requires
        forall|j: int| 0 <= j < s.len() ==> (#[trigger] s[j]).0@ != e.0@,
    ensures
        forall|k: Seq<char>|
            #[trigger] lookup(s.push(e), k) == if k == e.0@ {
                Some(e.1@)
            } else {
                lookup(s, k)
            },
    decreases s.len(),
{
    let n = s.push(e);
    if s.len() > 0 {
        assert(n.drop_first() =~= s.drop_first().push(e));
        assert forall|j: int| 0 <= j < s.drop_first().len() implies (#[trigger] s.drop_first()[j]).0@ != e.0@ by {
            assert(s.drop_first()[j] == s[j + 1]);
        }
        lemma_lookup_push(s.drop_first(), e);
        assert(s[0].0@ != e.0@);
        assert forall|k: Seq<char>| #[trigger] lookup(n, k) == if k == e.0@ {
            Some(e.1@)
        } else {
            lookup(s, k)
        } by {
            assert(n[0] == s[0]);
            assert(lookup(n.drop_first(), k) == lookup(s.drop_first().push(e), k));
        }
    } else {
        assert(n.drop_first() =~= Seq::<(String, String)>::empty());
        assert forall|k: Seq<char>| #[trigger] lookup(n, k) == if k == e.0@ {
            Some(e.1@)
        } else {
            lookup(s, k)
        } by {
            assert(n[0] == e);
            assert(lookup(n.drop_first(), k) is None);
        }
    }
}

proof fn lemma_lookup_members(s: Seq<(String, String)>)
    ensures
        forall|k: Seq<char>|
            #[trigger] lookup(s, k) is Some ==> exists|i: int|
                0 <= i < s.len() && (#[trigger] s[i]).0@ == k && lookup(s, k) == Some(s[i].1@) && forall|j: int|
                    0 <= j < i ==> (#[trigger] s[j]).0@ != k,
        forall|i: int| 0 <= i < s.len() ==> #[trigger] lookup(s, s[i].0@) is Some,
    decreases s.len(),
{
    if s.len() > 0 {
        let t = s.drop_first();
        lemma_lookup_members(t);
        assert forall|k: Seq<char>| #[trigger] lookup(s, k) is Some implies exists|i: int|
            0 <= i < s.len() && (#[trigger] s[i]).0@ == k && lookup(s, k) == Some(s[i].1@) && forall|j: int|
                0 <= j < i ==> (#[trigger] s[j]).0@ != k by {
            if s[0].0@ != k {
                assert(lookup(s, k) == lookup(t, k));
                let i = choose|i: int|
                    0 <= i < t.len() && (#[trigger] t[i]).0@ == k && lookup(t, k) == Some(t[i].1@) && forall|j: int|
                        0 <= j < i ==> (#[trigger] t[j]).0@ != k;
                assert(s[i + 1] == t[i]);
                assert forall|j: int| 0 <= j < i + 1 implies (#[trigger] s[j]).0@ != k by {
                    if j > 0 {
                        assert(s[j] == t[j - 1]);
                    }
                }
            } else {
                assert(s[0].0@ == k);
            }
        }
        assert forall|i: int| 0 <= i < s.len() implies #[trigger] lookup(s, s[i].0@) is Some by {
            if i > 0 && s[0].0@ != s[i].0@ {
                assert(t[i - 1] == s[i]);
                assert(lookup(s, s[i].0@) == lookup(t, t[i - 1].0@));
            }
        }
    }
}

/// A map from strings to strings, kept as pairs in insertion order.
pub struct StrMap {
    entries: Vec<(String, String)>,
}

impl View for StrMap {
    type V = Map<Seq<char>, Seq<char>>;

    closed spec fn view(&self) -> Map<Seq<char>, Seq<char>> {
        Map::new(
            |k: Seq<char>| lookup(self.entries@, k) is Some,
            |k: Seq<char>| lookup(self.entries@, k)->Some_0,
        )
    }
}

impl StrMap {
    /// The empty map.
    pub fn new() -> (r: StrMap)
        ensures
            r@ == Map::<Seq<char>, Seq<char>>::empty(),
    {
        let r = StrMap { entries: Vec::new() };
        assert(r@ =~= Map::<Seq<char>, Seq<char>>::empty());
        r
    }

    /// Index of the first pair whose key is `key`, if any.
    fn position(&self, key: &str) -> (r: Option<usize>)
        ensures
            match r {
                Some(i) => i < self.entries@.len() && self.entries@[i as int].0@ == key@
                    && forall|j: int| 0 <= j < i ==> (#[trigger] self.entries@[j]).0@ != key@,
                None => forall|j: int|
                    0 <= j < self.entries@.len() ==> (#[trigger] self.entries@[j]).0@ != key@,
            },
            r is None <==> lookup(self.entries@, key@) is None,
            r is Some ==> lookup(self.entries@, key@) == Some(self.entries@[r->Some_0 as int].1@),
    {
        let n = self.entries.len();
        let mut i: usize = 0;
        assert(self.entries@.subrange(0, n as int) =~= self.entries@);
        while i < n
            invariant
                n == self.entries@.len(),
                i <= n,
                forall|j: int| 0 <= j < i ==> (#[trigger] self.entries@[j]).0@ != key@,
                lookup(self.entries@, key@) == lookup(self.entries@.subrange(i as int, n as int), key@),
            decreases n - i,
        {
            let ghost rest = self.entries@.subrange(i as int, n as int);
            assert(rest[0] == self.entries@[i as int]);
            if compare_str(self.entries[i].0.as_str(), key) == 0 {
                return Some(i);
            }
            assert(rest.drop_first() =~= self.entries@.subrange(i + 1, n as int));
            i = i + 1;
        }
        None
    }

    /// The value bound to `key`.
    pub fn get(&self, key: &str) -> (r: Option<&String>)
        ensures
            r is Some <==> self@.contains_key(key@),
            r is Some ==> r->Some_0@ == self@[key@],
    {
        match self.position(key) {
            Some(i) => Some(&self.entries[i].1),
            None => None,
        }
    }

    /// Binds `key` to `value`, replacing any earlier binding.
    pub fn insert(&mut self, key: String, value: String)
        ensures
            final(self)@ == old(self)@.insert(key@, value@),
    {
        let ghost s = self.entries@;
        let ghost k = key@;
        let ghost v = value@;
        match self.position(key.as_str()) {
            Some(i) => {
                let ghost e = (key, value);
                proof {
                    lemma_lookup_update(s, i as int, e);
                }
                self.entries.set(i, (key, value));
            },
            None => {
                let ghost e = (key, value);
                proof {
                    lemma_lookup_push(s, e);
                }
                self.entries.push((key, value));
            },
        }
        assert(self@ =~= old(self)@.insert(k, v));
    }

    /// Builds a map from pairs; a later pair replaces an earlier one with the same key.
    pub fn from_pairs(pairs: Vec<(String, String)>) -> (r: StrMap)
        ensures
            forall|i: int| 0 <= i < pairs@.len() ==> r@.contains_key(#[trigger] pairs@[i].0@),
            forall|k: Seq<char>| r@.contains_key(k) ==> exists|i: int| 0 <= i < pairs@.len() && (#[trigger] pairs@[i]).0@ == k,
    {
        let mut m = StrMap::new();
        let mut rest = pairs;
        let ghost all = rest@;
        while rest.len() > 0
            invariant
                rest@.len() <= all.len(),
                rest@ == all.subrange(all.len() - rest@.len(), all.len() as int),
                forall|i: int| 0 <= i < all.len() - rest@.len() ==> m@.contains_key(#[trigger] all[i].0@),
                forall|k: Seq<char>| m@.contains_key(k) ==> exists|i: int| 0 <= i < all.len() - rest@.len() && (#[trigger] all[i]).0@ == k,
            decreases rest@.len(),
        {
            let ghost j = all.len() - rest@.len();
            let (k, v) = rest.remove(0);
            assert(rest@ =~= all.subrange(j + 1, all.len() as int));
            assert(k == all[j].0);
            m.insert(k, v);
        }
        m
    }

    /// The pairs, in insertion order. Each key of the map appears, and its value is
    /// that of the first pair with that key.
    pub fn pairs(&self) -> (r: &Vec<(String, String)>)
        ensures
            forall|i: int| 0 <= i < r@.len() ==> self@.contains_key(#[trigger] r@[i].0@),
            forall|k: Seq<char>|
                #[trigger] self@.contains_key(k) ==> exists|i: int|
                    0 <= i < r@.len() && (#[trigger] r@[i]).0@ == k && self@[k] == r@[i].1@ && forall|j: int|
                        0 <= j < i ==> (#[trigger] r@[j]).0@ != k,
    {
        proof {
            lemma_lookup_members(self.entries@);
        }
        &self.entries
    }
}

} // verus!
