//! A mapping from source paths to destination paths, held as a vector of
//! pairs with pairwise-distinct keys and seen in contracts as a `Map` of
//! character sequences.

use vstd::prelude::*;

verus! {

/// The record of which source file produced which destination file.
pub struct PathMap {
    pub entries: Vec<(String, String)>,
}

/// The map described by a sequence of key-value pairs; a later pair with the
/// same key wins.
pub open spec fn map_of(s: Seq<(Seq<char>, Seq<char>)>) -> Map<Seq<char>, Seq<char>>
    decreases s.len(),
{
    if s.len() == 0 {
        Map::empty()
    } else {
        map_of(s.drop_last()).insert(s.last().0, s.last().1)
    }
}

/// No key occurs twice.
pub open spec fn distinct_keys(s: Seq<(Seq<char>, Seq<char>)>) -> bool {
    forall|i: int, j: int| 0 <= i < j < s.len() ==> s[i].0 != s[j].0
}

/// A key is in the map exactly when some pair holds it.
pub proof fn lemma_map_of_dom(s: Seq<(Seq<char>, Seq<char>)>)
    ensures
        forall|k: Seq<char>|
            map_of(s).dom().contains(k) <==> exists|i: int| 0 <= i < s.len() && s[i].0 == k,
    decreases s.len(),
{
    if s.len() > 0 {
        lemma_map_of_dom(s.drop_last());
        assert forall|k: Seq<char>| map_of(s).dom().contains(k) implies exists|i: int|
            0 <= i < s.len() && s[i].0 == k by {
            if k == s.last().0 {
                assert(s[s.len() - 1].0 == k);
            } else {
                assert(map_of(s.drop_last()).dom().contains(k));
                let i = choose|i: int| 0 <= i < s.drop_last().len() && s.drop_last()[i].0 == k;
                assert(s.drop_last()[i] == s[i]);
                assert(s[i].0 == k);
            }
        }
        assert forall|k: Seq<char>|
            (exists|i: int| 0 <= i < s.len() && s[i].0 == k) implies map_of(s).dom().contains(
            k,
        ) by {
            let i = choose|i: int| 0 <= i < s.len() && s[i].0 == k;
            if i < s.len() - 1 {
                assert(s.drop_last()[i].0 == k);
                assert(map_of(s.drop_last()).dom().contains(k));
            }
        }
    }
}

/// With distinct keys, each pair is in the map as it stands.
pub proof fn lemma_map_of_index(s: Seq<(Seq<char>, Seq<char>)>)
    requires
        distinct_keys(s),
    ensures
        forall|i: int|
            0 <= i < s.len() ==> map_of(s).dom().contains(#[trigger] s[i].0) && map_of(s)[s[i].0]
                == s[i].1,
    decreases s.len(),
{
    if s.len() > 0 {
        lemma_map_of_index(s.drop_last());
        assert forall|i: int| 0 <= i < s.len() implies map_of(s).dom().contains(#[trigger] s[i].0)
            && map_of(s)[s[i].0] == s[i].1 by {
            if i < s.len() - 1 {
                assert(s.drop_last()[i] == s[i]);
                assert(s[i].0 != s.last().0);
            }
        }
    }
}

/// With distinct keys, the values of the map are the values of the pairs.
pub proof fn lemma_map_of_values(s: Seq<(Seq<char>, Seq<char>)>)
    requires
        distinct_keys(s),
    ensures
        forall|v: Seq<char>|
            map_of(s).values().contains(v) <==> exists|i: int| 0 <= i < s.len() && s[i].1 == v,
{
    lemma_map_of_dom(s);
    lemma_map_of_index(s);
    assert forall|v: Seq<char>| map_of(s).values().contains(v) implies exists|i: int|
        0 <= i < s.len() && s[i].1 == v by {
        let k = choose|k: Seq<char>| map_of(s).dom().contains(k) && map_of(s)[k] == v;
        let i = choose|i: int| 0 <= i < s.len() && s[i].0 == k;
        assert(s[i].1 == v);
    }
    assert forall|v: Seq<char>|
        (exists|i: int| 0 <= i < s.len() && s[i].1 == v) implies map_of(s).values().contains(
        v,
    ) by {
        let i = choose|i: int| 0 <= i < s.len() && s[i].1 == v;
        assert(map_of(s).dom().contains(s[i].0) && map_of(s)[s[i].0] == v);
    }
}

/// With distinct keys, the map of a longer prefix is the map of the shorter
/// one with a fresh key inserted.
pub proof fn lemma_map_of_take_step(s: Seq<(Seq<char>, Seq<char>)>, i: int)
    requires
        distinct_keys(s),
        0 <= i < s.len(),
    ensures
        map_of(s.take(i + 1)) == map_of(s.take(i)).insert(s[i].0, s[i].1),
        !map_of(s.take(i)).dom().contains(s[i].0),
{
    assert(s.take(i + 1).drop_last() =~= s.take(i));
    assert(s.take(i + 1).last() == s[i]);
    lemma_map_of_dom(s.take(i));
    if map_of(s.take(i)).dom().contains(s[i].0) {
        let j = choose|j: int| 0 <= j < i && s.take(i)[j].0 == s[i].0;
        assert(s[j].0 == s[i].0);
    }
}

/// With distinct keys, the map holds as many keys as the vector holds pairs.
pub proof fn lemma_map_of_len(s: Seq<(Seq<char>, Seq<char>)>)
    requires
        distinct_keys(s),
    ensures
        map_of(s).dom().finite(),
        map_of(s).dom().len() == s.len(),
    decreases s.len(),
{
    if s.len() > 0 {
        lemma_map_of_len(s.drop_last());
        lemma_map_of_dom(s.drop_last());
        if map_of(s.drop_last()).dom().contains(s.last().0) {
            let j = choose|j: int| 0 <= j < s.len() - 1 && s.drop_last()[j].0 == s.last().0;
            assert(s[j].0 == s[s.len() - 1].0);
        }
    }
}

impl View for PathMap {
    type V = Map<Seq<char>, Seq<char>>;

    open spec fn view(&self) -> Map<Seq<char>, Seq<char>> {
        map_of(self.seq())
    }
}

impl PathMap {
    /// The pairs in their held order.
    pub open spec fn seq(self) -> Seq<(Seq<char>, Seq<char>)> {
        self.entries.deep_view()
    }

    /// No key occurs twice.
    pub open spec fn wf(self) -> bool {
        distinct_keys(self.seq())
    }

    /// No value occurs twice: no two sources claim the same output.
    pub open spec fn distinct_values(self) -> bool {
        forall|k1: Seq<char>, k2: Seq<char>|
            self@.dom().contains(k1) && self@.dom().contains(k2) && k1 != k2 ==> self@[k1]
                != self@[k2]
    }

    /// The empty mapping.
    pub fn new() -> (r: Self)
        ensures
            r@ == Map::<Seq<char>, Seq<char>>::empty(),
            r.wf(),
            r.seq() == Seq::<(Seq<char>, Seq<char>)>::empty(),
    {
        let r = PathMap { entries: Vec::new() };
        proof {
            assert(r.seq() =~= Seq::<(Seq<char>, Seq<char>)>::empty());
        }
        r
    }

    /// How many pairs the mapping holds.
    pub fn len(&self) -> (n: usize)
        ensures
            n == self.seq().len(),
            self.wf() ==> n == self@.dom().len(),
    {
        proof {
            if self.wf() {
                lemma_map_of_len(self.seq());
            }
        }
        self.entries.len()
    }

    /// The key of the pair at position `i`.
    pub fn key_at(&self, i: usize) -> (r: &String)
        requires
            i < self.seq().len(),
        ensures
            r@ == self.seq()[i as int].0,
            self.wf() ==> self@.dom().contains(r@) && self@[r@] == self.seq()[i as int].1,
    {
        proof {
            if self.wf() {
                lemma_map_of_index(self.seq());
            }
        }
        &self.entries[i].0
    }

    /// The value of the pair at position `i`.
    pub fn val_at(&self, i: usize) -> (r: &String)
        requires
            i < self.seq().len(),
        ensures
            r@ == self.seq()[i as int].1,
    {
        &self.entries[i].1
    }

    /// Adds a pair whose key is not yet present.
    pub fn push_entry(&mut self, k: String, v: String)
        requires
            old(self).wf(),
            !old(self)@.dom().contains(k@),
        ensures
            final(self)@ == old(self)@.insert(k@, v@),
            final(self).seq() == old(self).seq().push((k@, v@)),
            final(self).wf(),
    {
        let ghost before = self.seq();
        let ghost kv = k@;
        let ghost vv = v@;
        proof {
            lemma_map_of_dom(before);
        }
        self.entries.push((k, v));
        proof {
            assert(self.seq() =~= before.push((kv, vv)));
            assert(self.seq().drop_last() =~= before);
            assert(forall|i: int| 0 <= i < before.len() ==> before[i].0 != kv);
        }
    }

    /// Whether the mapping has an entry for `k`.
    pub fn contains_key(&self, k: &String) -> (r: bool)
        ensures
            r == (exists|i: int| 0 <= i < self.seq().len() && self.seq()[i].0 == k@),
            r == self@.dom().contains(k@),
    {
        proof {
            lemma_map_of_dom(self.seq());
        }
        let mut i: usize = 0;
        while i < self.entries.len()
            invariant
                i <= self.entries.len(),
                forall|j: int| 0 <= j < i ==> self.seq()[j].0 != k@,
            decreases self.entries.len() - i,
        {
            if self.entries[i].0 == *k {
                proof {
                    lemma_map_of_dom(self.seq());
                    assert(self.seq()[i as int].0 == k@);
                    assert(self@.dom().contains(k@));
                }
                return true;
            }
            i = i + 1;
        }
        proof {
            assert(!self@.dom().contains(k@));
        }
        false
    }

    /// Whether some entry maps to `v`.
    pub fn contains_value(&self, v: &String) -> (r: bool)
        requires
            self.wf(),
        ensures
            r == self@.values().contains(v@),
    {
        proof {
            lemma_map_of_values(self.seq());
        }
        let mut i: usize = 0;
        while i < self.entries.len()
            invariant
                self.wf(),
                i <= self.entries.len(),
                forall|j: int| 0 <= j < i ==> self.seq()[j].1 != v@,
            decreases self.entries.len() - i,
        {
            if self.entries[i].1 == *v {
                proof {
                    lemma_map_of_values(self.seq());
                    assert(self.seq()[i as int].1 == v@);
                    assert(self@.values().contains(v@));
                }
                return true;
            }
            i = i + 1;
        }
        proof {
            assert(!self@.values().contains(v@));
        }
        false
    }

    /// The value recorded for `k`, if any.
    pub fn get(&self, k: &String) -> (r: Option<&String>)
        requires
            self.wf(),
        ensures
            r is Some <==> self@.dom().contains(k@),
            r is Some ==> r->0@ == self@[k@],
    {
        proof {
            lemma_map_of_dom(self.seq());
            lemma_map_of_index(self.seq());
        }
        let mut i: usize = 0;
        while i < self.entries.len()
            invariant
                self.wf(),
                i <= self.entries.len(),
                forall|j: int| 0 <= j < i ==> self.seq()[j].0 != k@,
            decreases self.entries.len() - i,
        {
            if self.entries[i].0 == *k {
                proof {
                    lemma_map_of_dom(self.seq());
                    lemma_map_of_index(self.seq());
                    assert(self.seq()[i as int].0 == k@);
                    assert(self@.dom().contains(k@));
                    assert(self@[self.seq()[i as int].0] == self.seq()[i as int].1);
                }
                return Some(&self.entries[i].1);
            }
            i = i + 1;
        }
        proof {
            assert(!self@.dom().contains(k@));
        }
        None
    }
}

} // verus!
