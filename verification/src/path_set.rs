//! A set of relative paths, held as a duplicate-free vector of strings and
//! seen in contracts as a `Set` of character sequences.

use vstd::prelude::*;

verus! {

/// A one-longer prefix of a sequence holds exactly one more member.
pub proof fn lemma_take_contains_step<A>(s: Seq<A>, i: int)
    requires
        0 <= i < s.len(),
    ensures
        forall|x: A|
            #[trigger] s.take(i + 1).contains(x) <==> s.take(i).contains(x) || x == s[i],
{
    assert forall|x: A| #[trigger] s.take(i + 1).contains(x) implies s.take(i).contains(x) || x
        == s[i] by {
        let t = s.take(i + 1);
        let j = choose|j: int| 0 <= j < t.len() && t[j] == x;
        if j < i {
            assert(s.take(i)[j] == x);
        }
    }
    assert forall|x: A| s.take(i).contains(x) || x == s[i] implies #[trigger] s.take(
        i + 1,
    ).contains(x) by {
        if s.take(i).contains(x) {
            let t = s.take(i);
            let j = choose|j: int| 0 <= j < t.len() && t[j] == x;
            assert(s.take(i + 1)[j] == x);
        } else {
            assert(s.take(i + 1)[i] == x);
        }
    }
}

/// The set of files found in a tree, or computed by the reconciler.
pub struct PathSet {
    pub items: Vec<String>,
}

impl View for PathSet {
    type V = Set<Seq<char>>;

    open spec fn view(&self) -> Set<Seq<char>> {
        self.items.deep_view().to_set()
    }
}

impl PathSet {
    /// The members in their held order.
    pub open spec fn seq(self) -> Seq<Seq<char>> {
        self.items.deep_view()
    }

    /// No path occurs twice.
    pub open spec fn wf(self) -> bool {
        self.seq().no_duplicates()
    }

    /// The empty set.
    pub fn new() -> (r: Self)
        ensures
            r@ == Set::<Seq<char>>::empty(),
            r.wf(),
            r.seq() == Seq::<Seq<char>>::empty(),
    {
        let r = PathSet { items: Vec::new() };
        proof {
            assert(r@ =~= Set::<Seq<char>>::empty());
        }
        r
    }

    /// How many paths the set holds.
    pub fn len(&self) -> (n: usize)
        requires
            self.wf(),
        ensures
            n == self@.len(),
            n == self.seq().len(),
    {
        proof {
            self.seq().unique_seq_to_set();
        }
        self.items.len()
    }

    /// The path at position `i`.
    pub fn at(&self, i: usize) -> (r: &String)
        requires
            i < self.seq().len(),
        ensures
            r@ == self.seq()[i as int],
            self@.contains(r@),
    {
        &self.items[i]
    }

    /// Whether the set holds `x`.
    pub fn contains(&self, x: &String) -> (r: bool)
        ensures
            r == self@.contains(x@),
    {
        let mut i: usize = 0;
        while i < self.items.len()
            invariant
                i <= self.items.len(),
                forall|j: int| 0 <= j < i ==> self.seq()[j] != x@,
            decreases self.items.len() - i,
        {
            if self.items[i] == *x {
                proof {
                    assert(self.seq()[i as int] == x@);
                }
                return true;
            }
            i = i + 1;
        }
        proof {
            if self@.contains(x@) {
                let j = choose|j: int| 0 <= j < self.seq().len() && self.seq()[j] == x@;
                assert(self.seq()[j] == x@);
            }
        }
        false
    }

    /// Adds `x` unless it is already present.
    pub fn insert(&mut self, x: String)
        requires
            old(self).wf(),
        ensures
            final(self)@ == old(self)@.insert(x@),
            final(self).wf(),
            old(self)@.contains(x@) ==> final(self).seq() == old(self).seq(),
            !old(self)@.contains(x@) ==> final(self).seq() == old(self).seq().push(x@),
    {
        if !self.contains(&x) {
            let ghost before = self.seq();
            let ghost xv = x@;
            self.items.push(x);
            proof {
                assert(self.seq() =~= before.push(xv));
                before.lemma_push_to_set_commute(xv);
                assert(self@ =~= old(self)@.insert(xv));
            }
        } else {
            proof {
                assert(self@ =~= old(self)@.insert(x@));
            }
        }
    }

    /// Builds the set of the given paths, dropping duplicates.
    pub fn from_vec(v: Vec<String>) -> (r: Self)
        ensures
            r@ == v.deep_view().to_set(),
            r.wf(),
    {
        let mut r = PathSet::new();
        let mut i: usize = 0;
        while i < v.len()
            invariant
                i <= v.len(),
                r.wf(),
                r@ =~= v.deep_view().take(i as int).to_set(),
            decreases v.len() - i,
        {
            let ghost before = v.deep_view().take(i as int);
            r.insert(v[i].clone());
            proof {
                assert(v.deep_view()[i as int] == v[i as int]@);
                assert(v.deep_view().take(i + 1) =~= before.push(v.deep_view()[i as int]));
                before.lemma_push_to_set_commute(v.deep_view()[i as int]);
            }
            i = i + 1;
        }
        proof {
            assert(v.deep_view().take(v.len() as int) =~= v.deep_view());
        }
        r
    }
}

} // verus!
