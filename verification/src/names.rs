//! Sets of query names and name-keyed association lists.
//!
//! The calibration engine tracks which read-pair names it has decided to keep
//! and which it has already considered; both are sets of names. Per-region
//! values (probabilities, matching sample regions) are kept as association
//! lists where a later entry for the same name wins, mirroring how a map
//! collects an entry stream.

use vstd::prelude::*;
use vstd::string::*;

verus! {

/// A set of query names, modelled as the set of their character sequences.
pub struct NameSet {
    items: Vec<String>,
}

impl View for NameSet {
    type V = Set<Seq<char>>;

    closed spec fn view(&self) -> Set<Seq<char>> {
        Set::new(
            |q: Seq<char>|
                exists|i: int| 0 <= i < self.items@.len() && (#[trigger] self.items@[i])@ == q,
        )
    }
}

impl NameSet {
    /// The empty set.
    pub fn new() -> (s: NameSet)
        ensures
            s@ == Set::<Seq<char>>::empty(),
    {
        let s = NameSet { items: Vec::new() };
        proof {
            assert(s@ =~= Set::<Seq<char>>::empty());
        }
        s
    }

    /// Whether the set holds `name`.
    #[verifier::loop_isolation(false)]
    pub fn contains(&self, name: &str) -> (b: bool)
        ensures
            b == self@.contains(name@),
    {
        let mut i: usize = 0;
        while i < self.items.len()
            invariant
                0 <= i <= self.items@.len(),
                forall|j: int| 0 <= j < i ==> (#[trigger] self.items@[j])@ != name@,
            decreases self.items@.len() - i,
        {
            if self.items[i].as_str().eq(name) {
                assert(self@.contains(name@));
                return true;
            }
            i = i + 1;
        }
        assert(!self@.contains(name@));
        false
    }

    /// Adds `name` to the set.
    pub fn insert(&mut self, name: String)
        ensures
            final(self)@ == old(self)@.insert(name@),
    {
        let ghost oldv = self@;
        let ghost q = name@;
        self.items.push(name);
        proof {
            let items = self.items@;
            let n = items.len() as int;
            assert forall|p: Seq<char>| self@.contains(p) implies oldv.insert(q).contains(
                p,
            ) by {
                let i = choose|i: int| 0 <= i < n && (#[trigger] items[i])@ == p;
                if i < n - 1 {
                    assert(old(self).items@[i]@ == p);
                } else {
                    assert(p == q);
                }
            }
            assert forall|p: Seq<char>| oldv.insert(q).contains(p) implies self@.contains(
                p,
            ) by {
                if p == q {
                    assert(items[n - 1]@ == p);
                } else {
                    let i = choose|i: int|
                        0 <= i < old(self).items@.len() && (#[trigger] old(self).items@[i])@ == p;
                    assert(items[i]@ == p);
                }
            }
            assert(self@ =~= oldv.insert(q));
        }
    }
}

/// The value associated with `q` in the pair sequence, the last entry for a
/// name winning.
pub open spec fn assoc<V>(pairs: Seq<(Seq<char>, V)>, q: Seq<char>) -> Option<V>
    decreases pairs.len(),
{
    if pairs.len() == 0 {
        None
    } else if pairs.last().0 == q {
        Some(pairs.last().1)
    } else {
        assoc(pairs.drop_last(), q)
    }
}

/// The pair sequence that a vector of name–value pairs stands for.
pub open spec fn pair_views<V>(pairs: Seq<(String, V)>) -> Seq<(Seq<char>, V)> {
    pairs.map_values(|p: (String, V)| (p.0@, p.1))
}

/// A value found by `assoc` comes from an entry with that name.
pub proof fn lemma_assoc_some<V>(pairs: Seq<(Seq<char>, V)>, q: Seq<char>)
    requires
        assoc(pairs, q) is Some,
    ensures
        exists|i: int|
            0 <= i < pairs.len() && (#[trigger] pairs[i]).0 == q && pairs[i].1 == assoc(
                pairs,
                q,
            )->Some_0,
    decreases pairs.len(),
{
    if pairs.len() > 0 {
        if pairs.last().0 == q {
            assert(pairs[pairs.len() - 1].0 == q);
        } else {
            lemma_assoc_some(pairs.drop_last(), q);
            let i = choose|i: int|
                0 <= i < pairs.drop_last().len() && (#[trigger] pairs.drop_last()[i]).0 == q
                    && pairs.drop_last()[i].1 == assoc(pairs.drop_last(), q)->Some_0;
            assert(pairs[i].0 == q && pairs[i].1 == assoc(pairs, q)->Some_0);
        }
    }
}

/// A name that some entry carries is found by `assoc`.
pub proof fn lemma_assoc_present<V>(pairs: Seq<(Seq<char>, V)>, q: Seq<char>, i: int)
    requires
        0 <= i < pairs.len(),
        pairs[i].0 == q,
    ensures
        assoc(pairs, q) is Some,
    decreases pairs.len(),
{
    if pairs.last().0 != q {
        assert(i < pairs.len() - 1);
        lemma_assoc_present(pairs.drop_last(), q, i);
    }
}

/// Looks `name` up in the pair list, the last entry for a name winning.
#[verifier::loop_isolation(false)]
pub fn assoc_get<V: Copy>(pairs: &Vec<(String, V)>, name: &str) -> (o: Option<V>)
    ensures
        o == assoc(pair_views(pairs@), name@),
{
    let ghost all = pair_views(pairs@);
    let mut i: usize = pairs.len();
    assert(all.take(i as int) =~= all);
    while i > 0
        invariant
            0 <= i <= pairs@.len(),
            assoc(all, name@) == assoc(all.take(i as int), name@),
        decreases i,
    {
        i = i - 1;
        proof {
            assert(all.take(i as int + 1).last() == all[i as int]);
            assert(all.take(i as int + 1).drop_last() =~= all.take(i as int));
        }
        if pairs[i].0.as_str().eq(name) {
            return Some(pairs[i].1);
        }
    }
    assert(all.take(0) =~= Seq::<(Seq<char>, V)>::empty());
    None
}

} // verus!
