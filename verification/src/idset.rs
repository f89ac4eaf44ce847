use vstd::prelude::*;
use crate::account::AccountId;

verus! {

/// The set of canonical identifiers denoted by a sequence of accounts.
pub open spec fn ids_of(s: Seq<AccountId>) -> Set<Seq<char>> {
    Set::new(|x: Seq<char>| exists|i: int| 0 <= i < s.len() && s[i]@ == x)
}

/// The union of a sequence of identifier sets.
pub open spec fn union_of(sets: Seq<Set<Seq<char>>>) -> Set<Seq<char>>
    decreases sets.len(),
{
    if sets.len() == 0 {
        Set::empty()
    } else {
        union_of(sets.drop_last()) + sets.last()
    }
}

pub proof fn lemma_ids_of_take_step(s: Seq<AccountId>, k: int)
    requires
        0 <= k < s.len(),
    ensures
        ids_of(s.take(k + 1)) == ids_of(s.take(k)).insert(s[k]@),
{
    assert(ids_of(s.take(k + 1)) =~= ids_of(s.take(k)).insert(s[k]@)) by {
        assert forall|x: Seq<char>| ids_of(s.take(k + 1)).contains(x) implies ids_of(
            s.take(k),
        ).insert(s[k]@).contains(x) by {
            let i = choose|i: int| 0 <= i < s.take(k + 1).len() && #[trigger] s.take(k + 1)[i]@ == x;
            if i < k {
                assert(s.take(k)[i]@ == x);
            }
        };
        assert forall|x: Seq<char>| ids_of(s.take(k)).insert(s[k]@).contains(x) implies ids_of(
            s.take(k + 1),
        ).contains(x) by {
            if x == s[k]@ {
                assert(s.take(k + 1)[k]@ == x);
            } else {
                let i = choose|i: int| 0 <= i < s.take(k).len() && #[trigger] s.take(k)[i]@ == x;
                assert(s.take(k + 1)[i]@ == x);
            }
        };
    };
}

pub proof fn lemma_ids_of_take_full(s: Seq<AccountId>)
    ensures
        ids_of(s.take(s.len() as int)) == ids_of(s),
{
    assert(s.take(s.len() as int) =~= s);
}

pub proof fn lemma_union_of_take_step(sets: Seq<Set<Seq<char>>>, k: int)
    requires
        0 <= k < sets.len(),
    ensures
        union_of(sets.take(k + 1)) == union_of(sets.take(k)) + sets[k],
{
    assert(sets.take(k + 1).drop_last() =~= sets.take(k));
    assert(sets.take(k + 1).last() == sets[k]);
}

pub proof fn lemma_union_of_take_full(sets: Seq<Set<Seq<char>>>)
    ensures
        union_of(sets.take(sets.len() as int)) == union_of(sets),
{
    assert(sets.take(sets.len() as int) =~= sets);
}

/// Every member set is contained in the union of the sequence.
pub proof fn lemma_union_of_member(sets: Seq<Set<Seq<char>>>, i: int)
    requires
        0 <= i < sets.len(),
    ensures
        sets[i].subset_of(union_of(sets)),
    decreases sets.len(),
{
    if i == sets.len() - 1 {
    } else {
        lemma_union_of_member(sets.drop_last(), i);
        assert(sets.drop_last()[i] == sets[i]);
    }
}

/// Without duplicates, a sequence denotes a set with exactly one element per
/// entry.
pub proof fn lemma_ids_of_cardinality(s: Seq<AccountId>)
    requires
        forall|i: int, j: int| 0 <= i < j < s.len() ==> s[i]@ != s[j]@,
    ensures
        ids_of(s).finite(),
        ids_of(s).len() == s.len(),
    decreases s.len(),
{
    if s.len() == 0 {
        assert(ids_of(s) =~= Set::<Seq<char>>::empty());
    } else {
        let prefix = s.drop_last();
        assert forall|i: int, j: int| 0 <= i < j < prefix.len() implies prefix[i]@
            != prefix[j]@ by {
            assert(prefix[i] == s[i]);
            assert(prefix[j] == s[j]);
        };
        lemma_ids_of_cardinality(prefix);
        lemma_ids_of_take_step(s, s.len() - 1);
        lemma_ids_of_take_full(s);
        assert(s.take(s.len() - 1) =~= prefix);
        assert(!ids_of(prefix).contains(s.last()@)) by {
            if ids_of(prefix).contains(s.last()@) {
                let i = choose|i: int|
                    0 <= i < prefix.len() && #[trigger] prefix[i]@ == s.last()@;
                assert(s[i]@ == s[s.len() - 1]@);
            }
        };
    }
}

/// The identifier sets denoted by a sequence of `DidSet`s, in order.
pub open spec fn set_views(s: Seq<DidSet>) -> Seq<Set<Seq<char>>> {
    s.map_values(|d: DidSet| d@)
}

/// A finite set of canonical account identifiers, stored without duplicates.
pub struct DidSet {
    members: Vec<AccountId>,
}

impl View for DidSet {
    type V = Set<Seq<char>>;

    open spec fn view(&self) -> Set<Seq<char>> {
        ids_of(self.elems())
    }
}

impl DidSet {
    /// The members, in insertion order.
    pub closed spec fn elems(&self) -> Seq<AccountId> {
        self.members@
    }

    /// No two members denote the same canonical identifier.
    pub open spec fn wf(&self) -> bool {
        forall|i: int, j: int|
            0 <= i < j < self.elems().len() ==> self.elems()[i]@ != self.elems()[j]@
    }

    pub fn new() -> (s: DidSet)
        ensures
            s.wf(),
            s@ == Set::<Seq<char>>::empty(),
            s.elems().len() == 0,
    {
        let s = DidSet { members: Vec::new() };
        proof {
            assert(s@ =~= Set::<Seq<char>>::empty());
        }
        s
    }

    pub fn len(&self) -> (n: usize)
        ensures
            n == self.elems().len(),
    {
        self.members.len()
    }

    /// A well-formed set's stored length is the cardinality of the set it
    /// denotes.
    pub proof fn lemma_len_is_cardinality(&self)
        requires
            self.wf(),
        ensures
            self@.finite(),
            self@.len() == self.elems().len(),
    {
        lemma_ids_of_cardinality(self.elems());
    }

    pub fn at(&self, i: usize) -> (a: &AccountId)
        requires
            i < self.elems().len(),
        ensures
            *a == self.elems()[i as int],
    {
        &self.members[i]
    }

    pub fn contains(&self, id: &AccountId) -> (r: bool)
        ensures
            r == self@.contains(id@),
    {
        let n = self.members.len();
        let mut k: usize = 0;
        while k < n
            invariant
                n == self.members@.len(),
                k <= n,
                forall|i: int| 0 <= i < k ==> self.members@[i]@ != id@,
            decreases n - k,
        {
            if self.members[k].same(id) {
                assert(self.members@[k as int]@ == id@);
                return true;
            }
            k += 1;
        }
        false
    }

    pub fn insert(&mut self, id: AccountId)
        requires
            old(self).wf(),
        ensures
            final(self).wf(),
            final(self)@ == old(self)@.insert(id@),
    {
        if !self.contains(&id) {
            let ghost before = self.members@;
            self.members.push(id);
            proof {
                assert forall|i: int, j: int|
                    0 <= i < j < self.members@.len() implies self.members@[i]@
                    != self.members@[j]@ by {
                    if j == self.members@.len() - 1 {
                        assert(before[i]@ != id@);
                    }
                };
                assert(self@ =~= old(self)@.insert(id@)) by {
                    assert forall|x: Seq<char>| old(self)@.insert(id@).contains(x) implies
                        self@.contains(x) by {
                        if x == id@ {
                            assert(self.members@[before.len() as int]@ == x);
                        } else {
                            let i = choose|i: int| 0 <= i < before.len() && #[trigger] before[i]@ == x;
                            assert(self.members@[i]@ == x);
                        }
                    };
                };
            }
        } else {
            proof {
                assert(self@ =~= old(self)@.insert(id@));
            }
        }
    }

    pub fn union_with(&mut self, other: &DidSet)
        requires
            old(self).wf(),
        ensures
            final(self).wf(),
            final(self)@ == old(self)@ + other@,
    {
        let n = other.len();
        let mut k: usize = 0;
        while k < n
            invariant
                n == other.elems().len(),
                k <= n,
                self.wf(),
                self@ == old(self)@ + ids_of(other.elems().take(k as int)),
            decreases n - k,
        {
            let a = other.at(k).duplicate();
            proof {
                lemma_ids_of_take_step(other.elems(), k as int);
            }
            self.insert(a);
            proof {
                assert(self@ =~= old(self)@ + ids_of(other.elems().take(k as int + 1)));
            }
            k += 1;
        }
        proof {
            lemma_ids_of_take_full(other.elems());
        }
    }

    /// All members of `self` that are not members of `other`.
    pub fn difference(&self, other: &DidSet) -> (d: DidSet)
        ensures
            d.wf(),
            d@ == self@.difference(other@),
    {
        let mut d = DidSet::new();
        let n = self.members.len();
        let mut k: usize = 0;
        while k < n
            invariant
                n == self.elems().len(),
                k <= n,
                d.wf(),
                d@ == ids_of(self.elems().take(k as int)).difference(other@),
            decreases n - k,
        {
            let a = &self.members[k];
            proof {
                lemma_ids_of_take_step(self.elems(), k as int);
            }
            if !other.contains(a) {
                d.insert(a.duplicate());
            }
            proof {
                assert(d@ =~= ids_of(self.elems().take(k as int + 1)).difference(other@));
            }
            k += 1;
        }
        proof {
            lemma_ids_of_take_full(self.elems());
        }
        d
    }
}

} // verus!
