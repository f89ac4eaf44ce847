use vstd::prelude::*;
use crate::account::AccountId;

verus! {

/// One entry of a list's current membership: the member's canonical
/// identifier paired with the locator of the membership record itself. The
/// locator is required to delete the record later; it is not derivable from
/// the member alone.
pub struct MembershipRecord {
    pub member: AccountId,
    pub locator: String,
}

impl MembershipRecord {
    /// An explicit copy whose contract keeps both fields.
    pub fn duplicate(&self) -> (r: MembershipRecord)
        ensures
            r == *self,
    {
        MembershipRecord { member: self.member.duplicate(), locator: self.locator.clone() }
    }
}

/// The member-to-locator mapping denoted by a sequence of records, where a
/// later record for the same member wins.
pub open spec fn assoc_map(s: Seq<MembershipRecord>) -> Map<Seq<char>, Seq<char>>
    decreases s.len(),
{
    if s.len() == 0 {
        Map::empty()
    } else {
        assoc_map(s.drop_last()).insert(s.last().member@, s.last().locator@)
    }
}

/// The members that a sequence of records mentions.
pub open spec fn members_of(s: Seq<MembershipRecord>) -> Set<Seq<char>> {
    Set::new(|x: Seq<char>| exists|i: int| 0 <= i < s.len() && (#[trigger] s[i].member@) == x)
}

/// No two records mention the same member.
pub open spec fn distinct_members(s: Seq<MembershipRecord>) -> bool {
    forall|i: int, j: int| 0 <= i < j < s.len() ==> s[i].member@ != s[j].member@
}

pub proof fn lemma_assoc_map_dom(s: Seq<MembershipRecord>)
    ensures
        assoc_map(s).dom() == members_of(s),
    decreases s.len(),
{
    if s.len() == 0 {
        assert(assoc_map(s).dom() =~= members_of(s));
    } else {
        lemma_assoc_map_dom(s.drop_last());
        assert(assoc_map(s).dom() =~= members_of(s)) by {
            assert forall|x: Seq<char>| assoc_map(s).dom().contains(x) implies members_of(
                s,
            ).contains(x) by {
                if x == s.last().member@ {
                    assert(s[s.len() - 1].member@ == x);
                } else {
                    let i = choose|i: int|
                        0 <= i < s.drop_last().len() && (#[trigger] s.drop_last()[i].member@) == x;
                    assert(s[i].member@ == x);
                }
            };
            assert forall|x: Seq<char>| members_of(s).contains(x) implies assoc_map(
                s,
            ).dom().contains(x) by {
                let i = choose|i: int| 0 <= i < s.len() && (#[trigger] s[i].member@) == x;
                if i < s.len() - 1 {
                    assert(s.drop_last()[i].member@ == x);
                    assert(members_of(s.drop_last()).contains(x));
                }
            };
        };
    }
}

pub proof fn lemma_members_of_take_step(s: Seq<MembershipRecord>, k: int)
    requires
        0 <= k < s.len(),
    ensures
        members_of(s.take(k + 1)) == members_of(s.take(k)).insert(s[k].member@),
{
    assert(members_of(s.take(k + 1)) =~= members_of(s.take(k)).insert(s[k].member@)) by {
        assert forall|x: Seq<char>| members_of(s.take(k + 1)).contains(x) implies members_of(
            s.take(k),
        ).insert(s[k].member@).contains(x) by {
            let i = choose|i: int|
                0 <= i < s.take(k + 1).len() && (#[trigger] s.take(k + 1)[i].member@) == x;
            if i < k {
                assert(s.take(k)[i].member@ == x);
            }
        };
        assert forall|x: Seq<char>| members_of(s.take(k)).insert(s[k].member@).contains(
            x,
        ) implies members_of(s.take(k + 1)).contains(x) by {
            if x == s[k].member@ {
                assert(s.take(k + 1)[k].member@ == x);
            } else {
                let i = choose|i: int|
                    0 <= i < s.take(k).len() && (#[trigger] s.take(k)[i].member@) == x;
                assert(s.take(k + 1)[i].member@ == x);
            }
        };
    };
}

pub proof fn lemma_members_of_push(s: Seq<MembershipRecord>, r: MembershipRecord)
    ensures
        members_of(s.push(r)) == members_of(s).insert(r.member@),
{
    assert(s.push(r).take(s.len() as int) =~= s);
    assert(s.push(r).take(s.len() as int + 1) =~= s.push(r));
    lemma_members_of_take_step(s.push(r), s.len() as int);
}

/// With distinct members, each record's member is bound to that record's
/// locator.
pub proof fn lemma_assoc_map_lookup(s: Seq<MembershipRecord>, i: int)
    requires
        distinct_members(s),
        0 <= i < s.len(),
    ensures
        assoc_map(s).contains_key(s[i].member@),
        assoc_map(s)[s[i].member@] == s[i].locator@,
    decreases s.len(),
{
    if i == s.len() - 1 {
    } else {
        assert(distinct_members(s.drop_last())) by {
            assert forall|p: int, q: int|
                0 <= p < q < s.drop_last().len() implies s.drop_last()[p].member@
                != s.drop_last()[q].member@ by {
                assert(s.drop_last()[p] == s[p]);
                assert(s.drop_last()[q] == s[q]);
            };
        };
        assert(s.drop_last()[i] == s[i]);
        lemma_assoc_map_lookup(s.drop_last(), i);
        assert(s.last().member@ != s[i].member@);
    }
}

proof fn lemma_assoc_map_update(s: Seq<MembershipRecord>, i: int, rec: MembershipRecord)
    requires
        distinct_members(s),
        0 <= i < s.len(),
        s[i].member@ == rec.member@,
    ensures
        assoc_map(s.update(i, rec)) == assoc_map(s).insert(rec.member@, rec.locator@),
    decreases s.len(),
{
    let su = s.update(i, rec);
    if i == s.len() - 1 {
        assert(su.drop_last() =~= s.drop_last());
        assert(su.last() == rec);
        assert(assoc_map(su) =~= assoc_map(s).insert(rec.member@, rec.locator@));
    } else {
        assert(su.drop_last() =~= s.drop_last().update(i, rec));
        assert(su.last() == s.last());
        assert(distinct_members(s.drop_last())) by {
            assert forall|p: int, q: int|
                0 <= p < q < s.drop_last().len() implies s.drop_last()[p].member@
                != s.drop_last()[q].member@ by {
                assert(s.drop_last()[p] == s[p]);
                assert(s.drop_last()[q] == s[q]);
            };
        };
        assert(s.drop_last()[i] == s[i]);
        lemma_assoc_map_update(s.drop_last(), i, rec);
        assert(s.last().member@ != rec.member@);
        assert(assoc_map(su) =~= assoc_map(s).insert(rec.member@, rec.locator@));
    }
}

/// A list's current membership: a mapping from each member's canonical
/// identifier to the locator of that member's record.
pub struct MembershipMap {
    entries: Vec<MembershipRecord>,
}

impl View for MembershipMap {
    type V = Map<Seq<char>, Seq<char>>;

    open spec fn view(&self) -> Map<Seq<char>, Seq<char>> {
        assoc_map(self.records())
    }
}

impl MembershipMap {
    /// The records, in the order they were first seen.
    pub closed spec fn records(&self) -> Seq<MembershipRecord> {
        self.entries@
    }

    pub open spec fn wf(&self) -> bool {
        distinct_members(self.records())
    }

    pub fn new() -> (m: MembershipMap)
        ensures
            m.wf(),
            m@ == Map::<Seq<char>, Seq<char>>::empty(),
            m.records().len() == 0,
    {
        MembershipMap { entries: Vec::new() }
    }

    pub fn count(&self) -> (n: usize)
        ensures
            n == self.records().len(),
    {
        self.entries.len()
    }

    pub fn record_at(&self, i: usize) -> (r: &MembershipRecord)
        requires
            i < self.records().len(),
        ensures
            *r == self.records()[i as int],
    {
        &self.entries[i]
    }

    pub fn contains_key(&self, id: &AccountId) -> (r: bool)
        ensures
            r == self@.dom().contains(id@),
    {
        let n = self.entries.len();
        let mut k: usize = 0;
        while k < n
            invariant
                n == self.entries@.len(),
                k <= n,
                forall|i: int| 0 <= i < k ==> (#[trigger] self.entries@[i].member@) != id@,
            decreases n - k,
        {
            if self.entries[k].member.same(id) {
                proof {
                    lemma_assoc_map_dom(self.records());
                    assert(self.entries@[k as int].member@ == id@);
                    assert(members_of(self.records()).contains(id@));
                }
                return true;
            }
            k += 1;
        }
        proof {
            lemma_assoc_map_dom(self.records());
            assert(!members_of(self.records()).contains(id@));
        }
        false
    }

    /// The locator recorded for one member, if the member is on the list.
    pub fn get(&self, id: &AccountId) -> (r: Option<&String>)
        requires
            self.wf(),
        ensures
            match r {
                Some(l) => self@.dom().contains(id@) && l@ == self@[id@],
                None => !self@.dom().contains(id@),
            },
    {
        let n = self.entries.len();
        let mut k: usize = 0;
        while k < n
            invariant
                n == self.entries@.len(),
                k <= n,
                self.wf(),
                forall|i: int| 0 <= i < k ==> (#[trigger] self.entries@[i].member@) != id@,
            decreases n - k,
        {
            if self.entries[k].member.same(id) {
                proof {
                    lemma_assoc_map_lookup(self.records(), k as int);
                }
                return Some(&self.entries[k].locator);
            }
            k += 1;
        }
        proof {
            lemma_assoc_map_dom(self.records());
            assert(!members_of(self.records()).contains(id@));
        }
        None
    }

    /// Record one member's locator. A member seen before keeps a single
    /// entry: the newly seen locator wins, the defensive policy for
    /// duplicate membership records on the remote.
    pub fn insert(&mut self, rec: MembershipRecord)
        requires
            old(self).wf(),
        ensures
            final(self).wf(),
            final(self)@ == old(self)@.insert(rec.member@, rec.locator@),
    {
        let n = self.entries.len();
        let mut k: usize = 0;
        while k < n
            invariant
                n == self.entries@.len(),
                k <= n,
                old(self).wf(),
                self.entries@ == old(self).entries@,
                forall|i: int| 0 <= i < k ==> (#[trigger] self.entries@[i].member@) != rec.member@,
            decreases n - k,
        {
            if self.entries[k].member.same(&rec.member) {
                let ghost before = self.entries@;
                proof {
                    lemma_assoc_map_update(before, k as int, rec);
                }
                self.entries[k] = rec;
                proof {
                    assert(self.entries@ =~= before.update(k as int, rec));
                    assert forall|p: int, q: int|
                        0 <= p < q < self.entries@.len() implies self.entries@[p].member@
                        != self.entries@[q].member@ by {
                        if q == k as int {
                            assert(before[p].member@ != before[k as int].member@);
                        } else if p == k as int {
                            assert(before[k as int].member@ != before[q].member@);
                        } else {
                            assert(before[p].member@ != before[q].member@);
                        }
                    };
                }
                return;
            }
            k += 1;
        }
        let ghost before = self.entries@;
        self.entries.push(rec);
        proof {
            assert(self.entries@.drop_last() =~= before);
            assert(self.entries@.last() == rec);
            assert forall|i: int, j: int|
                0 <= i < j < self.entries@.len() implies self.entries@[i].member@
                != self.entries@[j].member@ by {
                if j == self.entries@.len() - 1 {
                    assert(before[i].member@ != rec.member@);
                }
            };
        }
    }
}

/// One page of a list's membership, as the remote returns it: the records on
/// this page and the continuation cursor. An absent cursor signals the final
/// page.
pub struct MemberPage {
    pub items: Vec<MembershipRecord>,
    pub cursor: Option<String>,
}

impl MemberPage {
    /// Whether this page ends the read.
    pub open spec fn is_last(&self) -> bool {
        self.cursor is None
    }
}

/// The mapping after recording a sequence of membership records in order,
/// later records for the same member winning.
pub open spec fn insert_all(
    m: Map<Seq<char>, Seq<char>>,
    items: Seq<MembershipRecord>,
) -> Map<Seq<char>, Seq<char>>
    decreases items.len(),
{
    if items.len() == 0 {
        m
    } else {
        insert_all(m, items.drop_last()).insert(items.last().member@, items.last().locator@)
    }
}

/// Cursor-driven accumulation of a list's current membership into a mapping
/// from member to record locator, paginating exactly like a relationship
/// fetch.
pub struct MembershipFetch {
    found: MembershipMap,
    done: bool,
}

impl MembershipFetch {
    /// The mapping accumulated so far.
    pub closed spec fn found_map(&self) -> Map<Seq<char>, Seq<char>> {
        self.found@
    }

    /// Whether the final page has been absorbed.
    pub closed spec fn is_done(&self) -> bool {
        self.done
    }

    pub closed spec fn wf(&self) -> bool {
        self.found.wf()
    }

    /// A read that has seen no page yet.
    pub fn begin() -> (f: MembershipFetch)
        ensures
            f.wf(),
            !f.is_done(),
            f.found_map() == Map::<Seq<char>, Seq<char>>::empty(),
    {
        MembershipFetch { found: MembershipMap::new(), done: false }
    }

    /// Absorb one page: every record on the page is recorded in order, a
    /// later record for a member already seen winning; the read is finished
    /// exactly when the page carries no continuation cursor.
    pub fn apply_page(&mut self, page: &MemberPage)
        requires
            old(self).wf(),
            !old(self).is_done(),
        ensures
            final(self).wf(),
            final(self).found_map() == insert_all(old(self).found_map(), page.items@),
            final(self).is_done() == page.is_last(),
    {
        let n = page.items.len();
        let mut k: usize = 0;
        while k < n
            invariant
                n == page.items@.len(),
                k <= n,
                self.found.wf(),
                self.found@ == insert_all(old(self).found@, page.items@.take(k as int)),
                self.done == old(self).done,
            decreases n - k,
        {
            proof {
                assert(page.items@.take(k as int + 1).drop_last() =~= page.items@.take(k as int));
                assert(page.items@.take(k as int + 1).last() == page.items@[k as int]);
            }
            self.found.insert(page.items[k].duplicate());
            k += 1;
        }
        proof {
            assert(page.items@.take(n as int) =~= page.items@);
        }
        self.done = page.cursor.is_none();
    }

    /// The accumulated mapping, once the final page was seen. A read that
    /// fails mid-sequence never reaches this point: no partial mapping is
    /// handed out.
    pub fn into_map(self) -> (m: MembershipMap)
        requires
            self.wf(),
            self.is_done(),
        ensures
            m.wf(),
            m@ == self.found_map(),
    {
        self.found
    }
}

} // verus!
