use vstd::prelude::*;

verus! {

/// A remote list identified by name, together with the opaque locator that
/// remote operations on the list need.
pub struct ListHandle {
    pub name: String,
    pub locator: String,
}

impl ListHandle {
    /// An explicit copy whose contract keeps both fields.
    pub fn duplicate(&self) -> (r: ListHandle)
        ensures
            r == *self,
    {
        ListHandle { name: self.name.clone(), locator: self.locator.clone() }
    }
}

/// The name-to-locator mapping denoted by a sequence of list handles, where
/// a later handle for the same name wins.
pub open spec fn name_map(s: Seq<ListHandle>) -> Map<Seq<char>, Seq<char>>
    decreases s.len(),
{
    if s.len() == 0 {
        Map::empty()
    } else {
        name_map(s.drop_last()).insert(s.last().name@, s.last().locator@)
    }
}

/// The names that a sequence of handles mentions.
pub open spec fn names_of(s: Seq<ListHandle>) -> Set<Seq<char>> {
    Set::new(|x: Seq<char>| exists|i: int| 0 <= i < s.len() && (#[trigger] s[i].name@) == x)
}

/// No two handles mention the same name.
pub open spec fn distinct_names(s: Seq<ListHandle>) -> bool {
    forall|i: int, j: int| 0 <= i < j < s.len() ==> s[i].name@ != s[j].name@
}

pub proof fn lemma_name_map_dom(s: Seq<ListHandle>)
    ensures
        name_map(s).dom() == names_of(s),
    decreases s.len(),
{
    if s.len() == 0 {
        assert(name_map(s).dom() =~= names_of(s));
    } else {
        lemma_name_map_dom(s.drop_last());
        assert(name_map(s).dom() =~= names_of(s)) by {
            assert forall|x: Seq<char>| name_map(s).dom().contains(x) implies names_of(
                s,
            ).contains(x) by {
                if x == s.last().name@ {
                    assert(s[s.len() - 1].name@ == x);
                } else {
                    let i = choose|i: int|
                        0 <= i < s.drop_last().len() && (#[trigger] s.drop_last()[i].name@) == x;
                    assert(s[i].name@ == x);
                }
            };
            assert forall|x: Seq<char>| names_of(s).contains(x) implies name_map(
                s,
            ).dom().contains(x) by {
                let i = choose|i: int| 0 <= i < s.len() && (#[trigger] s[i].name@) == x;
                if i < s.len() - 1 {
                    assert(s.drop_last()[i].name@ == x);
                    assert(names_of(s.drop_last()).contains(x));
                }
            };
        };
    }
}

/// With distinct names, each handle's name is bound to that handle's locator.
pub proof fn lemma_name_map_lookup(s: Seq<ListHandle>, i: int)
    requires
        distinct_names(s),
        0 <= i < s.len(),
    ensures
        name_map(s).contains_key(s[i].name@),
        name_map(s)[s[i].name@] == s[i].locator@,
    decreases s.len(),
{
    if i == s.len() - 1 {
    } else {
        assert(distinct_names(s.drop_last())) by {
            assert forall|p: int, q: int|
                0 <= p < q < s.drop_last().len() implies s.drop_last()[p].name@
                != s.drop_last()[q].name@ by {
                assert(s.drop_last()[p] == s[p]);
                assert(s.drop_last()[q] == s[q]);
            };
        };
        assert(s.drop_last()[i] == s[i]);
        lemma_name_map_lookup(s.drop_last(), i);
        assert(s.last().name@ != s[i].name@);
    }
}

proof fn lemma_name_map_update(s: Seq<ListHandle>, i: int, h: ListHandle)
    requires
        distinct_names(s),
        0 <= i < s.len(),
        s[i].name@ == h.name@,
    ensures
        name_map(s.update(i, h)) == name_map(s).insert(h.name@, h.locator@),
    decreases s.len(),
{
    let su = s.update(i, h);
    if i == s.len() - 1 {
        assert(su.drop_last() =~= s.drop_last());
        assert(su.last() == h);
        assert(name_map(su) =~= name_map(s).insert(h.name@, h.locator@));
    } else {
        assert(su.drop_last() =~= s.drop_last().update(i, h));
        assert(su.last() == s.last());
        assert(distinct_names(s.drop_last())) by {
            assert forall|p: int, q: int|
                0 <= p < q < s.drop_last().len() implies s.drop_last()[p].name@
                != s.drop_last()[q].name@ by {
                assert(s.drop_last()[p] == s[p]);
                assert(s.drop_last()[q] == s[q]);
            };
        };
        assert(s.drop_last()[i] == s[i]);
        lemma_name_map_update(s.drop_last(), i, h);
        assert(s.last().name@ != h.name@);
        assert(name_map(su) =~= name_map(s).insert(h.name@, h.locator@));
    }
}

/// The account's remote list collection, resolved once per run: a mapping
/// from list name to the locator of the remote list carrying that name.
pub struct ListDirectory {
    entries: Vec<ListHandle>,
}

impl View for ListDirectory {
    type V = Map<Seq<char>, Seq<char>>;

    open spec fn view(&self) -> Map<Seq<char>, Seq<char>> {
        name_map(self.handles())
    }
}

impl ListDirectory {
    /// The handles, in the order they were first seen.
    pub closed spec fn handles(&self) -> Seq<ListHandle> {
        self.entries@
    }

    pub open spec fn wf(&self) -> bool {
        distinct_names(self.handles())
    }

    pub fn new() -> (d: ListDirectory)
        ensures
            d.wf(),
            d@ == Map::<Seq<char>, Seq<char>>::empty(),
            d.handles().len() == 0,
    {
        ListDirectory { entries: Vec::new() }
    }

    /// Record one remote list's locator under its name. A name seen before
    /// keeps a single entry: the newly seen locator wins.
    pub fn insert(&mut self, h: ListHandle)
        requires
            old(self).wf(),
        ensures
            final(self).wf(),
            final(self)@ == old(self)@.insert(h.name@, h.locator@),
    {
        let n = self.entries.len();
        let mut k: usize = 0;
        while k < n
            invariant
                n == self.entries@.len(),
                k <= n,
                old(self).wf(),
                self.entries@ == old(self).entries@,
                forall|i: int| 0 <= i < k ==> (#[trigger] self.entries@[i].name@) != h.name@,
            decreases n - k,
        {
            if self.entries[k].name == h.name {
                let ghost before = self.entries@;
                proof {
                    lemma_name_map_update(before, k as int, h);
                }
                self.entries[k] = h;
                proof {
                    assert(self.entries@ =~= before.update(k as int, h));
                    assert forall|p: int, q: int|
                        0 <= p < q < self.entries@.len() implies self.entries@[p].name@
                        != self.entries@[q].name@ by {
                        if q == k as int {
                            assert(before[p].name@ != before[k as int].name@);
                        } else if p == k as int {
                            assert(before[k as int].name@ != before[q].name@);
                        } else {
                            assert(before[p].name@ != before[q].name@);
                        }
                    };
                }
                return;
            }
            k += 1;
        }
        let ghost before = self.entries@;
        self.entries.push(h);
        proof {
            assert(self.entries@.drop_last() =~= before);
            assert(self.entries@.last() == h);
            assert forall|i: int, j: int|
                0 <= i < j < self.entries@.len() implies self.entries@[i].name@
                != self.entries@[j].name@ by {
                if j == self.entries@.len() - 1 {
                    assert(before[i].name@ != h.name@);
                }
            };
        }
    }

    /// The remote list carrying a configured name, if one exists.
    pub fn find(&self, name: &String) -> (r: Option<ListHandle>)
        requires
            self.wf(),
        ensures
            match r {
                Some(h) => self@.dom().contains(name@) && h.name@ == name@ && h.locator@
                    == self@[name@],
                None => !self@.dom().contains(name@),
            },
    {
        let n = self.entries.len();
        let mut k: usize = 0;
        while k < n
            invariant
                n == self.entries@.len(),
                k <= n,
                self.wf(),
                forall|i: int| 0 <= i < k ==> (#[trigger] self.entries@[i].name@) != name@,
            decreases n - k,
        {
            if self.entries[k].name == *name {
                proof {
                    lemma_name_map_lookup(self.handles(), k as int);
                }
                return Some(self.entries[k].duplicate());
            }
            k += 1;
        }
        proof {
            lemma_name_map_dom(self.handles());
            assert(!names_of(self.handles()).contains(name@));
        }
        None
    }
}

/// One page of the account's list collection, as the remote returns it. An
/// absent cursor signals the final page.
pub struct ListPage {
    pub items: Vec<ListHandle>,
    pub cursor: Option<String>,
}

impl ListPage {
    /// Whether this page ends the read.
    pub open spec fn is_last(&self) -> bool {
        self.cursor is None
    }
}

/// The mapping after recording a sequence of handles in order, later handles
/// for the same name winning.
pub open spec fn record_all(
    m: Map<Seq<char>, Seq<char>>,
    items: Seq<ListHandle>,
) -> Map<Seq<char>, Seq<char>>
    decreases items.len(),
{
    if items.len() == 0 {
        m
    } else {
        record_all(m, items.drop_last()).insert(items.last().name@, items.last().locator@)
    }
}

/// Cursor-driven accumulation of the account's list collection into a
/// directory, paginating exactly like a relationship fetch.
pub struct ListingFetch {
    found: ListDirectory,
    done: bool,
}

impl ListingFetch {
    /// The directory accumulated so far.
    pub closed spec fn found_lists(&self) -> Map<Seq<char>, Seq<char>> {
        self.found@
    }

    /// Whether the final page has been absorbed.
    pub closed spec fn is_done(&self) -> bool {
        self.done
    }

    pub closed spec fn wf(&self) -> bool {
        self.found.wf()
    }

    /// A read that has seen no page yet.
    pub fn begin() -> (f: ListingFetch)
        ensures
            f.wf(),
            !f.is_done(),
            f.found_lists() == Map::<Seq<char>, Seq<char>>::empty(),
    {
        ListingFetch { found: ListDirectory::new(), done: false }
    }

    /// Absorb one page: every handle on the page is recorded in order; the
    /// read is finished exactly when the page carries no continuation cursor.
    pub fn apply_page(&mut self, page: &ListPage)
        requires
            old(self).wf(),
            !old(self).is_done(),
        ensures
            final(self).wf(),
            final(self).found_lists() == record_all(old(self).found_lists(), page.items@),
            final(self).is_done() == page.is_last(),
    {
        let n = page.items.len();
        let mut k: usize = 0;
        while k < n
            invariant
                n == page.items@.len(),
                k <= n,
                self.found.wf(),
                self.found@ == record_all(old(self).found@, page.items@.take(k as int)),
                self.done == old(self).done,
            decreases n - k,
        {
            proof {
                assert(page.items@.take(k as int + 1).drop_last() =~= page.items@.take(k as int));
                assert(page.items@.take(k as int + 1).last() == page.items@[k as int]);
            }
            self.found.insert(page.items[k].duplicate());
            k += 1;
        }
        proof {
            assert(page.items@.take(n as int) =~= page.items@);
        }
        self.done = page.cursor.is_none();
    }

    /// The accumulated directory, once the final page was seen.
    pub fn into_directory(self) -> (d: ListDirectory)
        requires
            self.wf(),
            self.is_done(),
        ensures
            d.wf(),
            d@ == self.found_lists(),
    {
        self.found
    }
}

/// What a run does about one configured list.
pub enum ListAction {
    /// The configured name has no remote match: request creation and skip
    /// reconciliation for this run. Creation is asynchronous on the remote
    /// side; the fresh list is reconciled on a future run, not retried now.
    Create,
    /// The configured name matched this remote list: reconcile against it.
    Reconcile(ListHandle),
}

/// Decide one configured list's handling for this run. A name with no remote
/// match requests creation and skips reconciliation, without raising an
/// error; a matched name is reconciled against the remote list its locator
/// identifies.
pub fn plan_list_action(name: &String, lists: &ListDirectory) -> (a: ListAction)
    requires
        lists.wf(),
    ensures
        a is Reconcile <==> lists@.dom().contains(name@),
        a matches ListAction::Reconcile(h) ==> h.name@ == name@ && h.locator@ == lists@[name@],
{
    match lists.find(name) {
        Some(h) => ListAction::Reconcile(h),
        None => ListAction::Create,
    }
}

} // verus!
