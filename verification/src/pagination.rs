use vstd::prelude::*;
use crate::account::AccountId;
use crate::idset::{DidSet, ids_of, union_of, lemma_ids_of_take_step, lemma_ids_of_take_full,
    lemma_union_of_take_step, lemma_union_of_take_full};

verus! {

/// One page of relationship entries, as the remote returns it: the
/// counterpart accounts on this page, and the continuation cursor. An absent
/// cursor signals the final page.
pub struct Page {
    pub items: Vec<AccountId>,
    pub cursor: Option<String>,
}

impl Page {
    /// The canonical identifiers this page carries.
    pub open spec fn item_ids(&self) -> Set<Seq<char>> {
        ids_of(self.items@)
    }

    /// Whether this page ends the fetch.
    pub open spec fn is_last(&self) -> bool {
        self.cursor is None
    }
}

/// The identifiers carried by a whole sequence of pages.
pub open spec fn pages_ids(pages: Seq<Page>) -> Set<Seq<char>> {
    union_of(pages.map_values(|p: Page| p.item_ids()))
}

/// Cursor-driven accumulation of one account's relationship entries
/// (followers or follows) into a set of canonical identifiers. Pages are
/// absorbed in the order the server-issued cursors dictate; duplicate entries
/// within or across pages collapse by set semantics.
pub struct RelationshipFetch {
    found: DidSet,
    done: bool,
}

impl RelationshipFetch {
    /// The identifiers accumulated so far.
    pub closed spec fn found_ids(&self) -> Set<Seq<char>> {
        self.found@
    }

    /// Whether the final page has been absorbed.
    pub closed spec fn is_done(&self) -> bool {
        self.done
    }

    pub closed spec fn wf(&self) -> bool {
        self.found.wf()
    }

    /// A fetch that has seen no page yet. The actor itself is not included;
    /// only what the remote returns is accumulated.
    pub fn begin() -> (f: RelationshipFetch)
        ensures
            f.wf(),
            !f.is_done(),
            f.found_ids() == Set::<Seq<char>>::empty(),
    {
        RelationshipFetch { found: DidSet::new(), done: false }
    }

    /// Absorb one page: every identifier on the page joins the accumulated
    /// set, and the fetch is finished exactly when the page carries no
    /// continuation cursor.
    pub fn apply_page(&mut self, page: &Page)
        requires
            old(self).wf(),
            !old(self).is_done(),
        ensures
            final(self).wf(),
            final(self).found_ids() == old(self).found_ids() + page.item_ids(),
            final(self).is_done() == page.is_last(),
    {
        let n = page.items.len();
        let mut k: usize = 0;
        while k < n
            invariant
                n == page.items@.len(),
                k <= n,
                self.found.wf(),
                self.found@ == old(self).found@ + ids_of(page.items@.take(k as int)),
                self.done == old(self).done,
            decreases n - k,
        {
            proof {
                lemma_ids_of_take_step(page.items@, k as int);
            }
            self.found.insert(page.items[k].duplicate());
            proof {
                assert(self.found@ =~= old(self).found@ + ids_of(
                    page.items@.take(k as int + 1),
                ));
            }
            k += 1;
        }
        proof {
            lemma_ids_of_take_full(page.items@);
        }
        self.done = page.cursor.is_none();
    }

    /// Absorb a whole cursor sequence: every page but the last carries a
    /// cursor, the last does not. The result is the union of all pages'
    /// identifiers, with no duplicates, whatever was repeated across pages.
    pub fn absorb_pages(&mut self, pages: &Vec<Page>)
        requires
            old(self).wf(),
            !old(self).is_done(),
            pages@.len() >= 1,
            forall|i: int| 0 <= i < pages@.len() - 1 ==> !(#[trigger] pages@[i]).is_last(),
            pages@.last().is_last(),
        ensures
            final(self).wf(),
            final(self).is_done(),
            final(self).found_ids() == old(self).found_ids() + pages_ids(pages@),
    {
        let ghost page_sets = pages@.map_values(|p: Page| p.item_ids());
        let n = pages.len();
        let mut k: usize = 0;
        while k < n
            invariant
                n == pages@.len(),
                k <= n,
                page_sets == pages@.map_values(|p: Page| p.item_ids()),
                forall|i: int| 0 <= i < n - 1 ==> !(#[trigger] pages@[i]).is_last(),
                self.wf(),
                self.is_done() <==> (k == n && pages@.last().is_last()),
                self.found_ids() == old(self).found_ids() + union_of(page_sets.take(k as int)),
            decreases n - k,
        {
            proof {
                lemma_union_of_take_step(page_sets, k as int);
            }
            self.apply_page(&pages[k]);
            proof {
                assert(self.found_ids() =~= old(self).found_ids() + union_of(
                    page_sets.take(k as int + 1),
                ));
            }
            k += 1;
        }
        proof {
            lemma_union_of_take_full(page_sets);
        }
    }

    /// The accumulated set, once the final page was seen. A fetch that fails
    /// mid-sequence never reaches this point: no partial result is handed out.
    pub fn into_set(self) -> (s: DidSet)
        requires
            self.wf(),
            self.is_done(),
        ensures
            s.wf(),
            s@ == self.found_ids(),
    {
        self.found
    }
}

} // verus!
