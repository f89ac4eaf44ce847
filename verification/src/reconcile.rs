use vstd::prelude::*;
use crate::idset::{DidSet, ids_of, lemma_ids_of_take_step, lemma_ids_of_take_full};
use crate::membership::{MembershipMap, MembershipRecord, members_of, distinct_members,
    lemma_assoc_map_dom, lemma_assoc_map_lookup, lemma_members_of_take_step,
    lemma_members_of_push};

verus! {

/// The minimal mutation set that makes a list's membership equal the target:
/// accounts to add, and existing membership records to remove. Each half is
/// a pure set; operations within each half are independent and may be
/// applied in any order.
pub struct ReconciliationPlan {
    pub to_add: DidSet,
    pub to_remove: Vec<MembershipRecord>,
}

impl ReconciliationPlan {
    /// The members whose records the plan removes.
    pub open spec fn removed_ids(&self) -> Set<Seq<char>> {
        members_of(self.to_remove@)
    }
}

/// Diff the target set against the current membership: accounts in the
/// target but not yet on the list are to add; records whose member the
/// target no longer wants are to remove, each carried with the locator
/// needed to delete it.
pub fn reconcile(target: &DidSet, current: &MembershipMap) -> (plan: ReconciliationPlan)
    requires
        target.wf(),
        current.wf(),
    ensures
        plan.to_add.wf(),
        plan.to_add@ == target@.difference(current@.dom()),
        plan.removed_ids() == current@.dom().difference(target@),
        distinct_members(plan.to_remove@),
        forall|i: int|
            0 <= i < plan.to_remove@.len() ==> {
                &&& current@.dom().contains((#[trigger] plan.to_remove@[i]).member@)
                &&& plan.to_remove@[i].locator@ == current@[plan.to_remove@[i].member@]
                &&& !target@.contains(plan.to_remove@[i].member@)
            },
{
    let mut to_add = DidSet::new();
    let n = target.len();
    let mut k: usize = 0;
    while k < n
        invariant
            n == target.elems().len(),
            target.wf(),
            current.wf(),
            k <= n,
            to_add.wf(),
            to_add@ == ids_of(target.elems().take(k as int)).difference(current@.dom()),
        decreases n - k,
    {
        let a = target.at(k);
        proof {
            lemma_ids_of_take_step(target.elems(), k as int);
        }
        if !current.contains_key(a) {
            to_add.insert(a.duplicate());
        }
        proof {
            assert(to_add@ =~= ids_of(target.elems().take(k as int + 1)).difference(
                current@.dom(),
            ));
        }
        k += 1;
    }
    proof {
        lemma_ids_of_take_full(target.elems());
    }

    let mut to_remove: Vec<MembershipRecord> = Vec::new();
    let m = current.count();
    let mut j: usize = 0;
    while j < m
        invariant
            m == current.records().len(),
            target.wf(),
            current.wf(),
            j <= m,
            members_of(to_remove@) == members_of(current.records().take(j as int)).difference(
                target@,
            ),
            forall|i: int|
                0 <= i < to_remove@.len() ==> exists|idx: int|
                    0 <= idx < j && (#[trigger] to_remove@[i]) == current.records()[idx],
            forall|i: int|
                0 <= i < to_remove@.len() ==> {
                    &&& current@.dom().contains((#[trigger] to_remove@[i]).member@)
                    &&& to_remove@[i].locator@ == current@[to_remove@[i].member@]
                    &&& !target@.contains(to_remove@[i].member@)
                },
            distinct_members(to_remove@),
        decreases m - j,
    {
        let r = current.record_at(j);
        proof {
            lemma_members_of_take_step(current.records(), j as int);
        }
        let ghost before = to_remove@;
        if !target.contains(&r.member) {
            proof {
                lemma_assoc_map_lookup(current.records(), j as int);
                lemma_assoc_map_dom(current.records());
                assert(members_of(current.records()).contains(r.member@));
            }
            to_remove.push(r.duplicate());
            proof {
                lemma_members_of_push(before, *r);
                assert(members_of(to_remove@) =~= members_of(
                    current.records().take(j as int + 1),
                ).difference(target@));
                assert forall|p: int, q: int|
                    0 <= p < q < to_remove@.len() implies to_remove@[p].member@
                    != to_remove@[q].member@ by {
                    if q == to_remove@.len() - 1 {
                        let idx = choose|idx: int|
                            0 <= idx < j && (#[trigger] before[p]) == current.records()[idx];
                        assert(current.records()[idx].member@ != current.records()[
                            j as int].member@);
                    } else {
                        assert(before[p].member@ != before[q].member@);
                    }
                };
            }
        } else {
            proof {
                assert(members_of(to_remove@) =~= members_of(
                    current.records().take(j as int + 1),
                ).difference(target@));
            }
        }
        j += 1;
    }
    proof {
        assert(current.records().take(m as int) =~= current.records());
        lemma_assoc_map_dom(current.records());
    }
    ReconciliationPlan { to_add, to_remove }
}

/// Applying the plan to the current membership yields exactly the target:
/// removing the planned members and adding the planned accounts turns the
/// current key set into the target set.
pub proof fn lemma_plan_applies(
    plan: ReconciliationPlan,
    target: Set<Seq<char>>,
    current: Map<Seq<char>, Seq<char>>,
)
    requires
        plan.to_add@ == target.difference(current.dom()),
        plan.removed_ids() == current.dom().difference(target),
    ensures
        current.dom().difference(plan.removed_ids()).union(plan.to_add@) == target,
        plan.to_add@.union(current.dom().intersect(target)) == target,
{
    assert(current.dom().difference(plan.removed_ids()).union(plan.to_add@) =~= target);
    assert(plan.to_add@.union(current.dom().intersect(target)) =~= target);
}

/// When every current member is still wanted, the additions alone extend the
/// current key set to exactly the target.
pub proof fn lemma_additions_cover(
    plan: ReconciliationPlan,
    target: Set<Seq<char>>,
    current: Map<Seq<char>, Seq<char>>,
)
    requires
        plan.to_add@ == target.difference(current.dom()),
        current.dom().subset_of(target),
    ensures
        current.dom().union(plan.to_add@) == target.union(current.dom().intersect(target)),
{
    assert(current.dom().union(plan.to_add@) =~= target.union(current.dom().intersect(target)));
}

/// Reconciling an already synchronized list yields an empty plan on both
/// sides.
pub proof fn lemma_reconcile_idempotent(
    plan: ReconciliationPlan,
    target: Set<Seq<char>>,
    current: Map<Seq<char>, Seq<char>>,
)
    requires
        plan.to_add@ == target.difference(current.dom()),
        plan.removed_ids() == current.dom().difference(target),
        current.dom() == target,
    ensures
        plan.to_add@ == Set::<Seq<char>>::empty(),
        plan.removed_ids() == Set::<Seq<char>>::empty(),
{
    assert(plan.to_add@ =~= Set::<Seq<char>>::empty());
    assert(plan.removed_ids() =~= Set::<Seq<char>>::empty());
}

} // verus!
