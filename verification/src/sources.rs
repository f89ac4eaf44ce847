use vstd::prelude::*;
use crate::account::{AccountId, AccountRef, id_views};
use crate::idset::{DidSet, set_views, union_of, lemma_union_of_take_step, lemma_union_of_take_full,
    lemma_union_of_member};

verus! {

/// A declarative rule yielding a set of accounts: the followers of one
/// account, the accounts one account follows, or a fixed list of accounts.
pub enum Source {
    Followers { followers_of: AccountRef },
    Follows { followed_by: AccountRef },
    Hardcoded { users: Vec<AccountRef> },
}

/// One list's declarative specification. The effective target set is the
/// union of the resolved includes minus the union of the resolved excludes.
pub struct Blocklist {
    pub name: String,
    pub includes: Vec<Source>,
    pub excludes: Vec<Source>,
}

impl Blocklist {
    /// A specification with no excludes, as written when only includes are
    /// declared.
    pub fn new(name: String, includes: Vec<Source>) -> (b: Blocklist)
        ensures
            b.name@ == name@,
            b.includes == includes,
            b.excludes@.len() == 0,
    {
        Blocklist { name, includes, excludes: Vec::new() }
    }
}

/// The handles among a sequence of account references, in order. These are
/// the entries that still need one resolution call each.
pub open spec fn handles_of(s: Seq<AccountRef>) -> Seq<Seq<char>>
    decreases s.len(),
{
    if s.len() == 0 {
        Seq::empty()
    } else {
        let rest = handles_of(s.drop_last());
        match s.last() {
            AccountRef::Did(_) => rest,
            AccountRef::Handle(h) => rest.push(h@),
        }
    }
}

/// The set of canonical identifiers denoted by a literal source, given the
/// canonical identifiers its handles resolved to, consumed in handle order.
pub open spec fn literal_ids(s: Seq<AccountRef>, resolved: Seq<Seq<char>>) -> Set<Seq<char>>
    decreases s.len(),
{
    if s.len() == 0 {
        Set::empty()
    } else {
        match s.last() {
            AccountRef::Did(d) => literal_ids(s.drop_last(), resolved).insert(d@),
            AccountRef::Handle(_) => literal_ids(s.drop_last(), resolved.drop_last()).insert(
                resolved.last(),
            ),
        }
    }
}

proof fn lemma_handles_take_step(s: Seq<AccountRef>, i: int)
    requires
        0 <= i < s.len(),
    ensures
        s[i] is Did ==> handles_of(s.take(i + 1)) == handles_of(s.take(i)),
        s[i] is Handle ==> handles_of(s.take(i + 1)) == handles_of(s.take(i)).push(
            s[i]->Handle_0@,
        ),
{
    assert(s.take(i + 1).drop_last() =~= s.take(i));
    assert(s.take(i + 1).last() == s[i]);
}

proof fn lemma_handles_take_len(s: Seq<AccountRef>, i: int)
    requires
        0 <= i <= s.len(),
    ensures
        handles_of(s.take(i)).len() <= handles_of(s).len(),
    decreases s.len() - i,
{
    if i == s.len() {
        assert(s.take(i) =~= s);
    } else {
        lemma_handles_take_step(s, i);
        lemma_handles_take_len(s, i + 1);
    }
}

proof fn lemma_literal_take_step(s: Seq<AccountRef>, resolved: Seq<Seq<char>>, i: int, j: int)
    requires
        0 <= i < s.len(),
        0 <= j,
        s[i] is Handle ==> j + 1 <= resolved.len(),
    ensures
        s[i] is Did ==> literal_ids(s.take(i + 1), resolved.take(j)) == literal_ids(
            s.take(i),
            resolved.take(j),
        ).insert(s[i]->Did_0@),
        s[i] is Handle ==> literal_ids(s.take(i + 1), resolved.take(j + 1)) == literal_ids(
            s.take(i),
            resolved.take(j),
        ).insert(resolved[j]),
{
    assert(s.take(i + 1).drop_last() =~= s.take(i));
    assert(s.take(i + 1).last() == s[i]);
    if s[i] is Handle {
        assert(resolved.take(j + 1).drop_last() =~= resolved.take(j));
        assert(resolved.take(j + 1).last() == resolved[j]);
    }
}

/// The handles of a literal source, in the order their resolutions are
/// consumed by `collect_literal`.
pub fn literal_handles(users: &Vec<AccountRef>) -> (hs: Vec<String>)
    ensures
        hs@.map_values(|x: String| x@) == handles_of(users@),
{
    let mut hs: Vec<String> = Vec::new();
    let n = users.len();
    let mut i: usize = 0;
    while i < n
        invariant
            n == users@.len(),
            i <= n,
            hs@.map_values(|x: String| x@) == handles_of(users@.take(i as int)),
        decreases n - i,
    {
        proof {
            lemma_handles_take_step(users@, i as int);
        }
        let ghost before = hs@;
        match &users[i] {
            AccountRef::Did(_) => {},
            AccountRef::Handle(h) => {
                hs.push(h.clone());
                proof {
                    assert(hs@.map_values(|x: String| x@) =~= before.map_values(
                        |x: String| x@,
                    ).push(users@[i as int]->Handle_0@));
                }
            },
        }
        i += 1;
    }
    proof {
        assert(users@.take(n as int) =~= users@);
    }
    hs
}

/// The set of canonical identifiers a literal source denotes: entries that
/// are already canonical are taken as they stand, and each handle entry is
/// replaced by its resolution, supplied in the order `literal_handles` gives.
pub fn collect_literal(users: &Vec<AccountRef>, resolved: &Vec<AccountId>) -> (s: DidSet)
    requires
        resolved@.len() == handles_of(users@).len(),
    ensures
        s.wf(),
        s@ == literal_ids(users@, id_views(resolved@)),
{
    let ghost rv = id_views(resolved@);
    let mut s = DidSet::new();
    let n = users.len();
    let m = resolved.len();
    let mut i: usize = 0;
    let mut j: usize = 0;
    while i < n
        invariant
            n == users@.len(),
            m == resolved@.len(),
            i <= n,
            j == handles_of(users@.take(i as int)).len(),
            j <= m,
            resolved@.len() == handles_of(users@).len(),
            rv == id_views(resolved@),
            s.wf(),
            s@ == literal_ids(users@.take(i as int), rv.take(j as int)),
        decreases n - i,
    {
        proof {
            lemma_handles_take_step(users@, i as int);
            lemma_handles_take_len(users@, i as int + 1);
            lemma_literal_take_step(users@, rv, i as int, j as int);
        }
        match &users[i] {
            AccountRef::Did(d) => {
                s.insert(d.duplicate());
            },
            AccountRef::Handle(_) => {
                proof {
                    assert(handles_of(users@.take(i as int + 1)).len() == j + 1);
                }
                let a = resolved[j].duplicate();
                s.insert(a);
                j += 1;
            },
        }
        i += 1;
    }
    proof {
        assert(users@.take(n as int) =~= users@);
        assert(rv.take(j as int) =~= rv);
    }
    s
}

/// Resolving the same literal source twice against an unchanged remote view,
/// that is against the same handle resolutions, yields the same set.
pub proof fn lemma_literal_resolution_deterministic(
    r1: DidSet,
    r2: DidSet,
    users: Seq<AccountRef>,
    resolved: Seq<Seq<char>>,
)
    requires
        r1@ == literal_ids(users, resolved),
        r2@ == literal_ids(users, resolved),
    ensures
        r1@ == r2@,
{
}

/// The union of the sets that a run's sources resolved to.
pub fn resolve_sources(sets: &Vec<DidSet>) -> (out: DidSet)
    ensures
        out.wf(),
        out@ == union_of(set_views(sets@)),
{
    let mut out = DidSet::new();
    let n = sets.len();
    let mut k: usize = 0;
    while k < n
        invariant
            n == sets@.len(),
            k <= n,
            out.wf(),
            out@ == union_of(set_views(sets@).take(k as int)),
        decreases n - k,
    {
        proof {
            lemma_union_of_take_step(set_views(sets@), k as int);
        }
        out.union_with(&sets[k]);
        k += 1;
    }
    proof {
        lemma_union_of_take_full(set_views(sets@));
    }
    out
}

/// The target membership of one list, from the sets its include and exclude
/// sources resolved to: the union of the includes minus the union of the
/// excludes. The result depends only on set membership, never on the order
/// in which the sources were declared.
pub fn resolve_blocklist(included: &Vec<DidSet>, excluded: &Vec<DidSet>) -> (target: DidSet)
    ensures
        target.wf(),
        target@ == union_of(set_views(included@)).difference(union_of(set_views(excluded@))),
{
    let inc = resolve_sources(included);
    let exc = resolve_sources(excluded);
    inc.difference(&exc)
}

/// Exclusion strictly dominates: an account contributed by any exclude source
/// is absent from the resolved target set, even when an include source also
/// contributes it.
pub proof fn lemma_exclusion_dominates(
    included: Seq<Set<Seq<char>>>,
    excluded: Seq<Set<Seq<char>>>,
    a: Seq<char>,
    i: int,
)
    requires
        0 <= i < excluded.len(),
        excluded[i].contains(a),
    ensures
        !union_of(included).difference(union_of(excluded)).contains(a),
{
    lemma_union_of_member(excluded, i);
}

/// An empty include list yields an empty target set, whatever the excludes.
pub proof fn lemma_empty_includes(excluded: Seq<Set<Seq<char>>>)
    ensures
        union_of(Seq::<Set<Seq<char>>>::empty()).difference(union_of(excluded))
            == Set::<Seq<char>>::empty(),
{
    assert(union_of(Seq::<Set<Seq<char>>>::empty()).difference(union_of(excluded))
        =~= Set::<Seq<char>>::empty());
}

/// Membership in the union of a sequence of sets depends only on membership
/// in some member set, never on the sequence's order.
pub proof fn lemma_union_of_characterization(sets: Seq<Set<Seq<char>>>)
    ensures
        union_of(sets) == Set::new(
            |x: Seq<char>| exists|i: int| 0 <= i < sets.len() && #[trigger] sets[i].contains(x),
        ),
    decreases sets.len(),
{
    let c = Set::new(
        |x: Seq<char>| exists|i: int| 0 <= i < sets.len() && #[trigger] sets[i].contains(x),
    );
    if sets.len() == 0 {
        assert(union_of(sets) =~= c);
    } else {
        lemma_union_of_characterization(sets.drop_last());
        assert(union_of(sets) =~= c) by {
            assert forall|x: Seq<char>| union_of(sets).contains(x) implies c.contains(x) by {
                if union_of(sets.drop_last()).contains(x) {
                    let i = choose|i: int|
                        0 <= i < sets.drop_last().len() && #[trigger] sets.drop_last()[i].contains(
                            x,
                        );
                    assert(sets[i].contains(x));
                } else {
                    assert(sets[sets.len() - 1].contains(x));
                }
            };
            assert forall|x: Seq<char>| c.contains(x) implies union_of(sets).contains(x) by {
                let i = choose|i: int| 0 <= i < sets.len() && #[trigger] sets[i].contains(x);
                if i < sets.len() - 1 {
                    assert(sets.drop_last()[i].contains(x));
                }
            };
        };
    }
}

/// Two runs that resolved the same collection of per-source sets, in any
/// order, have the same union.
pub proof fn lemma_union_of_order_independent(s1: Seq<Set<Seq<char>>>, s2: Seq<Set<Seq<char>>>)
    requires
        s1.to_set() == s2.to_set(),
    ensures
        union_of(s1) == union_of(s2),
{
    lemma_union_of_characterization(s1);
    lemma_union_of_characterization(s2);
    assert(union_of(s1) =~= union_of(s2)) by {
        assert forall|x: Seq<char>| union_of(s1).contains(x) implies union_of(s2).contains(x) by {
            let i = choose|i: int| 0 <= i < s1.len() && #[trigger] s1[i].contains(x);
            assert(s1.to_set().contains(s1[i]));
            assert(s2.to_set().contains(s1[i]));
            let j = choose|j: int| 0 <= j < s2.len() && s2[j] == s1[i];
            assert(s2[j].contains(x));
        };
        assert forall|x: Seq<char>| union_of(s2).contains(x) implies union_of(s1).contains(x) by {
            let i = choose|i: int| 0 <= i < s2.len() && #[trigger] s2[i].contains(x);
            assert(s2.to_set().contains(s2[i]));
            assert(s1.to_set().contains(s2[i]));
            let j = choose|j: int| 0 <= j < s1.len() && s1[j] == s2[i];
            assert(s1[j].contains(x));
        };
    };
}

} // verus!
