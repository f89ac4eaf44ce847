use earmuffs::AccountId;
use earmuffs::AccountRef;
use earmuffs::Blocklist;
use earmuffs::DidSet;
use earmuffs::ListAction;
use earmuffs::ListDirectory;
use earmuffs::ListHandle;
use earmuffs::ListPage;
use earmuffs::ListingFetch;
use earmuffs::MemberPage;
use earmuffs::MembershipFetch;
use earmuffs::MembershipMap;
use earmuffs::MembershipRecord;
use earmuffs::Page;
use earmuffs::RelationshipFetch;
use earmuffs::Source;
use earmuffs::collect_literal;
use earmuffs::literal_handles;
use earmuffs::plan_list_action;
use earmuffs::reconcile;
use earmuffs::resolve_blocklist;
use earmuffs::resolve_sources;

fn acct(s: &str) -> AccountId {
    AccountId::new(s.to_string())
}

fn record(member: &str, locator: &str) -> MembershipRecord {
    MembershipRecord {
        member: acct(member),
        locator: locator.to_string(),
    }
}

fn did_set(ids: &[&str]) -> DidSet {
    let mut s = DidSet::new();
    for id in ids {
        s.insert(acct(id));
    }
    s
}

fn handle(name: &str, locator: &str) -> ListHandle {
    ListHandle {
        name: name.to_string(),
        locator: locator.to_string(),
    }
}

#[test]
fn did_set_dedupes_and_answers_membership() {
    let mut s = DidSet::new();
    assert_eq!(s.len(), 0);
    assert!(!s.contains(&acct("did:plc:bob")));
    s.insert(acct("did:plc:bob"));
    s.insert(acct("did:plc:bob"));
    assert_eq!(s.len(), 1);
    assert!(s.contains(&acct("did:plc:bob")));
    assert!(!s.contains(&acct("did:plc:carol")));
}

#[test]
fn exclusion_dominates_target_resolution() {
    // include: followers of alice, resolved to {bob, carol};
    // exclude: a literal naming carol. Exclusion wins: target is {bob}.
    let included = vec![did_set(&["did:plc:bob", "did:plc:carol"])];
    let excluded = vec![did_set(&["did:plc:carol"])];
    let target = resolve_blocklist(&included, &excluded);
    assert_eq!(target.len(), 1);
    assert!(target.contains(&acct("did:plc:bob")));
    assert!(!target.contains(&acct("did:plc:carol")));
}

#[test]
fn account_in_both_include_and_exclude_is_excluded() {
    let included = vec![did_set(&["did:plc:a"]), did_set(&["did:plc:b"])];
    let excluded = vec![did_set(&["did:plc:a"])];
    let target = resolve_blocklist(&included, &excluded);
    assert!(!target.contains(&acct("did:plc:a")));
    assert!(target.contains(&acct("did:plc:b")));
    assert_eq!(target.len(), 1);
}

#[test]
fn empty_includes_yield_empty_target() {
    let included: Vec<DidSet> = vec![];
    let excluded = vec![did_set(&["did:plc:x"])];
    let target = resolve_blocklist(&included, &excluded);
    assert_eq!(target.len(), 0);
}

#[test]
fn resolve_sources_unions_all_sets() {
    let sets = vec![
        did_set(&["did:plc:a", "did:plc:b"]),
        did_set(&["did:plc:b", "did:plc:c"]),
    ];
    let out = resolve_sources(&sets);
    assert_eq!(out.len(), 3);
    assert!(out.contains(&acct("did:plc:a")));
    assert!(out.contains(&acct("did:plc:b")));
    assert!(out.contains(&acct("did:plc:c")));
}

#[test]
fn literal_handles_keeps_handle_order() {
    let users = vec![
        AccountRef::Handle("alice.test".to_string()),
        AccountRef::Did(acct("did:plc:d1")),
        AccountRef::Handle("bob.test".to_string()),
    ];
    let hs = literal_handles(&users);
    assert_eq!(hs, vec!["alice.test".to_string(), "bob.test".to_string()]);
}

#[test]
fn collect_literal_mixes_dids_and_resolutions() {
    let users = vec![
        AccountRef::Handle("alice.test".to_string()),
        AccountRef::Did(acct("did:plc:d1")),
        AccountRef::Handle("bob.test".to_string()),
    ];
    let resolved = vec![acct("did:plc:alice"), acct("did:plc:bob")];
    let s = collect_literal(&users, &resolved);
    assert_eq!(s.len(), 3);
    assert!(s.contains(&acct("did:plc:alice")));
    assert!(s.contains(&acct("did:plc:d1")));
    assert!(s.contains(&acct("did:plc:bob")));
}

#[test]
fn literal_resolution_is_deterministic() {
    // Same literal source, same resolutions: two runs agree exactly.
    let users = vec![
        AccountRef::Did(acct("did:plc:d1")),
        AccountRef::Handle("alice.test".to_string()),
    ];
    let resolved = vec![acct("did:plc:alice")];
    let first = collect_literal(&users, &resolved);
    let second = collect_literal(&users, &resolved);
    assert_eq!(first.len(), second.len());
    let mut i = 0;
    while i < first.len() {
        assert!(second.contains(first.at(i)));
        i += 1;
    }
}

#[test]
fn pagination_unions_pages_without_duplicates() {
    // Cursors [c1, c2, none]: three pages, with entries repeated across
    // pages; the fetch yields the union with no duplicates.
    let pages = vec![
        Page {
            items: vec![acct("did:plc:a"), acct("did:plc:b")],
            cursor: Some("c1".to_string()),
        },
        Page {
            items: vec![acct("did:plc:b"), acct("did:plc:c")],
            cursor: Some("c2".to_string()),
        },
        Page {
            items: vec![acct("did:plc:c"), acct("did:plc:d")],
            cursor: None,
        },
    ];
    let mut fetch = RelationshipFetch::begin();
    fetch.absorb_pages(&pages);
    let found = fetch.into_set();
    assert_eq!(found.len(), 4);
    assert!(found.contains(&acct("did:plc:a")));
    assert!(found.contains(&acct("did:plc:b")));
    assert!(found.contains(&acct("did:plc:c")));
    assert!(found.contains(&acct("did:plc:d")));
}

#[test]
fn single_page_fetch_finishes_immediately() {
    let mut fetch = RelationshipFetch::begin();
    fetch.apply_page(&Page {
        items: vec![acct("did:plc:a")],
        cursor: None,
    });
    let found = fetch.into_set();
    assert_eq!(found.len(), 1);
    assert!(found.contains(&acct("did:plc:a")));
}

#[test]
fn empty_relationship_fetch_yields_empty_set() {
    let mut fetch = RelationshipFetch::begin();
    fetch.apply_page(&Page {
        items: vec![],
        cursor: None,
    });
    let found = fetch.into_set();
    assert_eq!(found.len(), 0);
}

#[test]
fn membership_map_keeps_last_locator_for_duplicate_member() {
    let mut m = MembershipMap::new();
    m.insert(record("did:plc:bob", "at://rec1"));
    m.insert(record("did:plc:bob", "at://rec9"));
    assert_eq!(m.count(), 1);
    assert_eq!(m.get(&acct("did:plc:bob")), Some(&"at://rec9".to_string()));
    assert_eq!(m.get(&acct("did:plc:carol")), None);
}

#[test]
fn membership_fetch_accumulates_pages_last_seen_wins() {
    let mut fetch = MembershipFetch::begin();
    fetch.apply_page(&MemberPage {
        items: vec![record("did:plc:bob", "at://rec1"), record("did:plc:dave", "at://rec2")],
        cursor: Some("c1".to_string()),
    });
    fetch.apply_page(&MemberPage {
        items: vec![record("did:plc:bob", "at://rec3")],
        cursor: None,
    });
    let m = fetch.into_map();
    assert_eq!(m.count(), 2);
    assert_eq!(m.get(&acct("did:plc:bob")), Some(&"at://rec3".to_string()));
    assert_eq!(m.get(&acct("did:plc:dave")), Some(&"at://rec2".to_string()));
}

#[test]
fn reconcile_plans_minimal_adds_and_removes() {
    // current: {bob -> rec1, dave -> rec2}; target: {bob, carol}.
    // Plan: add carol, remove dave's record.
    let mut current = MembershipMap::new();
    current.insert(record("did:plc:bob", "at://rec1"));
    current.insert(record("did:plc:dave", "at://rec2"));
    let target = did_set(&["did:plc:bob", "did:plc:carol"]);
    let plan = reconcile(&target, &current);
    assert_eq!(plan.to_add.len(), 1);
    assert!(plan.to_add.contains(&acct("did:plc:carol")));
    assert_eq!(plan.to_remove.len(), 1);
    assert_eq!(plan.to_remove[0].member.id, "did:plc:dave");
    assert_eq!(plan.to_remove[0].locator, "at://rec2");
}

#[test]
fn reconcile_synchronized_list_plans_nothing() {
    let mut current = MembershipMap::new();
    current.insert(record("did:plc:bob", "at://rec1"));
    let target = did_set(&["did:plc:bob"]);
    let plan = reconcile(&target, &current);
    assert_eq!(plan.to_add.len(), 0);
    assert_eq!(plan.to_remove.len(), 0);
}

#[test]
fn reconcile_empty_target_removes_everything() {
    let mut current = MembershipMap::new();
    current.insert(record("did:plc:bob", "at://rec1"));
    current.insert(record("did:plc:dave", "at://rec2"));
    let target = DidSet::new();
    let plan = reconcile(&target, &current);
    assert_eq!(plan.to_add.len(), 0);
    assert_eq!(plan.to_remove.len(), 2);
}

#[test]
fn listing_fetch_builds_directory_over_pages() {
    let mut fetch = ListingFetch::begin();
    fetch.apply_page(&ListPage {
        items: vec![handle("mods", "at://list1")],
        cursor: Some("c1".to_string()),
    });
    fetch.apply_page(&ListPage {
        items: vec![handle("spam", "at://list2")],
        cursor: None,
    });
    let dir = fetch.into_directory();
    match dir.find(&"spam".to_string()) {
        Some(h) => {
            assert_eq!(h.name, "spam");
            assert_eq!(h.locator, "at://list2");
        }
        None => panic!("expected the spam list in the directory"),
    }
}

#[test]
fn missing_list_requests_creation_and_skips_reconciliation() {
    // A configured name with no remote match: creation is requested, this
    // run's reconciliation is skipped, and no error is raised.
    let mut dir = ListDirectory::new();
    dir.insert(handle("mods", "at://list1"));
    let action = plan_list_action(&"blocklist".to_string(), &dir);
    assert!(matches!(action, ListAction::Create));
}

#[test]
fn matched_list_is_reconciled_against_its_locator() {
    let mut dir = ListDirectory::new();
    dir.insert(handle("mods", "at://list1"));
    match plan_list_action(&"mods".to_string(), &dir) {
        ListAction::Reconcile(h) => {
            assert_eq!(h.name, "mods");
            assert_eq!(h.locator, "at://list1");
        }
        ListAction::Create => panic!("expected the mods list to be matched"),
    }
}

#[test]
fn directory_keeps_last_locator_for_duplicate_name() {
    let mut dir = ListDirectory::new();
    dir.insert(handle("mods", "at://old"));
    dir.insert(handle("mods", "at://new"));
    match dir.find(&"mods".to_string()) {
        Some(h) => assert_eq!(h.locator, "at://new"),
        None => panic!("expected the mods list in the directory"),
    }
}

#[test]
fn blocklist_without_excludes_defaults_to_none() {
    let spec = Blocklist::new(
        "mods".to_string(),
        vec![Source::Followers {
            followers_of: AccountRef::Handle("alice.test".to_string()),
        }],
    );
    assert_eq!(spec.name, "mods");
    assert_eq!(spec.includes.len(), 1);
    assert_eq!(spec.excludes.len(), 0);
}
