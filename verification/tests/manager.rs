use rustperms::actions::{RustpermsDelta, RustpermsOperation};
use rustperms::manager::AsyncManager;
use rustperms::path::{PermPath, PermissionPath};
use rustperms::permissions::{MatchType, PermissionRule};

fn path(s: &str) -> PermissionPath {
    PermissionPath::from_str(s)
}

fn rule(p: &str, allow: bool) -> PermissionRule {
    (path(p), allow)
}

fn names(v: &[&str]) -> Vec<String> {
    v.iter().map(|s| s.to_string()).collect()
}

fn built(ops: Vec<RustpermsOperation>) -> AsyncManager {
    let mut manager = AsyncManager::default();
    manager.apply(ops.into());
    manager
}

#[test]
fn test_direct_user_permission() {
    let manager = built(vec![
        RustpermsOperation::UserCreate("user1".into()),
        RustpermsOperation::UserUpdatePerms("user1".into(), vec![rule("a.b", true)]),
    ]);
    let result = manager.check_perm(&"user1".into(), &path("a.b"));
    assert_eq!(result, Some((true, MatchType::Exact)));
}

#[test]
fn test_group_permission() {
    let manager = built(vec![
        RustpermsOperation::UserCreate("user1".into()),
        RustpermsOperation::GroupCreate { group_uid: "admin".into(), weight: 100 },
        RustpermsOperation::GroupUpdatePerms("admin".into(), vec![rule("a.b", true)]),
        RustpermsOperation::GroupAddUsers("admin".into(), names(&["user1"])),
    ]);
    let result = manager.check_perm(&"user1".into(), &path("a.b"));
    assert_eq!(result, Some((true, MatchType::Exact)));
}

#[test]
fn test_conflict_weight_resolution() {
    let manager = built(vec![
        RustpermsOperation::UserCreate("user1".into()),
        RustpermsOperation::GroupCreate { group_uid: "low".into(), weight: 10 },
        RustpermsOperation::GroupCreate { group_uid: "high".into(), weight: 200 },
        RustpermsOperation::GroupUpdatePerms("low".into(), vec![rule("a.b", true)]),
        RustpermsOperation::GroupUpdatePerms("high".into(), vec![rule("a.b", false)]),
        RustpermsOperation::GroupAddUsers("low".into(), names(&["user1"])),
        RustpermsOperation::GroupAddUsers("high".into(), names(&["user1"])),
    ]);
    let result = manager.check_perm(&"user1".into(), &path("a.b"));
    assert_eq!(result, Some((false, MatchType::Exact)));
}

#[test]
fn test_group_inheritance() {
    let manager = built(vec![
        RustpermsOperation::UserCreate("user1".into()),
        RustpermsOperation::GroupCreate { group_uid: "base".into(), weight: 10 },
        RustpermsOperation::GroupCreate { group_uid: "child".into(), weight: 15 },
        RustpermsOperation::GroupUpdatePerms("base".into(), vec![rule("a.b", true)]),
        RustpermsOperation::GroupAddGroupsToInherit("child".into(), names(&["base"])),
        RustpermsOperation::GroupAddUsers("child".into(), names(&["user1"])),
    ]);
    let result = manager.check_perm(&"user1".into(), &path("a.b"));
    assert_eq!(result, Some((true, MatchType::Exact)));
}

#[test]
fn test_user_not_found() {
    let manager = AsyncManager::default();
    let result = manager.check_perm(&"ghost".into(), &path("a.b"));
    assert_eq!(result, None);
}

#[test]
fn user_vs_group_weight_conflict() {
    let manager = built(vec![
        RustpermsOperation::UserCreate("u".into()),
        RustpermsOperation::UserUpdatePerms("u".into(), vec![(PermissionPath::from_str("a.b"), true)]),
        RustpermsOperation::GroupCreate { group_uid: "g".into(), weight: 2000 },
        RustpermsOperation::GroupUpdatePerms("g".into(), vec![(PermissionPath::from_str("a.b"), false)]),
        RustpermsOperation::GroupAddUsers("g".into(), names(&["u"])),
    ]);
    let res = manager.check_perm(&"u".into(), &path("a.b"));
    assert_eq!(res, Some((false, MatchType::Exact)));
}

#[test]
fn match_type_resolution_equal_weight() {
    let manager = built(vec![
        RustpermsOperation::UserCreate("u".into()),
        RustpermsOperation::GroupCreate { group_uid: "g1".into(), weight: 100 },
        RustpermsOperation::GroupCreate { group_uid: "g2".into(), weight: 100 },
        RustpermsOperation::GroupUpdatePerms("g1".into(), vec![(path("a.*"), true)]),
        RustpermsOperation::GroupUpdatePerms("g2".into(), vec![(path("a.b"), false)]),
        RustpermsOperation::GroupAddUsers("g1".into(), names(&["u"])),
        RustpermsOperation::GroupAddUsers("g2".into(), names(&["u"])),
    ]);
    let res = manager.check_perm(&"u".into(), &path("a.b"));
    assert_eq!(res, Some((false, MatchType::Exact)));
}

#[test]
fn match_type_merge_equal_weight_and_type() {
    let manager = built(vec![
        RustpermsOperation::UserCreate("u".into()),
        RustpermsOperation::GroupCreate { group_uid: "g1".into(), weight: 100 },
        RustpermsOperation::GroupCreate { group_uid: "g2".into(), weight: 100 },
        RustpermsOperation::GroupUpdatePerms("g1".into(), vec![(path("a.b"), false)]),
        RustpermsOperation::GroupUpdatePerms("g2".into(), vec![(path("a.b"), true)]),
        RustpermsOperation::GroupAddUsers("g1".into(), names(&["u"])),
        RustpermsOperation::GroupAddUsers("g2".into(), names(&["u"])),
    ]);
    let res = manager.check_perm(&"u".into(), &path("a.b"));
    assert_eq!(res, Some((false, MatchType::Exact)));
}

#[test]
fn inherited_nested_group() {
    let manager = built(vec![
        RustpermsOperation::UserCreate("u".into()),
        RustpermsOperation::GroupCreate { group_uid: "g1".into(), weight: 10 },
        RustpermsOperation::GroupCreate { group_uid: "g2".into(), weight: 20 },
        RustpermsOperation::GroupUpdatePerms("g1".into(), vec![(path("x.y"), true)]),
        RustpermsOperation::GroupAddGroupsToInherit("g2".into(), names(&["g1"])),
        RustpermsOperation::GroupAddUsers("g2".into(), names(&["u"])),
    ]);
    let res = manager.check_perm(&"u".into(), &path("x.y"));
    assert_eq!(res, Some((true, MatchType::Exact)));
}

#[test]
fn circular_group_check() {
    let manager = built(vec![
        RustpermsOperation::UserCreate("u".into()),
        RustpermsOperation::GroupCreate { group_uid: "g1".into(), weight: 50 },
        RustpermsOperation::GroupCreate { group_uid: "g2".into(), weight: 60 },
        RustpermsOperation::GroupUpdatePerms("g1".into(), vec![(path("a.b"), true)]),
        RustpermsOperation::GroupAddGroupsToInherit("g1".into(), names(&["g2"])),
        RustpermsOperation::GroupAddGroupsToInherit("g2".into(), names(&["g1"])),
        RustpermsOperation::GroupAddUsers("g1".into(), names(&["u"])),
    ]);
    let res = manager.check_perm(&"u".into(), &path("a.b"));
    assert_eq!(res, Some((true, MatchType::Exact)));
}

#[test]
fn apply_action_reports_what_it_found() {
    let mut m = AsyncManager::new();
    assert!(m.apply_action(RustpermsOperation::UserCreate("u".into())));
    assert!(!m.apply_action(RustpermsOperation::UserCreate("u".into())));
    assert!(!m.apply_action(RustpermsOperation::GroupAddUsers("g".into(), names(&["u"]))));
    assert!(m.apply_action(RustpermsOperation::GroupCreate { group_uid: "g".into(), weight: 1 }));
    assert!(!m.apply_action(RustpermsOperation::GroupCreate { group_uid: "g".into(), weight: 2 }));
    assert_eq!(m.get_group(&"g".into()).unwrap().get_weight(), 1);
    assert!(m.apply_action(RustpermsOperation::GroupUpdate { group_uid: "g".into(), weight: 7 }));
    assert_eq!(m.get_group(&"g".into()).unwrap().get_weight(), 7);
    assert!(!m.apply_action(RustpermsOperation::UserRemove("nobody".into())));
    assert!(!m.apply_action(RustpermsOperation::GroupRemove("nothing".into())));
    assert!(!m.apply_action(RustpermsOperation::UserUpdatePerms("nobody".into(), vec![rule("a", true)])));
}

#[test]
fn memberships_follow_both_sides() {
    let mut m = built(vec![
        RustpermsOperation::UserCreate("u".into()),
        RustpermsOperation::GroupCreate { group_uid: "g".into(), weight: 1 },
        RustpermsOperation::GroupAddUsers("g".into(), names(&["u", "missing"])),
    ]);
    assert!(m.get_user(&"u".into()).unwrap().has_group(&"g".into()));
    assert!(m.get_group(&"g".into()).unwrap().has_member(&"u".into()));
    assert!(!m.get_group(&"g".into()).unwrap().has_member(&"missing".into()));
    assert!(m.apply_action(RustpermsOperation::GroupRemove("g".into())));
    assert!(!m.get_user(&"u".into()).unwrap().has_group(&"g".into()));
    assert!(m.get_group(&"g".into()).is_none());
}

#[test]
fn removing_a_user_leaves_its_groups() {
    let mut m = built(vec![
        RustpermsOperation::UserCreate("u".into()),
        RustpermsOperation::GroupCreate { group_uid: "g".into(), weight: 1 },
        RustpermsOperation::GroupAddUsers("g".into(), names(&["u"])),
    ]);
    assert!(m.apply_action(RustpermsOperation::UserRemove("u".into())));
    assert!(m.get_user(&"u".into()).is_none());
    assert!(!m.get_group(&"g".into()).unwrap().has_member(&"u".into()));
}

#[test]
fn removing_users_from_a_missing_group_still_unlinks_them() {
    let mut m = built(vec![RustpermsOperation::UserCreate("u".into())]);
    assert!(!m.apply_action(RustpermsOperation::GroupRemoveUsers("g".into(), names(&["u"]))));
    assert!(!m.get_user(&"u".into()).unwrap().has_group(&"g".into()));
}

#[test]
fn inheriting_from_a_missing_group_links_the_parents() {
    let mut m = built(vec![RustpermsOperation::GroupCreate { group_uid: "base".into(), weight: 1 }]);
    assert!(!m.apply_action(RustpermsOperation::GroupAddGroupsToInherit("ghost".into(), names(&["base"]))));
    assert!(m.get_group(&"base".into()).unwrap().has_child(&"ghost".into()));
    assert!(m.apply_action(RustpermsOperation::GroupCreate { group_uid: "ghost".into(), weight: 1 }));
    assert!(!m.get_group(&"ghost".into()).unwrap().has_parent(&"base".into()));
}

#[test]
fn guests_get_the_guest_group() {
    let manager = built(vec![
        RustpermsOperation::GroupCreate { group_uid: "guest".into(), weight: 5 },
        RustpermsOperation::GroupCreate { group_uid: "default".into(), weight: 0 },
        RustpermsOperation::GroupUpdatePerms("default".into(), vec![rule("view.*", true)]),
        RustpermsOperation::GroupAddDependentGroups("default".into(), names(&["guest"])),
    ]);
    assert_eq!(manager.check_perm(&"".into(), &path("view.page")), Some((true, MatchType::Wildcard)));
    assert_eq!(manager.check_perm(&"".into(), &path("edit.page")), None);
}

#[test]
fn a_user_without_rules_decides_nothing() {
    let manager = built(vec![RustpermsOperation::UserCreate("u".into())]);
    assert_eq!(manager.check_perm(&"u".into(), &path("a")), None);
}

#[test]
fn a_lighter_group_rule_wins_over_no_user_rule() {
    let manager = built(vec![
        RustpermsOperation::UserCreate("u".into()),
        RustpermsOperation::UserUpdatePerms("u".into(), vec![rule("other", true)]),
        RustpermsOperation::GroupCreate { group_uid: "g".into(), weight: -5 },
        RustpermsOperation::GroupUpdatePerms("g".into(), vec![rule("a.b", true)]),
        RustpermsOperation::GroupAddUsers("g".into(), names(&["u"])),
    ]);
    assert_eq!(manager.check_perm(&"u".into(), &path("a.b")), Some((true, MatchType::Exact)));
}

#[test]
fn a_user_rule_beats_lighter_groups() {
    let manager = built(vec![
        RustpermsOperation::UserCreate("u".into()),
        RustpermsOperation::UserUpdatePerms("u".into(), vec![rule("a.*", true)]),
        RustpermsOperation::GroupCreate { group_uid: "g".into(), weight: 999 },
        RustpermsOperation::GroupUpdatePerms("g".into(), vec![rule("a.b", false)]),
        RustpermsOperation::GroupAddUsers("g".into(), names(&["u"])),
    ]);
    assert_eq!(manager.check_perm(&"u".into(), &path("a.b")), Some((true, MatchType::Wildcard)));
}

#[test]
fn removing_links_and_rules() {
    let mut m = built(vec![
        RustpermsOperation::UserCreate("u".into()),
        RustpermsOperation::GroupCreate { group_uid: "p".into(), weight: 1 },
        RustpermsOperation::GroupCreate { group_uid: "c".into(), weight: 1 },
        RustpermsOperation::GroupUpdatePerms("p".into(), vec![rule("a", true)]),
        RustpermsOperation::GroupAddDependentGroups("p".into(), names(&["c"])),
        RustpermsOperation::GroupAddUsers("c".into(), names(&["u"])),
    ]);
    assert_eq!(m.check_perm(&"u".into(), &path("a")), Some((true, MatchType::Exact)));
    assert!(m.apply_action(RustpermsOperation::GroupRemoveToInherit("c".into(), names(&["p"]))));
    assert_eq!(m.check_perm(&"u".into(), &path("a")), None);
    assert!(m.apply_action(RustpermsOperation::GroupAddGroupsToInherit("c".into(), names(&["p"]))));
    assert!(m.apply_action(RustpermsOperation::GroupRemovePerms("p".into(), vec![path("a")])));
    assert_eq!(m.check_perm(&"u".into(), &path("a")), None);
    assert!(m.apply_action(RustpermsOperation::GroupRemoveDependentGroups("p".into(), names(&["c"]))));
    assert!(!m.get_group(&"c".into()).unwrap().has_parent(&"p".into()));
    assert!(m.apply_action(RustpermsOperation::UserRemovePerms("u".into(), vec![path("a")])));
}

#[test]
fn a_manager_from_a_delta() {
    let mut delta = RustpermsDelta::new();
    delta.push(RustpermsOperation::UserCreate("u".into()));
    delta.push_many(vec![RustpermsOperation::UserUpdatePerms("u".into(), vec![rule("x", false)])]);
    let m: AsyncManager = delta.into();
    assert_eq!(m.check_perm(&"u".into(), &path("x")), Some((false, MatchType::Exact)));
}

#[test]
fn anonymous_requests_without_a_guest_group_decide_nothing() {
    let manager = built(vec![
        RustpermsOperation::GroupCreate { group_uid: "other".into(), weight: 1 },
        RustpermsOperation::GroupUpdatePerms("other".into(), vec![rule("*", true)]),
    ]);
    assert_eq!(manager.check_perm(&"".into(), &path("a")), None);
}

#[test]
fn inheritance_links_stay_symmetric_between_existing_groups() {
    let mut m = built(vec![
        RustpermsOperation::GroupCreate { group_uid: "a".into(), weight: 1 },
        RustpermsOperation::GroupCreate { group_uid: "b".into(), weight: 1 },
        RustpermsOperation::GroupCreate { group_uid: "c".into(), weight: 1 },
        RustpermsOperation::GroupAddGroupsToInherit("a".into(), names(&["b", "c"])),
        RustpermsOperation::GroupAddDependentGroups("c".into(), names(&["b"])),
    ]);
    let g = |m: &AsyncManager, n: &str| m.get_group(&n.to_string()).map(|g| (g.get_parents().clone(), g.get_children().clone()));
    assert!(m.get_group(&"b".into()).unwrap().has_child(&"a".into()));
    assert!(m.get_group(&"c".into()).unwrap().has_child(&"a".into()));
    assert!(m.get_group(&"b".into()).unwrap().has_parent(&"c".into()));
    assert!(m.get_group(&"c".into()).unwrap().has_child(&"b".into()));
    assert!(m.apply_action(RustpermsOperation::GroupRemove("c".into())));
    let (pa, _) = g(&m, "a").unwrap();
    assert_eq!(pa, vec!["b".to_string()]);
    let (pb, cb) = g(&m, "b").unwrap();
    assert!(pb.is_empty());
    assert_eq!(cb, vec!["a".to_string()]);
}

#[test]
fn the_decision_does_not_depend_on_group_order() {
    let ops = |first: &str, second: &str| {
        vec![
            RustpermsOperation::UserCreate("u".into()),
            RustpermsOperation::GroupCreate { group_uid: "x".into(), weight: 7 },
            RustpermsOperation::GroupCreate { group_uid: "y".into(), weight: 7 },
            RustpermsOperation::GroupUpdatePerms("x".into(), vec![rule("a.?", true)]),
            RustpermsOperation::GroupUpdatePerms("y".into(), vec![rule("a.?", false)]),
            RustpermsOperation::GroupAddUsers(first.into(), names(&["u"])),
            RustpermsOperation::GroupAddUsers(second.into(), names(&["u"])),
        ]
    };
    let one = built(ops("x", "y")).check_perm(&"u".into(), &path("a.b"));
    let two = built(ops("y", "x")).check_perm(&"u".into(), &path("a.b"));
    assert_eq!(one, Some((false, MatchType::Any)));
    assert_eq!(one, two);
}

#[test]
fn managers_compare_by_what_they_hold() {
    let ops = || {
        vec![
            RustpermsOperation::UserCreate("u".into()),
            RustpermsOperation::GroupCreate { group_uid: "g".into(), weight: 3 },
            RustpermsOperation::GroupUpdatePerms("g".into(), vec![rule("a.b", true), rule("a.c", false)]),
            RustpermsOperation::GroupAddUsers("g".into(), names(&["u"])),
        ]
    };
    let a = built(ops());
    let b = built(ops());
    assert!(a.eq(&b));
    let mut reordered = ops();
    reordered.swap(0, 1);
    if let RustpermsOperation::GroupUpdatePerms(_, rules) = &mut reordered[2] {
        rules.reverse();
    }
    assert!(a.eq(&built(reordered)));
    let mut c = built(ops());
    c.apply_action(RustpermsOperation::GroupUpdate { group_uid: "g".into(), weight: 4 });
    assert!(!a.eq(&c));
    let mut d = built(ops());
    d.apply_action(RustpermsOperation::UserCreate("v".into()));
    assert!(!a.eq(&d));
    assert!(!d.eq(&a));
    let mut e = built(ops());
    e.apply_action(RustpermsOperation::GroupRemovePerms("g".into(), vec![path("a.c")]));
    assert!(!a.eq(&e));
    assert!(AsyncManager::new().eq(&AsyncManager::default()));
}

#[test]
fn linking_a_missing_group_to_missing_groups_changes_nothing() {
    let mut m = built(vec![RustpermsOperation::GroupCreate { group_uid: "base".into(), weight: 1 }]);
    let before = built(vec![RustpermsOperation::GroupCreate { group_uid: "base".into(), weight: 1 }]);
    assert!(!m.apply_action(RustpermsOperation::GroupAddGroupsToInherit("ghost".into(), names(&["other"]))));
    assert!(!m.apply_action(RustpermsOperation::GroupAddDependentGroups("ghost".into(), names(&["other"]))));
    assert!(m.eq(&before));
    assert!(!m.get_group(&"base".into()).unwrap().has_child(&"ghost".into()));
}

#[test]
fn a_failed_operation_changes_nothing() {
    let ops = || {
        vec![
            RustpermsOperation::UserCreate("u".into()),
            RustpermsOperation::GroupCreate { group_uid: "g".into(), weight: 3 },
            RustpermsOperation::GroupAddUsers("g".into(), names(&["u"])),
            RustpermsOperation::GroupUpdatePerms("g".into(), vec![rule("a.b", true)]),
        ]
    };
    let before = built(ops());
    let mut m = built(ops());
    assert!(!m.apply_action(RustpermsOperation::UserCreate("u".into())));
    assert!(!m.apply_action(RustpermsOperation::GroupCreate { group_uid: "g".into(), weight: 9 }));
    assert!(!m.apply_action(RustpermsOperation::GroupUpdate { group_uid: "h".into(), weight: 9 }));
    assert!(!m.apply_action(RustpermsOperation::GroupRemoveUsers("h".into(), names(&["u"]))));
    assert!(!m.apply_action(RustpermsOperation::GroupRemoveToInherit("h".into(), names(&["g"]))));
    assert!(!m.apply_action(RustpermsOperation::GroupRemoveDependentGroups("h".into(), names(&["g"]))));
    assert!(!m.apply_action(RustpermsOperation::UserRemovePerms("v".into(), vec![path("a.b")])));
    assert!(!m.apply_action(RustpermsOperation::GroupRemovePerms("h".into(), vec![path("a.b")])));
    assert!(m.eq(&before));
    assert!(m.get_user(&"u".into()).unwrap().has_group(&"g".into()));
}
