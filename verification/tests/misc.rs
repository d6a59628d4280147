use rustperms::actions::{Remove, RustpermsOperation, SetValue};
use rustperms::defaults::{
    calls_perm, calls_perm_postfix, create_user, delete_user, fill_with_defaults, grant_default_for_user, init_default,
    miniprofile_edit_perm, profile_edit_perm, profile_view_perm_postfix, upload_to_store_perm_postfix, AUTHED_GROUP,
    DEFAULT_GROUP,
};
use rustperms::email::{ChangedField, Email, EmailKind};
use rustperms::errors::ErrMap;
use rustperms::groups::Group;
use rustperms::manager::AsyncManager;
use rustperms::path::{PermPath, PermissionPath};
use rustperms::permissions::{MatchType, PermissionInterface};
use rustperms::users::User;

#[test]
fn email_names() {
    assert_eq!(EmailKind::RegisterCode { code: "1".into() }.name(), "RegisterCode");
    assert_eq!(EmailKind::NewLogin { ip: "i".into(), user_agent: "u".into() }.name(), "NewLogin");
    assert_eq!(EmailKind::RefreshRulesUpdate { ip: "i".into(), user_agent: "u".into() }.name(), "RefreshRulesUpdate");
    assert_eq!(ChangedField::Uid.to_str(), "Uid");
    assert_eq!(ChangedField::Password.to_str(), "Password");
    let e = Email::changed("a@b.c".to_string(), ChangedField::Email);
    assert_eq!(e.to, "a@b.c");
    assert_eq!(e.kind.name(), "ChangedNotification");
    assert!(matches!(e.kind, EmailKind::ChangedNotification { changed_field: ChangedField::Email }));
}

#[test]
fn rule_texts() {
    assert_eq!(profile_edit_perm("u1"), "user.profile.edit.u1");
    assert_eq!(miniprofile_edit_perm("u1"), "user.miniprofile.edit.u1");
    assert_eq!(profile_view_perm_postfix("u1", "*"), "user.profile.view.u1.*");
    assert_eq!(calls_perm("*"), "calls.*");
    assert_eq!(calls_perm_postfix("a", "b"), "calls.a.b");
    assert_eq!(upload_to_store_perm_postfix("k", "p"), "store.upload.k.p");
}

#[test]
fn default_groups_and_rules() {
    let init = init_default();
    assert_eq!(init.len(), 103);
    let mut m = AsyncManager::new();
    for op in init {
        m.apply_action(op);
    }
    for op in fill_with_defaults() {
        assert!(m.apply_action(op));
    }
    for op in create_user("u") {
        assert!(m.apply_action(op));
    }
    for op in grant_default_for_user("u") {
        assert!(m.apply_action(op));
    }
    let p = |s: &str| PermissionPath::from_str(s);
    assert_eq!(m.check_perm(&"u".into(), &p("user.profile.edit.u.name")), Some((true, MatchType::Wildcard)));
    assert_eq!(m.check_perm(&"u".into(), &p("user.profile.view.x")), None);
    assert_eq!(m.check_perm(&"".into(), &p("calls.x")), None);
    let shard = |key: &str| (xxhash_rust::xxh3::xxh3_64(key.as_bytes()) as usize) % 32;
    assert!(m.apply_action(RustpermsOperation::UserCreate("v".into())));
    assert!(m.apply_action(RustpermsOperation::GroupAddUsers(format!("default.{}", shard("calls")), vec!["v".into()])));
    assert!(m.apply_action(RustpermsOperation::GroupAddUsers(format!("authed.{}", shard("*")), vec!["v".into()])));
    assert_eq!(m.check_perm(&"v".into(), &p("calls.x")), Some((true, MatchType::Wildcard)));
    assert_eq!(m.check_perm(&"v".into(), &p("calls.view.hidden")), Some((false, MatchType::Exact)));
    assert_eq!(m.check_perm(&"v".into(), &p("store.upload.file")), Some((true, MatchType::Wildcard)));
    for op in delete_user("u") {
        m.apply_action(op);
    }
    assert!(m.get_user(&"u".into()).is_none());
    assert!(!m.get_group(&DEFAULT_GROUP.to_string()).unwrap().has_member(&"u".into()));
    assert!(!m.get_group(&AUTHED_GROUP.to_string()).unwrap().has_member(&"u".into()));
}

#[test]
fn user_operations_lists() {
    let ops = create_user("k");
    assert!(matches!(&ops[0], RustpermsOperation::UserCreate(u) if u == "k"));
    assert!(matches!(&ops[1], RustpermsOperation::GroupAddUsers(g, us) if g == "default" && us == &vec!["k".to_string()]));
    assert!(matches!(&ops[2], RustpermsOperation::GroupAddUsers(g, us) if g == "authed" && us == &vec!["k".to_string()]));
    let ops = delete_user("k");
    assert!(matches!(&ops[0], RustpermsOperation::UserRemove(u) if u == "k"));
    let ops = grant_default_for_user("k");
    match &ops[0] {
        RustpermsOperation::UserUpdatePerms(u, rules) => {
            assert_eq!(u, "k");
            let texts: Vec<String> = rules.iter().map(|(p, _)| p.format()).collect();
            assert_eq!(texts, vec!["user.profile.edit.k.*", "user.miniprofile.edit.k.*"]);
        },
        _ => panic!("expected an update"),
    }
}

#[test]
fn errors_with_a_message() {
    let ok: Result<i32, &str> = Ok(3);
    assert_eq!(ok.err_map().unwrap(), 3);
    let bad: Result<i32, &str> = Err("x");
    assert_eq!(bad.err_map().unwrap_err().to_string(), "Error");
    let bad: Result<i32, &str> = Err("x");
    assert_eq!(bad.err_msg("custom").unwrap_err().to_string(), "custom");
}

#[test]
fn users_and_groups_directly() {
    let mut u = User::new("u".to_string());
    u.add_group("g".to_string());
    u.add_group("g".to_string());
    assert_eq!(u.get_groups().len(), 1);
    u.remove_group(&"g".to_string());
    assert!(!u.has_group(&"g".to_string()));
    u.set_perm(PermissionPath::from_str("a"), true);
    assert_eq!(u.get_perm(&PermissionPath::from_str("a")), Some((true, MatchType::Exact)));
    assert_eq!(u.get_user_uid(), "u");
    let mut g = Group::new("g".to_string(), 3).with_weight(4);
    assert_eq!(g.get_weight(), 4);
    g.add_members(vec!["a".to_string(), "b".to_string(), "a".to_string()]);
    assert_eq!(g.get_members().len(), 2);
    g.remove_members(vec!["a".to_string()]);
    assert!(!g.has_member(&"a".to_string()));
    g.add_parents(vec!["p".to_string()]);
    g.add_children(vec!["c".to_string()]);
    g.remove_parents(vec!["p".to_string()]);
    g.remove_children(&vec!["c".to_string()]);
    assert!(g.get_parents().is_empty() && g.get_children().is_empty());
    assert_eq!(g.get_group_uid(), "g");
}

#[test]
fn setting_and_removing_through_the_traits() {
    let mut g = Group::new("g".to_string(), 1);
    g.set((PermissionPath::from_str("a.b"), true));
    assert_eq!(g.get_perm(&PermissionPath::from_str("a.b")), Some((true, MatchType::Exact)));
    g.set(9);
    assert_eq!(g.get_weight(), 9);
    let p = PermissionPath::from_str("a.b");
    g.remove(&p);
    assert_eq!(g.get_perm(&p), None);
    let mut u = User::new("u".to_string());
    u.set((PermissionPath::from_str("x"), false));
    assert_eq!(u.get_perm(&PermissionPath::from_str("x")), Some((false, MatchType::Exact)));
}
