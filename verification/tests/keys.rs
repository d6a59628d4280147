use rustperms::perm_store::paths_to_insert;
use rustperms::sessions::{rtid_to_key, session_cleanup, user_table_rows, user_to_key, uuid_simple, SessionCleanup};
use rustperms::cache_keys;
use rustperms::perm_keys::{perm_id_to_key, perm_to_key, uuid_string, wildcard_id_to_key, wildcard_to_key, Perm, PermId, Wildcard, WildcardId};
use rustperms::redis_keys::{
    group_id_to_key, grp_grp_rel_to_key, guest_perm_to_key, perm_id_to_rel_key, perm_name_to_rel_key, reg_default_perm_to_key,
    RedisCommand, RedisPerms,
};

#[test]
fn cache_key_scheme() {
    assert_eq!(perm_name_to_rel_key("a.b"), "PERM_REL::a.b");
    assert_eq!(perm_id_to_rel_key(&-17), "PERM_REL::-17");
    assert_eq!(perm_id_to_rel_key(&i32::MIN), "PERM_REL::-2147483648");
    assert_eq!(reg_default_perm_to_key("x"), "REG::x");
    assert_eq!(guest_perm_to_key("x"), "GUEST::x");
    assert_eq!(group_id_to_key(&0), "PERM_REL::0");
    assert_eq!(grp_grp_rel_to_key(&12), "GRP_REL::12");
}

#[test]
fn cache_commands() {
    let r = RedisPerms;
    assert_eq!(
        r.set_rel(&"p".to_string(), &5),
        RedisCommand::SetMany { pairs: vec![("PERM_REL::p".to_string(), "5".to_string()), ("PERM_REL::5".to_string(), "p".to_string())] }
    );
    assert_eq!(r.set_name_to_id(&"p".to_string(), &5), RedisCommand::SetOne { key: "PERM_REL::p".to_string(), value: "5".to_string() });
    assert_eq!(r.set_id_to_name(&"p".to_string(), &5), RedisCommand::SetOne { key: "PERM_REL::5".to_string(), value: "p".to_string() });
    assert_eq!(r.perm_id_by_name("p".to_string()), RedisCommand::Get { key: "PERM_REL::p".to_string() });
    assert_eq!(r.set_group(&3, &1, vec![]), RedisCommand::Touch { key: "PERM_REL::3".to_string() });
    assert_eq!(r.add_perm_to_group(&3, &"p".to_string()), RedisCommand::Touch { key: "PERM_REL::3".to_string() });
    assert_eq!(r.del_perm_from_group(&3, &"p".to_string()), RedisCommand::Touch { key: "PERM_REL::3".to_string() });
    assert_eq!(r.clear_group(&3), None);
    assert!(r.get_group_perms(&3).is_empty());
}

#[test]
fn path_cache_keys() {
    assert_eq!(cache_keys::perm_to_key(&"a.b".to_string()), "PERM_ID::a.b");
    assert_eq!(cache_keys::perm_id_to_key(&u64::MAX), "ID_PERM::18446744073709551615");
    assert_eq!(cache_keys::wildcard_to_key(&"a.*".to_string()), "WILDCARD_ID::a.*");
    assert_eq!(cache_keys::wildcard_id_to_key(&0), "ID_WILDCARD::0");
}

#[test]
fn uuid_keys() {
    let v: u128 = 0x67e5504410b1426f9247bb680e5fe0c8;
    assert_eq!(uuid_string(v), uuid::Uuid::from_u128(v).to_string());
    assert_eq!(uuid_string(0), "00000000-0000-0000-0000-000000000000");
    assert_eq!(perm_id_to_key(&v), "ID_PERM::67e55044-10b1-426f-9247-bb680e5fe0c8");
    assert_eq!(wildcard_id_to_key(&v), "ID_WILDCARD::67e55044-10b1-426f-9247-bb680e5fe0c8");
    assert_eq!(perm_to_key("x"), "PERM_ID::x");
    assert_eq!(wildcard_to_key("x.*"), "WILDCARD_ID::x.*");
    let p = Perm("a".to_string());
    assert_eq!(p.to_key(), "PERM_ID::a");
    assert_eq!(p.value(), "a");
    assert_eq!(p.construct_id(v), PermId(v));
    assert_eq!(PermId(v).construct_path("b".to_string()), Perm("b".to_string()));
    assert_eq!(PermId(v).value(), v);
    let w = Wildcard("w.*".to_string());
    assert_eq!(w.to_key(), "WILDCARD_ID::w.*");
    assert_eq!(w.construct_id(1).to_key(), "ID_WILDCARD::00000000-0000-0000-0000-000000000001");
    assert_eq!(WildcardId(1).construct_path("w".to_string()).value(), "w");
    assert_eq!(WildcardId(2).value(), 2);
}

#[test]
fn paths_to_insert_skip_cached_and_repeated() {
    let perms: Vec<String> = ["a", "b", "a", "c", "b"].iter().map(|s| s.to_string()).collect();
    assert_eq!(paths_to_insert(&perms, &vec![false, true, false, false, false]), vec!["a", "c", "b"]);
    assert!(paths_to_insert(&vec![], &vec![]).is_empty());
}

#[test]
fn session_keys_and_cleanup() {
    let v: u128 = 0x0123456789abcdef0123456789abcdef;
    let id = uuid::Uuid::from_u128(v);
    assert_eq!(rtid_to_key(v), format!("RTID::{}", id));
    assert_eq!(user_to_key(v), format!("UTPP::{}", id));
    assert_eq!(uuid_simple(v), id.simple().to_string());
    assert_eq!(session_cleanup(5, 5), SessionCleanup::EraseAll);
    assert_eq!(session_cleanup(4, 5), SessionCleanup::EraseOutdated);
    let (a, b) = user_table_rows(&vec![(v, "alice".to_string())]);
    assert_eq!(a, vec![(id.simple().to_string(), "alice".to_string())]);
    assert_eq!(b, vec![("alice".to_string(), id.simple().to_string())]);
}
