use rustperms::actions::RustpermsOperation;
use rustperms::path::{PermPath, PermissionPath};
use rustperms::sharding::{
    group_shard, group_to_sharded, group_to_shards, key_to_shard_suffix, shard_of_hash, sharded_group_crate,
    sharded_group_remove, sharded_group_remove_perms, sharded_group_update, sharded_group_update_perms,
};

fn shard(key: &str, shards: usize) -> usize {
    (xxhash_rust::xxh3::xxh3_64(key.as_bytes()) as usize) % shards
}

#[test]
fn shard_names() {
    assert_eq!(group_shard(&"g".to_string(), 0), "g.0");
    assert_eq!(group_shard(&"g".to_string(), 31), "g.31");
    assert_eq!(group_shard(&"g".to_string(), 1234567), "g.1234567");
    assert_eq!(group_to_shards(&"a".to_string(), 3), vec!["a.0", "a.1", "a.2"]);
    assert_eq!(group_to_sharded("a".to_string(), 2), vec!["a.0", "a.1", "a"]);
    assert!(group_to_shards(&"a".to_string(), 0).is_empty());
}

#[test]
fn shard_of_a_key() {
    assert_eq!(shard_of_hash(70, 32), 6);
    for key in ["profile", "calls", "*", ""] {
        assert_eq!(key_to_shard_suffix(key, 32), shard(key, 32));
        assert_eq!(key_to_shard_suffix(key, 1), 0);
    }
    assert_ne!(key_to_shard_suffix("profile", 1 << 20), key_to_shard_suffix("calls", 1 << 20));
}

#[test]
fn creating_a_sharded_group() {
    let ops = sharded_group_crate("g".to_string(), 3, 2);
    assert_eq!(ops.len(), 4);
    assert!(matches!(&ops[0], RustpermsOperation::GroupCreate { group_uid, weight: 3 } if group_uid == "g.0"));
    assert!(matches!(&ops[1], RustpermsOperation::GroupCreate { group_uid, weight: 3 } if group_uid == "g.1"));
    assert!(matches!(&ops[2], RustpermsOperation::GroupCreate { group_uid, weight: 3 } if group_uid == "g"));
    assert!(matches!(&ops[3], RustpermsOperation::GroupAddDependentGroups(g, gs) if g == "g" && gs == &vec!["g.0".to_string(), "g.1".to_string()]));
}

#[test]
fn removing_and_updating_a_sharded_group() {
    let ops = sharded_group_remove("g".to_string(), 1);
    assert_eq!(ops.len(), 2);
    assert!(matches!(&ops[0], RustpermsOperation::GroupRemove(g) if g == "g.0"));
    assert!(matches!(&ops[1], RustpermsOperation::GroupRemove(g) if g == "g"));
    let ops = sharded_group_update("g".to_string(), 1, 9);
    assert!(matches!(&ops[0], RustpermsOperation::GroupUpdate { group_uid, weight: 9 } if group_uid == "g.0"));
    assert!(matches!(&ops[1], RustpermsOperation::GroupUpdate { group_uid, weight: 9 } if group_uid == "g"));
}

#[test]
fn rules_go_to_the_shard_of_their_key() {
    let shards = 1 << 20;
    let ops = sharded_group_update_perms(
        "g".to_string(),
        shards,
        vec![
            ("calls", (PermissionPath::from_str("c.1"), true)),
            ("profile", (PermissionPath::from_str("p.1"), false)),
            ("calls", (PermissionPath::from_str("c.2"), true)),
        ],
    );
    assert_eq!(ops.len(), 2);
    match &ops[0] {
        RustpermsOperation::GroupUpdatePerms(g, rules) => {
            assert_eq!(g, &format!("g.{}", shard("calls", shards)));
            let texts: Vec<String> = rules.iter().map(|(p, _)| p.format()).collect();
            assert_eq!(texts, vec!["c.1", "c.2"]);
        },
        _ => panic!("expected an update"),
    }
    match &ops[1] {
        RustpermsOperation::GroupUpdatePerms(g, rules) => {
            assert_eq!(g, &format!("g.{}", shard("profile", shards)));
            assert_eq!(rules.len(), 1);
            assert!(!rules[0].1);
        },
        _ => panic!("expected an update"),
    }
    let ops = sharded_group_remove_perms("g".to_string(), 1, vec![("a", PermissionPath::from_str("x")), ("b", PermissionPath::from_str("y"))]);
    assert_eq!(ops.len(), 1);
    assert!(matches!(&ops[0], RustpermsOperation::GroupRemovePerms(g, ps) if g == "g.0" && ps.len() == 2));
    assert!(sharded_group_remove_perms("g".to_string(), 0, vec![]).is_empty());
}
