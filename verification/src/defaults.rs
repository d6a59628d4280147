//! The default groups and rules of the platform, and what creating,
//! deleting and setting up a user takes.

use vstd::prelude::*;
use vstd::string::*;
use crate::actions::RustpermsOperation;
use crate::path::{PermissionPath, PermPath, path_of};
use crate::permissions::{PermissionRule, rules_view};
use crate::manager::GUEST_GROUP;
use crate::sharding::{
    sharded_group_crate, sharded_group_update_perms, creates_sharded, shard_updates, key_shard, first_seen,
};

verus! {

/// The group of every signed-in user.
pub const AUTHED_GROUP: &'static str = "authed";

/// The group whose rules every other default group inherits.
pub const DEFAULT_GROUP: &'static str = "default";

/// The number of shards of the `authed` group.
pub const AUTHED_SHARDING: usize = 32;

/// The number of shards of the `guest` group.
pub const GUEST_SHARDING: usize = 32;

/// The number of shards of the `default` group.
pub const DEFAULT_SHARDING: usize = 32;

/// Editing a profile.
pub const PROFILE_EDIT_PERM: &'static str = "user.profile.edit";

/// Editing a mini-profile.
pub const MINIPROFILE_EDIT_PERM: &'static str = "user.miniprofile.edit";

/// Viewing a profile.
pub const PROFILE_VIEW_PERM: &'static str = "user.profile.view";

/// Uploading to the store.
pub const UPLOAD_TO_STORE_PERM: &'static str = "store.upload";

/// Calls.
pub const CALLS_PERM: &'static str = "calls";

/// `value.key`.
pub open spec fn rule_text(value: Seq<char>, key: Seq<char>) -> Seq<char> {
    value + seq!['.'] + key
}

/// `value.key.postfix`.
pub open spec fn rule_text_postfix(value: Seq<char>, key: Seq<char>, postfix: Seq<char>) -> Seq<char> {
    value + seq!['.'] + key + seq!['.'] + postfix
}

/// `value.key`.
fn rule_of(value: &str, key: &str) -> (r: String)
    ensures
        r@ == rule_text(value@, key@),
{
    let mut r = value.to_string();
    let dot = ".";
    proof {
        reveal_strlit(".");
    }
    r.append(dot);
    r.append(key);
    assert(r@ =~= rule_text(value@, key@));
    r
}

/// `value.key.postfix`.
fn rule_of_postfix(value: &str, key: &str, postfix: &str) -> (r: String)
    ensures
        r@ == rule_text_postfix(value@, key@, postfix@),
{
    let mut r = rule_of(value, key);
    let dot = ".";
    proof {
        reveal_strlit(".");
    }
    r.append(dot);
    r.append(postfix);
    assert(r@ =~= rule_text_postfix(value@, key@, postfix@));
    r
}

/// The profile-editing permission of `key`.
pub fn profile_edit_perm(key: &str) -> (r: String)
    ensures
        r@ == rule_text(PROFILE_EDIT_PERM@, key@),
{
    rule_of(PROFILE_EDIT_PERM, key)
}

/// The profile-editing permission of `key`, narrowed by `postfix`.
pub fn profile_edit_perm_postfix(key: &str, postfix: &str) -> (r: String)
    ensures
        r@ == rule_text_postfix(PROFILE_EDIT_PERM@, key@, postfix@),
{
    rule_of_postfix(PROFILE_EDIT_PERM, key, postfix)
}

/// The mini-profile-editing permission of `key`.
pub fn miniprofile_edit_perm(key: &str) -> (r: String)
    ensures
        r@ == rule_text(MINIPROFILE_EDIT_PERM@, key@),
{
    rule_of(MINIPROFILE_EDIT_PERM, key)
}

/// The mini-profile-editing permission of `key`, narrowed by `postfix`.
pub fn miniprofile_edit_perm_postfix(key: &str, postfix: &str) -> (r: String)
    ensures
        r@ == rule_text_postfix(MINIPROFILE_EDIT_PERM@, key@, postfix@),
{
    rule_of_postfix(MINIPROFILE_EDIT_PERM, key, postfix)
}

/// The profile-viewing permission of `key`.
pub fn profile_view_perm(key: &str) -> (r: String)
    ensures
        r@ == rule_text(PROFILE_VIEW_PERM@, key@),
{
    rule_of(PROFILE_VIEW_PERM, key)
}

/// The profile-viewing permission of `key`, narrowed by `postfix`.
pub fn profile_view_perm_postfix(key: &str, postfix: &str) -> (r: String)
    ensures
        r@ == rule_text_postfix(PROFILE_VIEW_PERM@, key@, postfix@),
{
    rule_of_postfix(PROFILE_VIEW_PERM, key, postfix)
}

/// The store-upload permission of `key`.
pub fn upload_to_store_perm(key: &str) -> (r: String)
    ensures
        r@ == rule_text(UPLOAD_TO_STORE_PERM@, key@),
{
    rule_of(UPLOAD_TO_STORE_PERM, key)
}

/// The store-upload permission of `key`, narrowed by `postfix`.
pub fn upload_to_store_perm_postfix(key: &str, postfix: &str) -> (r: String)
    ensures
        r@ == rule_text_postfix(UPLOAD_TO_STORE_PERM@, key@, postfix@),
{
    rule_of_postfix(UPLOAD_TO_STORE_PERM, key, postfix)
}

/// The calls permission of `key`.
pub fn calls_perm(key: &str) -> (r: String)
    ensures
        r@ == rule_text(CALLS_PERM@, key@),
{
    rule_of(CALLS_PERM, key)
}

/// The calls permission of `key`, narrowed by `postfix`.
pub fn calls_perm_postfix(key: &str, postfix: &str) -> (r: String)
    ensures
        r@ == rule_text_postfix(CALLS_PERM@, key@, postfix@),
{
    rule_of_postfix(CALLS_PERM, key, postfix)
}

/// The default groups: `authed` (weight 10), `guest` (5) and `default` (0),
/// each with its shards, and `authed` and `guest` as dependents of `default`.
pub fn init_default() -> (r: Vec<RustpermsOperation>)
    ensures
        r@.len() == 103,
        creates_sharded(r@.subrange(0, 34), AUTHED_GROUP@, 10, 32),
        creates_sharded(r@.subrange(34, 68), GUEST_GROUP@, 5, 32),
        creates_sharded(r@.subrange(68, 102), DEFAULT_GROUP@, 0, 32),
        r@[102] matches RustpermsOperation::GroupAddDependentGroups(g, gs) && g@ == DEFAULT_GROUP@ && gs@.len() == 2
            && gs@[0]@ == AUTHED_GROUP@ && gs@[1]@ == GUEST_GROUP@,
{
    let mut ops = sharded_group_crate(AUTHED_GROUP.to_string(), 10, AUTHED_SHARDING);
    let ghost a = ops@;
    let mut guest = sharded_group_crate(GUEST_GROUP.to_string(), 5, GUEST_SHARDING);
    let ghost b = guest@;
    ops.append(&mut guest);
    let mut default = sharded_group_crate(DEFAULT_GROUP.to_string(), 0, DEFAULT_SHARDING);
    let ghost c = default@;
    ops.append(&mut default);
    let mut dependents: Vec<String> = Vec::new();
    dependents.push(AUTHED_GROUP.to_string());
    dependents.push(GUEST_GROUP.to_string());
    ops.push(RustpermsOperation::GroupAddDependentGroups(DEFAULT_GROUP.to_string(), dependents));
    proof {
        assert(ops@.subrange(0, 34) =~= a);
        assert(ops@.subrange(34, 68) =~= b);
        assert(ops@.subrange(68, 102) =~= c);
    }
    ops
}

/// The shards of the keys of the default group's default rules.
pub open spec fn default_rule_keys() -> Seq<nat> {
    seq![key_shard("profile", 32), key_shard("calls", 32), key_shard("calls", 32)]
}

/// The default group's default rules: viewing any profile and any call
/// allowed, viewing hidden calls denied.
pub open spec fn default_rules() -> Seq<(Seq<Seq<char>>, bool)> {
    seq![
        (path_of(rule_text(PROFILE_VIEW_PERM@, "*"@)), true),
        (path_of(rule_text(CALLS_PERM@, "*"@)), true),
        (path_of(rule_text(CALLS_PERM@, "view.hidden"@)), false),
    ]
}

/// The shard of the key of the `authed` group's default rule.
pub open spec fn authed_rule_keys() -> Seq<nat> {
    seq![key_shard("*", 32)]
}

/// The `authed` group's default rule: uploading anything to the store allowed.
pub open spec fn authed_rules() -> Seq<(Seq<Seq<char>>, bool)> {
    seq![(path_of(rule_text(UPLOAD_TO_STORE_PERM@, "*"@)), true)]
}

/// The default rules: those of the `default` group on its shards, then
/// that of the `authed` group on its shards.
pub fn fill_with_defaults() -> (r: Vec<RustpermsOperation>)
    ensures
        first_seen(default_rule_keys()).len() <= r@.len(),
        shard_updates(r@.subrange(0, first_seen(default_rule_keys()).len() as int), DEFAULT_GROUP@, default_rule_keys(), default_rules()),
        shard_updates(r@.subrange(first_seen(default_rule_keys()).len() as int, r@.len() as int), AUTHED_GROUP@, authed_rule_keys(), authed_rules()),
{
    let k1 = "profile";
    let k2 = "calls";
    let k3 = "*";
    let mut perms: Vec<(&str, PermissionRule)> = Vec::new();
    perms.push((k1, (PermissionPath::from_str(profile_view_perm(k3).as_str()), true)));
    perms.push((k2, (PermissionPath::from_str(calls_perm(k3).as_str()), true)));
    let hidden = "view.hidden";
    perms.push((k2, (PermissionPath::from_str(calls_perm(hidden).as_str()), false)));
    proof {
        assert(crate::sharding::shard_keys(perms@, 32) =~= default_rule_keys());
        assert(rules_view(crate::sharding::pair_values(perms@)) =~= default_rules());
    }
    let mut ops = sharded_group_update_perms(DEFAULT_GROUP.to_string(), DEFAULT_SHARDING, perms);
    let ghost a = ops@;
    let mut authed: Vec<(&str, PermissionRule)> = Vec::new();
    authed.push((k3, (PermissionPath::from_str(upload_to_store_perm(k3).as_str()), true)));
    proof {
        assert(crate::sharding::shard_keys(authed@, 32) =~= authed_rule_keys());
        assert(rules_view(crate::sharding::pair_values(authed@)) =~= authed_rules());
    }
    let mut more = sharded_group_update_perms(AUTHED_GROUP.to_string(), AUTHED_SHARDING, authed);
    let ghost b = more@;
    ops.append(&mut more);
    proof {
        assert(ops@.subrange(0, a.len() as int) =~= a);
        assert(ops@.subrange(a.len() as int, ops@.len() as int) =~= b);
    }
    ops
}

/// What creating the user `key` takes: the user, and its membership of the
/// `default` and `authed` groups.
pub fn create_user(key: &str) -> (r: Vec<RustpermsOperation>)
    ensures
        r@.len() == 3,
        r@[0] matches RustpermsOperation::UserCreate(u) && u@ == key@,
        r@[1] matches RustpermsOperation::GroupAddUsers(g, us) && g@ == DEFAULT_GROUP@ && us@.len() == 1 && us@[0]@ == key@,
        r@[2] matches RustpermsOperation::GroupAddUsers(g, us) && g@ == AUTHED_GROUP@ && us@.len() == 1 && us@[0]@ == key@,
{
    let mut ops: Vec<RustpermsOperation> = Vec::new();
    ops.push(RustpermsOperation::UserCreate(key.to_string()));
    let mut a: Vec<String> = Vec::new();
    a.push(key.to_string());
    ops.push(RustpermsOperation::GroupAddUsers(DEFAULT_GROUP.to_string(), a));
    let mut b: Vec<String> = Vec::new();
    b.push(key.to_string());
    ops.push(RustpermsOperation::GroupAddUsers(AUTHED_GROUP.to_string(), b));
    ops
}

/// What deleting the user `key` takes: the user, and its membership of the
/// `default` and `authed` groups.
pub fn delete_user(key: &str) -> (r: Vec<RustpermsOperation>)
    ensures
        r@.len() == 3,
        r@[0] matches RustpermsOperation::UserRemove(u) && u@ == key@,
        r@[1] matches RustpermsOperation::GroupRemoveUsers(g, us) && g@ == DEFAULT_GROUP@ && us@.len() == 1 && us@[0]@ == key@,
        r@[2] matches RustpermsOperation::GroupRemoveUsers(g, us) && g@ == AUTHED_GROUP@ && us@.len() == 1 && us@[0]@ == key@,
{
    let mut ops: Vec<RustpermsOperation> = Vec::new();
    ops.push(RustpermsOperation::UserRemove(key.to_string()));
    let mut a: Vec<String> = Vec::new();
    a.push(key.to_string());
    ops.push(RustpermsOperation::GroupRemoveUsers(DEFAULT_GROUP.to_string(), a));
    let mut b: Vec<String> = Vec::new();
    b.push(key.to_string());
    ops.push(RustpermsOperation::GroupRemoveUsers(AUTHED_GROUP.to_string(), b));
    ops
}

/// The rules every user gets on its own: editing its profile and its
/// mini-profile, in any part.
pub fn grant_default_for_user(key: &str) -> (r: Vec<RustpermsOperation>)
    ensures
        r@.len() == 1,
        r@[0] matches RustpermsOperation::UserUpdatePerms(u, p) && u@ == key@ && rules_view(p@) == seq![
            (path_of(rule_text_postfix(PROFILE_EDIT_PERM@, key@, "*"@)), true),
            (path_of(rule_text_postfix(MINIPROFILE_EDIT_PERM@, key@, "*"@)), true),
        ],
{
    let star = "*";
    let mut p: Vec<PermissionRule> = Vec::new();
    p.push((PermissionPath::from_str(profile_edit_perm_postfix(key, star).as_str()), true));
    p.push((PermissionPath::from_str(miniprofile_edit_perm_postfix(key, star).as_str()), true));
    let mut ops: Vec<RustpermsOperation> = Vec::new();
    ops.push(RustpermsOperation::UserUpdatePerms(key.to_string(), p));
    proof {
        assert(rules_view(p@) =~= seq![
            (path_of(rule_text_postfix(PROFILE_EDIT_PERM@, key@, "*"@)), true),
            (path_of(rule_text_postfix(MINIPROFILE_EDIT_PERM@, key@, "*"@)), true),
        ]);
    }
    ops
}

} // verus!
