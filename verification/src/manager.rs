//! The manager: every user and group, the operations that change them, and
//! how the rule that decides a permission for a user is found.

use vstd::prelude::*;
use vstd::set_lib::{set_int_range, lemma_int_range, lemma_len_subset};
use crate::permissions::{PermissionInterface, PermissionRule, MatchType, resolve, law_get_after_set, set_all, remove_all, rules_view, paths_view};
use crate::path::PermissionPath;
use crate::users::{User, UserView};
use crate::groups::{Group, GroupView};
use crate::strset::{string_set, lemma_string_set_take_step, lemma_string_set_take_all, lemma_string_set_take_none};
use crate::actions::{RustpermsOperation, RustpermsDelta};
use crate::keyed::{
    has_key, distinct_keys, keyed_map, lemma_keyed_lookup, lemma_keyed_update, lemma_keyed_push,
    lemma_keyed_remove, lemma_keyed_empty,
};

verus! {

/// The weight at which a user's own rules compete with those of its groups.
pub const RUSTPERMS_USER_WEIGHT: i32 = 1000;

/// A user's identifier, as the key of the user map.
pub open spec fn user_key() -> spec_fn(User) -> Seq<char> {
    |u: User| u.uid()
}

/// A user's view, as the value of the user map.
pub open spec fn user_value() -> spec_fn(User) -> UserView {
    |u: User| u@
}

/// A group's name, as the key of the group map.
pub open spec fn group_key() -> spec_fn(Group) -> Seq<char> {
    |g: Group| g.uid()
}

/// A group's view, as the value of the group map.
pub open spec fn group_value() -> spec_fn(Group) -> GroupView {
    |g: Group| g@
}

/// What a manager holds: each user by identifier and each group by name.
pub struct ManagerView {
    pub users: Map<Seq<char>, UserView>,
    pub groups: Map<Seq<char>, GroupView>,
}

/// Every user and group of a permission system.
///
/// Its methods are synchronous; a program that shares one between tasks
/// keeps it behind a lock.
#[derive(Debug)]
pub struct AsyncManager {
    users: Vec<User>,
    groups: Vec<Group>,
}

impl View for AsyncManager {
    type V = ManagerView;

    closed spec fn view(&self) -> ManagerView {
        ManagerView {
            users: keyed_map(self.users@, user_key(), user_value()),
            groups: keyed_map(self.groups@, group_key(), group_value()),
        }
    }
}

/// A manager with no users and no groups.
pub open spec fn empty_manager() -> ManagerView {
    ManagerView { users: Map::empty(), groups: Map::empty() }
}

/// A user with no groups and no rules.
pub open spec fn fresh_user() -> UserView {
    UserView { groups: Set::empty(), rules: Map::empty() }
}

/// A group of weight `w` with no members, relatives or rules.
pub open spec fn fresh_group(w: i32) -> GroupView {
    GroupView {
        members: Set::empty(),
        parents: Set::empty(),
        children: Set::empty(),
        weight: w,
        rules: Map::empty(),
    }
}

/// `s` with the user `u` set to `v`.
pub open spec fn with_user(s: ManagerView, u: Seq<char>, v: UserView) -> ManagerView {
    ManagerView { users: s.users.insert(u, v), groups: s.groups }
}

/// `s` with the group `g` set to `v`.
pub open spec fn with_group(s: ManagerView, g: Seq<char>, v: GroupView) -> ManagerView {
    ManagerView { users: s.users, groups: s.groups.insert(g, v) }
}

/// `m` with `f` applied to the value of each key of `names` that it holds.
pub open spec fn edit_where<V>(m: Map<Seq<char>, V>, names: Set<Seq<char>>, f: spec_fn(V) -> V) -> Map<Seq<char>, V> {
    Map::new(|k: Seq<char>| m.contains_key(k), |k: Seq<char>| if names.contains(k) { f(m[k]) } else { m[k] })
}

/// Adds `g` to a group's children.
pub open spec fn add_child(g: Seq<char>) -> spec_fn(GroupView) -> GroupView {
    |v: GroupView| GroupView { children: v.children.insert(g), ..v }
}

/// Takes `g` out of a group's children.
pub open spec fn drop_child(g: Seq<char>) -> spec_fn(GroupView) -> GroupView {
    |v: GroupView| GroupView { children: v.children.remove(g), ..v }
}

/// Adds `g` to a group's parents.
pub open spec fn add_parent(g: Seq<char>) -> spec_fn(GroupView) -> GroupView {
    |v: GroupView| GroupView { parents: v.parents.insert(g), ..v }
}

/// Takes `g` out of a group's parents.
pub open spec fn drop_parent(g: Seq<char>) -> spec_fn(GroupView) -> GroupView {
    |v: GroupView| GroupView { parents: v.parents.remove(g), ..v }
}

/// Takes the user `u` out of a group's members.
pub open spec fn drop_member(u: Seq<char>) -> spec_fn(GroupView) -> GroupView {
    |v: GroupView| GroupView { members: v.members.remove(u), ..v }
}

/// Adds the group `g` to a user's groups.
pub open spec fn add_group_to(g: Seq<char>) -> spec_fn(UserView) -> UserView {
    |v: UserView| UserView { groups: v.groups.insert(g), ..v }
}

/// Takes the group `g` out of a user's groups.
pub open spec fn drop_group_from(g: Seq<char>) -> spec_fn(UserView) -> UserView {
    |v: UserView| UserView { groups: v.groups.remove(g), ..v }
}

/// Adds `names` to a group's parents.
pub open spec fn add_parents(names: Set<Seq<char>>) -> spec_fn(GroupView) -> GroupView {
    |v: GroupView| GroupView { parents: v.parents.union(names), ..v }
}

/// Adds `names` to a group's children.
pub open spec fn add_children(names: Set<Seq<char>>) -> spec_fn(GroupView) -> GroupView {
    |v: GroupView| GroupView { children: v.children.union(names), ..v }
}

/// Takes `names` out of a group's parents.
pub open spec fn drop_parents(names: Set<Seq<char>>) -> spec_fn(GroupView) -> GroupView {
    |v: GroupView| GroupView { parents: v.parents.difference(names), ..v }
}

/// Takes `names` out of a group's children.
pub open spec fn drop_children(names: Set<Seq<char>>) -> spec_fn(GroupView) -> GroupView {
    |v: GroupView| GroupView { children: v.children.difference(names), ..v }
}

/// Applies `each` to every existing group of `names`, then, if the group `g`
/// exists, `own` to it; whether `g` exists.
pub open spec fn linked(
    s: ManagerView,
    g: Seq<char>,
    names: Set<Seq<char>>,
    each: spec_fn(GroupView) -> GroupView,
    own: spec_fn(GroupView) -> GroupView,
) -> (ManagerView, bool) {
    let groups = edit_where(s.groups, names, each);
    if groups.contains_key(g) {
        (ManagerView { users: s.users, groups: groups.insert(g, own(groups[g])) }, true)
    } else {
        (ManagerView { users: s.users, groups }, false)
    }
}

/// The state after `op` and whether `op` found what it works on (see each
/// variant of `RustpermsOperation`).
pub open spec fn apply_spec(s: ManagerView, op: RustpermsOperation) -> (ManagerView, bool) {
    match op {
        RustpermsOperation::UserCreate(u) => {
            if s.users.contains_key(u@) {
                (s, false)
            } else {
                (with_user(s, u@, fresh_user()), true)
            }
        },
        RustpermsOperation::UserRemove(u) => {
            if s.users.contains_key(u@) {
                (ManagerView {
                    users: s.users.remove(u@),
                    groups: edit_where(s.groups, s.users[u@].groups, drop_member(u@)),
                }, true)
            } else {
                (s, false)
            }
        },
        RustpermsOperation::UserUpdatePerms(u, p) => {
            if s.users.contains_key(u@) {
                (with_user(s, u@, UserView {
                    groups: s.users[u@].groups,
                    rules: set_all(s.users[u@].rules, rules_view(p@)),
                }), true)
            } else {
                (s, false)
            }
        },
        RustpermsOperation::UserRemovePerms(u, p) => {
            if s.users.contains_key(u@) {
                (with_user(s, u@, UserView {
                    groups: s.users[u@].groups,
                    rules: remove_all(s.users[u@].rules, paths_view(p@)),
                }), true)
            } else {
                (s, false)
            }
        },
        RustpermsOperation::GroupCreate { group_uid, weight } => {
            if s.groups.contains_key(group_uid@) {
                (s, false)
            } else {
                (with_group(s, group_uid@, fresh_group(weight)), true)
            }
        },
        RustpermsOperation::GroupUpdate { group_uid, weight } => {
            if s.groups.contains_key(group_uid@) {
                (with_group(s, group_uid@, GroupView { weight, ..s.groups[group_uid@] }), true)
            } else {
                (s, false)
            }
        },
        RustpermsOperation::GroupRemove(g) => {
            if s.groups.contains_key(g@) {
                let gv = s.groups[g@];
                (ManagerView {
                    users: edit_where(s.users, gv.members, drop_group_from(g@)),
                    groups: edit_where(
                        edit_where(s.groups.remove(g@), gv.children, drop_parent(g@)),
                        gv.parents,
                        drop_child(g@),
                    ),
                }, true)
            } else {
                (s, false)
            }
        },
        RustpermsOperation::GroupUpdatePerms(g, p) => {
            if s.groups.contains_key(g@) {
                (with_group(s, g@, GroupView {
                    rules: set_all(s.groups[g@].rules, rules_view(p@)),
                    ..s.groups[g@]
                }), true)
            } else {
                (s, false)
            }
        },
        RustpermsOperation::GroupRemovePerms(g, p) => {
            if s.groups.contains_key(g@) {
                (with_group(s, g@, GroupView {
                    rules: remove_all(s.groups[g@].rules, paths_view(p@)),
                    ..s.groups[g@]
                }), true)
            } else {
                (s, false)
            }
        },
        RustpermsOperation::GroupAddGroupsToInherit(g, gs) => {
            linked(s, g@, string_set(gs@), add_child(g@), add_parents(string_set(gs@)))
        },
        RustpermsOperation::GroupAddDependentGroups(g, gs) => {
            linked(s, g@, string_set(gs@), add_parent(g@), add_children(string_set(gs@)))
        },
        RustpermsOperation::GroupRemoveToInherit(g, gs) => {
            linked(s, g@, string_set(gs@), drop_child(g@), drop_parents(string_set(gs@)))
        },
        RustpermsOperation::GroupRemoveDependentGroups(g, gs) => {
            linked(s, g@, string_set(gs@), drop_parent(g@), drop_children(string_set(gs@)))
        },
        RustpermsOperation::GroupAddUsers(g, us) => {
            if s.groups.contains_key(g@) {
                (ManagerView {
                    users: edit_where(s.users, string_set(us@), add_group_to(g@)),
                    groups: s.groups.insert(g@, GroupView {
                        members: s.groups[g@].members.union(string_set(us@).intersect(s.users.dom())),
                        ..s.groups[g@]
                    }),
                }, true)
            } else {
                (s, false)
            }
        },
        RustpermsOperation::GroupRemoveUsers(g, us) => {
            let users = edit_where(s.users, string_set(us@), drop_group_from(g@));
            if s.groups.contains_key(g@) {
                (ManagerView {
                    users,
                    groups: s.groups.insert(g@, GroupView {
                        members: s.groups[g@].members.difference(string_set(us@)),
                        ..s.groups[g@]
                    }),
                }, true)
            } else {
                (ManagerView { users, groups: s.groups }, false)
            }
        },
    }
}

/// The state after applying `ops` to `s`, in order.
pub open spec fn apply_all(s: ManagerView, ops: Seq<RustpermsOperation>) -> ManagerView
    decreases ops.len(),
{
    if ops.len() == 0 {
        s
    } else {
        apply_spec(apply_all(s, ops.drop_last()), ops.last()).0
    }
}

/// Every member of a group is an existing user that lists the group, and
/// every group that a user lists is an existing group that has the user as a
/// member.
pub open spec fn memberships_agree(s: ManagerView) -> bool {
    &&& forall|g: Seq<char>, u: Seq<char>|
        #[trigger] s.groups.contains_key(g) && #[trigger] s.groups[g].members.contains(u)
            ==> s.users.contains_key(u) && s.users[u].groups.contains(g)
    &&& forall|u: Seq<char>, g: Seq<char>|
        #[trigger] s.users.contains_key(u) && #[trigger] s.users[u].groups.contains(g)
            ==> s.groups.contains_key(g) && s.groups[g].members.contains(u)
}

/// Every operation keeps memberships in agreement: a user lists a group
/// exactly when the group lists the user, and both exist.
pub proof fn law_apply_keeps_memberships(s: ManagerView, op: RustpermsOperation)
    requires
        memberships_agree(s),
    ensures
        memberships_agree(apply_spec(s, op).0),
{
    let t = apply_spec(s, op).0;
    match op {
        RustpermsOperation::UserRemove(u) => {
            if s.users.contains_key(u@) {
                assert forall|g: Seq<char>, x: Seq<char>|
                    #[trigger] t.groups.contains_key(g) && #[trigger] t.groups[g].members.contains(x)
                        implies t.users.contains_key(x) && t.users[x].groups.contains(g) by {
                    if s.users[u@].groups.contains(g) {
                        assert(s.groups[g].members.contains(x));
                    }
                }
            }
        },
        RustpermsOperation::GroupRemove(g0) => {
            if s.groups.contains_key(g0@) {
                let gv = s.groups[g0@];
                assert forall|u: Seq<char>, g: Seq<char>|
                    #[trigger] t.users.contains_key(u) && #[trigger] t.users[u].groups.contains(g)
                        implies t.groups.contains_key(g) && t.groups[g].members.contains(u) by {
                    if gv.members.contains(u) {
                        assert(s.users[u].groups.contains(g));
                    } else {
                        assert(s.users[u].groups.contains(g));
                        if g == g0@ {
                            assert(gv.members.contains(u));
                        }
                    }
                }
                assert forall|g: Seq<char>, x: Seq<char>|
                    #[trigger] t.groups.contains_key(g) && #[trigger] t.groups[g].members.contains(x)
                        implies t.users.contains_key(x) && t.users[x].groups.contains(g) by {
                    assert(s.groups[g].members.contains(x));
                }
            }
        },
        RustpermsOperation::GroupAddUsers(g0, us) => {
            if s.groups.contains_key(g0@) {
                assert forall|u: Seq<char>, g: Seq<char>|
                    #[trigger] t.users.contains_key(u) && #[trigger] t.users[u].groups.contains(g)
                        implies t.groups.contains_key(g) && t.groups[g].members.contains(u) by {
                    if g != g0@ {
                        assert(s.users[u].groups.contains(g));
                    }
                }
                assert forall|g: Seq<char>, x: Seq<char>|
                    #[trigger] t.groups.contains_key(g) && #[trigger] t.groups[g].members.contains(x)
                        implies t.users.contains_key(x) && t.users[x].groups.contains(g) by {
                    if g != g0@ || s.groups[g0@].members.contains(x) {
                        assert(s.groups[g].members.contains(x));
                    }
                }
            }
        },
        RustpermsOperation::GroupRemoveUsers(g0, us) => {
            assert forall|u: Seq<char>, g: Seq<char>|
                #[trigger] t.users.contains_key(u) && #[trigger] t.users[u].groups.contains(g)
                    implies t.groups.contains_key(g) && t.groups[g].members.contains(u) by {
                assert(s.users[u].groups.contains(g));
            }
            assert forall|g: Seq<char>, x: Seq<char>|
                #[trigger] t.groups.contains_key(g) && #[trigger] t.groups[g].members.contains(x)
                    implies t.users.contains_key(x) && t.users[x].groups.contains(g) by {
                assert(s.groups[g].members.contains(x));
            }
        },
        RustpermsOperation::GroupAddGroupsToInherit(g0, gs) => {
            assert forall|g: Seq<char>, x: Seq<char>|
                #[trigger] t.groups.contains_key(g) && #[trigger] t.groups[g].members.contains(x)
                    implies t.users.contains_key(x) && t.users[x].groups.contains(g) by {
                assert(s.groups[g].members.contains(x));
            }
        },
        RustpermsOperation::GroupAddDependentGroups(g0, gs) => {
            assert forall|g: Seq<char>, x: Seq<char>|
                #[trigger] t.groups.contains_key(g) && #[trigger] t.groups[g].members.contains(x)
                    implies t.users.contains_key(x) && t.users[x].groups.contains(g) by {
                assert(s.groups[g].members.contains(x));
            }
        },
        RustpermsOperation::GroupRemoveToInherit(g0, gs) => {
            assert forall|g: Seq<char>, x: Seq<char>|
                #[trigger] t.groups.contains_key(g) && #[trigger] t.groups[g].members.contains(x)
                    implies t.users.contains_key(x) && t.users[x].groups.contains(g) by {
                assert(s.groups[g].members.contains(x));
            }
        },
        RustpermsOperation::GroupRemoveDependentGroups(g0, gs) => {
            assert forall|g: Seq<char>, x: Seq<char>|
                #[trigger] t.groups.contains_key(g) && #[trigger] t.groups[g].members.contains(x)
                    implies t.users.contains_key(x) && t.users[x].groups.contains(g) by {
                assert(s.groups[g].members.contains(x));
            }
        },
        _ => {},
    }
}

/// Memberships stay in agreement over any sequence of operations.
pub proof fn law_apply_all_keeps_memberships(s: ManagerView, ops: Seq<RustpermsOperation>)
    requires
        memberships_agree(s),
    ensures
        memberships_agree(apply_all(s, ops)),
    decreases ops.len(),
{
    if ops.len() > 0 {
        law_apply_all_keeps_memberships(s, ops.drop_last());
        law_apply_keeps_memberships(apply_all(s, ops.drop_last()), ops.last());
    }
}

/// Inheritance links agree on both sides and name existing groups: a group
/// lists a parent exactly when that parent lists it as a child.
pub open spec fn links_agree(s: ManagerView) -> bool {
    &&& forall|a: Seq<char>, b: Seq<char>|
        #[trigger] s.groups.contains_key(a) && #[trigger] s.groups[a].parents.contains(b)
            ==> s.groups.contains_key(b) && s.groups[b].children.contains(a)
    &&& forall|a: Seq<char>, b: Seq<char>|
        #[trigger] s.groups.contains_key(a) && #[trigger] s.groups[a].children.contains(b)
            ==> s.groups.contains_key(b) && s.groups[b].parents.contains(a)
}

/// Either the group `g` and every group of `names` exist, or none of them
/// does: linking `g` with `names` then adds no link to a missing group.
pub open spec fn all_or_none_exist(s: ManagerView, g: Seq<char>, names: Set<Seq<char>>) -> bool {
    ||| s.groups.contains_key(g) && forall|x: Seq<char>| #[trigger] names.contains(x) ==> s.groups.contains_key(x)
    ||| !s.groups.contains_key(g) && forall|x: Seq<char>| #[trigger] names.contains(x) ==> !s.groups.contains_key(x)
}

/// `op` adds no inheritance link that names a missing group: an operation
/// that adds links either finds its group and every listed group, or finds
/// none of them (and changes nothing).
pub open spec fn links_existing(s: ManagerView, op: RustpermsOperation) -> bool {
    match op {
        RustpermsOperation::GroupAddGroupsToInherit(g, gs) => all_or_none_exist(s, g@, string_set(gs@)),
        RustpermsOperation::GroupAddDependentGroups(g, gs) => all_or_none_exist(s, g@, string_set(gs@)),
        _ => true,
    }
}

/// Every operation keeps inheritance links in agreement, provided it adds
/// no link that names a missing group (a link between an existing group and
/// a missing one has one side without the other).
pub proof fn law_apply_keeps_links(s: ManagerView, op: RustpermsOperation)
    requires
        links_agree(s),
        links_existing(s, op),
    ensures
        links_agree(apply_spec(s, op).0),
{
    let t = apply_spec(s, op).0;
    match op {
        RustpermsOperation::GroupCreate { group_uid, weight } => {
            if !s.groups.contains_key(group_uid@) {
                assert forall|a: Seq<char>, b: Seq<char>|
                    #[trigger] t.groups.contains_key(a) && #[trigger] t.groups[a].parents.contains(b)
                        implies t.groups.contains_key(b) && t.groups[b].children.contains(a) by {
                    if a != group_uid@ {
                        assert(s.groups[a].parents.contains(b));
                    }
                }
                assert forall|a: Seq<char>, b: Seq<char>|
                    #[trigger] t.groups.contains_key(a) && #[trigger] t.groups[a].children.contains(b)
                        implies t.groups.contains_key(b) && t.groups[b].parents.contains(a) by {
                    if a != group_uid@ {
                        assert(s.groups[a].children.contains(b));
                    }
                }
            }
        },
        RustpermsOperation::GroupUpdate { group_uid, weight } => {
            if s.groups.contains_key(group_uid@) {
                assert forall|a: Seq<char>, b: Seq<char>|
                    #[trigger] t.groups.contains_key(a) && #[trigger] t.groups[a].parents.contains(b)
                        implies t.groups.contains_key(b) && t.groups[b].children.contains(a) by {
                    assert(s.groups[a].parents.contains(b));
                }
                assert forall|a: Seq<char>, b: Seq<char>|
                    #[trigger] t.groups.contains_key(a) && #[trigger] t.groups[a].children.contains(b)
                        implies t.groups.contains_key(b) && t.groups[b].parents.contains(a) by {
                    assert(s.groups[a].children.contains(b));
                }
            }
        },
        RustpermsOperation::GroupUpdatePerms(g, p) => {
            if s.groups.contains_key(g@) {
                assert forall|a: Seq<char>, b: Seq<char>|
                    #[trigger] t.groups.contains_key(a) && #[trigger] t.groups[a].parents.contains(b)
                        implies t.groups.contains_key(b) && t.groups[b].children.contains(a) by {
                    assert(s.groups[a].parents.contains(b));
                }
                assert forall|a: Seq<char>, b: Seq<char>|
                    #[trigger] t.groups.contains_key(a) && #[trigger] t.groups[a].children.contains(b)
                        implies t.groups.contains_key(b) && t.groups[b].parents.contains(a) by {
                    assert(s.groups[a].children.contains(b));
                }
            }
        },
        RustpermsOperation::GroupRemovePerms(g, p) => {
            if s.groups.contains_key(g@) {
                assert forall|a: Seq<char>, b: Seq<char>|
                    #[trigger] t.groups.contains_key(a) && #[trigger] t.groups[a].parents.contains(b)
                        implies t.groups.contains_key(b) && t.groups[b].children.contains(a) by {
                    assert(s.groups[a].parents.contains(b));
                }
                assert forall|a: Seq<char>, b: Seq<char>|
                    #[trigger] t.groups.contains_key(a) && #[trigger] t.groups[a].children.contains(b)
                        implies t.groups.contains_key(b) && t.groups[b].parents.contains(a) by {
                    assert(s.groups[a].children.contains(b));
                }
            }
        },
        RustpermsOperation::UserRemove(u) => {
            if s.users.contains_key(u@) {
                assert forall|a: Seq<char>, b: Seq<char>|
                    #[trigger] t.groups.contains_key(a) && #[trigger] t.groups[a].parents.contains(b)
                        implies t.groups.contains_key(b) && t.groups[b].children.contains(a) by {
                    assert(s.groups[a].parents.contains(b));
                }
                assert forall|a: Seq<char>, b: Seq<char>|
                    #[trigger] t.groups.contains_key(a) && #[trigger] t.groups[a].children.contains(b)
                        implies t.groups.contains_key(b) && t.groups[b].parents.contains(a) by {
                    assert(s.groups[a].children.contains(b));
                }
            }
        },
        RustpermsOperation::GroupAddUsers(g, us) => {
            if s.groups.contains_key(g@) {
                assert forall|a: Seq<char>, b: Seq<char>|
                    #[trigger] t.groups.contains_key(a) && #[trigger] t.groups[a].parents.contains(b)
                        implies t.groups.contains_key(b) && t.groups[b].children.contains(a) by {
                    assert(s.groups[a].parents.contains(b));
                }
                assert forall|a: Seq<char>, b: Seq<char>|
                    #[trigger] t.groups.contains_key(a) && #[trigger] t.groups[a].children.contains(b)
                        implies t.groups.contains_key(b) && t.groups[b].parents.contains(a) by {
                    assert(s.groups[a].children.contains(b));
                }
            }
        },
        RustpermsOperation::GroupRemoveUsers(g, us) => {
            assert forall|a: Seq<char>, b: Seq<char>|
                #[trigger] t.groups.contains_key(a) && #[trigger] t.groups[a].parents.contains(b)
                    implies t.groups.contains_key(b) && t.groups[b].children.contains(a) by {
                assert(s.groups[a].parents.contains(b));
            }
            assert forall|a: Seq<char>, b: Seq<char>|
                #[trigger] t.groups.contains_key(a) && #[trigger] t.groups[a].children.contains(b)
                    implies t.groups.contains_key(b) && t.groups[b].parents.contains(a) by {
                assert(s.groups[a].children.contains(b));
            }
        },
        RustpermsOperation::GroupRemove(g0) => {
            if s.groups.contains_key(g0@) {
                let gv = s.groups[g0@];
                assert forall|a: Seq<char>, b: Seq<char>|
                    #[trigger] t.groups.contains_key(a) && #[trigger] t.groups[a].parents.contains(b)
                        implies t.groups.contains_key(b) && t.groups[b].children.contains(a) by {
                    assert(s.groups[a].parents.contains(b));
                    assert(b != g0@);
                    assert(a != g0@);
                    assert(s.groups[b].children.contains(a));
                    if gv.parents.contains(b) {
                        assert(s.groups[g0@].parents.contains(b));
                    }
                }
                assert forall|a: Seq<char>, b: Seq<char>|
                    #[trigger] t.groups.contains_key(a) && #[trigger] t.groups[a].children.contains(b)
                        implies t.groups.contains_key(b) && t.groups[b].parents.contains(a) by {
                    assert(s.groups[a].children.contains(b));
                    assert(b != g0@);
                    assert(s.groups[b].parents.contains(a));
                }
            }
        },
        RustpermsOperation::GroupAddGroupsToInherit(g0, gs) => {
            let names = string_set(gs@);
            if !s.groups.contains_key(g0@) {
                assert(t.groups =~= s.groups);
            }
            assert forall|a: Seq<char>, b: Seq<char>|
                #[trigger] t.groups.contains_key(a) && #[trigger] t.groups[a].parents.contains(b)
                    implies t.groups.contains_key(b) && t.groups[b].children.contains(a) by {
                if !(a == g0@ && names.contains(b)) {
                    assert(s.groups[a].parents.contains(b));
                }
            }
            assert forall|a: Seq<char>, b: Seq<char>|
                #[trigger] t.groups.contains_key(a) && #[trigger] t.groups[a].children.contains(b)
                    implies t.groups.contains_key(b) && t.groups[b].parents.contains(a) by {
                if !(b == g0@ && names.contains(a)) {
                    assert(s.groups[a].children.contains(b));
                }
            }
        },
        RustpermsOperation::GroupAddDependentGroups(g0, gs) => {
            let names = string_set(gs@);
            if !s.groups.contains_key(g0@) {
                assert(t.groups =~= s.groups);
            }
            assert forall|a: Seq<char>, b: Seq<char>|
                #[trigger] t.groups.contains_key(a) && #[trigger] t.groups[a].parents.contains(b)
                    implies t.groups.contains_key(b) && t.groups[b].children.contains(a) by {
                if !(b == g0@ && names.contains(a)) {
                    assert(s.groups[a].parents.contains(b));
                }
            }
            assert forall|a: Seq<char>, b: Seq<char>|
                #[trigger] t.groups.contains_key(a) && #[trigger] t.groups[a].children.contains(b)
                    implies t.groups.contains_key(b) && t.groups[b].parents.contains(a) by {
                if !(a == g0@ && names.contains(b)) {
                    assert(s.groups[a].children.contains(b));
                }
            }
        },
        RustpermsOperation::GroupRemoveToInherit(g0, gs) => {
            let names = string_set(gs@);
            assert forall|a: Seq<char>, b: Seq<char>|
                #[trigger] t.groups.contains_key(a) && #[trigger] t.groups[a].parents.contains(b)
                    implies t.groups.contains_key(b) && t.groups[b].children.contains(a) by {
                assert(s.groups[a].parents.contains(b));
            }
            assert forall|a: Seq<char>, b: Seq<char>|
                #[trigger] t.groups.contains_key(a) && #[trigger] t.groups[a].children.contains(b)
                    implies t.groups.contains_key(b) && t.groups[b].parents.contains(a) by {
                assert(s.groups[a].children.contains(b));
            }
        },
        RustpermsOperation::GroupRemoveDependentGroups(g0, gs) => {
            let names = string_set(gs@);
            assert forall|a: Seq<char>, b: Seq<char>|
                #[trigger] t.groups.contains_key(a) && #[trigger] t.groups[a].parents.contains(b)
                    implies t.groups.contains_key(b) && t.groups[b].children.contains(a) by {
                assert(s.groups[a].parents.contains(b));
            }
            assert forall|a: Seq<char>, b: Seq<char>|
                #[trigger] t.groups.contains_key(a) && #[trigger] t.groups[a].children.contains(b)
                    implies t.groups.contains_key(b) && t.groups[b].parents.contains(a) by {
                assert(s.groups[a].children.contains(b));
            }
        },
        _ => {},
    }
}

/// Inheritance links stay in agreement over a sequence of operations, each
/// adding no link that names a group missing when it is applied.
pub proof fn law_apply_all_keeps_links(s: ManagerView, ops: Seq<RustpermsOperation>)
    requires
        links_agree(s),
        forall|i: int| 0 <= i < ops.len() ==> links_existing(apply_all(s, ops.take(i)), #[trigger] ops[i]),
    ensures
        links_agree(apply_all(s, ops)),
    decreases ops.len(),
{
    if ops.len() > 0 {
        let init = ops.drop_last();
        assert forall|i: int| 0 <= i < init.len() implies links_existing(apply_all(s, init.take(i)), #[trigger] init[i]) by {
            assert(init.take(i) =~= ops.take(i));
            assert(init[i] == ops[i]);
        }
        law_apply_all_keeps_links(s, init);
        assert(ops.take(init.len() as int) =~= init);
        assert(links_existing(apply_all(s, ops.take(init.len() as int)), ops[init.len() as int]));
        law_apply_keeps_links(apply_all(s, init), ops.last());
    }
}

/// Whether `op` finds what it works on in `s`: for a create, that the user
/// or group does not exist yet; for any other operation, that its user, or
/// its first group, exists.
pub open spec fn subject_found(s: ManagerView, op: RustpermsOperation) -> bool {
    match op {
        RustpermsOperation::UserCreate(u) => !s.users.contains_key(u@),
        RustpermsOperation::UserRemove(u) => s.users.contains_key(u@),
        RustpermsOperation::UserUpdatePerms(u, _) => s.users.contains_key(u@),
        RustpermsOperation::UserRemovePerms(u, _) => s.users.contains_key(u@),
        RustpermsOperation::GroupCreate { group_uid, .. } => !s.groups.contains_key(group_uid@),
        RustpermsOperation::GroupUpdate { group_uid, .. } => s.groups.contains_key(group_uid@),
        RustpermsOperation::GroupRemove(g) => s.groups.contains_key(g@),
        RustpermsOperation::GroupUpdatePerms(g, _) => s.groups.contains_key(g@),
        RustpermsOperation::GroupRemovePerms(g, _) => s.groups.contains_key(g@),
        RustpermsOperation::GroupAddGroupsToInherit(g, _) => s.groups.contains_key(g@),
        RustpermsOperation::GroupAddDependentGroups(g, _) => s.groups.contains_key(g@),
        RustpermsOperation::GroupRemoveToInherit(g, _) => s.groups.contains_key(g@),
        RustpermsOperation::GroupRemoveDependentGroups(g, _) => s.groups.contains_key(g@),
        RustpermsOperation::GroupAddUsers(g, _) => s.groups.contains_key(g@),
        RustpermsOperation::GroupRemoveUsers(g, _) => s.groups.contains_key(g@),
    }
}

/// `op` adds inheritance links for a missing group to groups that exist:
/// it fails, yet links the existing listed groups to the missing one.
pub open spec fn links_missing_target(s: ManagerView, op: RustpermsOperation) -> bool {
    match op {
        RustpermsOperation::GroupAddGroupsToInherit(g, gs) => !s.groups.contains_key(g@)
            && exists|x: Seq<char>| #[trigger] string_set(gs@).contains(x) && s.groups.contains_key(x),
        RustpermsOperation::GroupAddDependentGroups(g, gs) => !s.groups.contains_key(g@)
            && exists|x: Seq<char>| #[trigger] string_set(gs@).contains(x) && s.groups.contains_key(x),
        _ => false,
    }
}

/// An operation fails exactly when its user or group is missing (or, for a
/// create, already exists), and a failed operation changes nothing, but for
/// one that adds links for a missing group to existing groups.
pub proof fn law_failed_operation_changes_nothing(s: ManagerView, op: RustpermsOperation)
    requires
        memberships_agree(s),
        links_agree(s),
        !links_missing_target(s, op),
    ensures
        apply_spec(s, op).1 == subject_found(s, op),
        !apply_spec(s, op).1 ==> apply_spec(s, op).0 == s,
{
    let t = apply_spec(s, op).0;
    match op {
        RustpermsOperation::GroupAddGroupsToInherit(g, gs) => {
            if !s.groups.contains_key(g@) {
                assert(t.groups =~= s.groups);
            }
        },
        RustpermsOperation::GroupAddDependentGroups(g, gs) => {
            if !s.groups.contains_key(g@) {
                assert(t.groups =~= s.groups);
            }
        },
        RustpermsOperation::GroupRemoveToInherit(g, gs) => {
            if !s.groups.contains_key(g@) {
                assert forall|x: Seq<char>| #[trigger] t.groups.contains_key(x) implies t.groups[x] == s.groups[x] by {
                    if string_set(gs@).contains(x) {
                        assert(!s.groups[x].children.contains(g@));
                        assert(s.groups[x].children.remove(g@) =~= s.groups[x].children);
                    }
                }
                assert(t.groups =~= s.groups);
            }
        },
        RustpermsOperation::GroupRemoveDependentGroups(g, gs) => {
            if !s.groups.contains_key(g@) {
                assert forall|x: Seq<char>| #[trigger] t.groups.contains_key(x) implies t.groups[x] == s.groups[x] by {
                    if string_set(gs@).contains(x) {
                        assert(!s.groups[x].parents.contains(g@));
                        assert(s.groups[x].parents.remove(g@) =~= s.groups[x].parents);
                    }
                }
                assert(t.groups =~= s.groups);
            }
        },
        RustpermsOperation::GroupRemoveUsers(g, us) => {
            if !s.groups.contains_key(g@) {
                assert forall|x: Seq<char>| #[trigger] t.users.contains_key(x) implies t.users[x] == s.users[x] by {
                    if string_set(us@).contains(x) {
                        assert(!s.users[x].groups.contains(g@));
                        assert(s.users[x].groups.remove(g@) =~= s.users[x].groups);
                    }
                }
                assert(t.users =~= s.users);
            }
        },
        _ => {},
    }
}

/// `u` is one of the names of `names`.
pub open spec fn named_in(names: Seq<String>, u: Seq<char>) -> bool {
    exists|i: int| 0 <= i < names.len() && (#[trigger] names[i])@ == u
}

/// Adding users to an existing group: every existing user named anywhere in
/// the list becomes a member of the group and lists it among its groups; the
/// group gains no other member and nothing else of it changes; no other
/// group changes; a user keeps its rules and gains no other group; names of
/// missing users are passed over; and the operation reports success.
pub proof fn law_add_users(s: ManagerView, g: String, us: Vec<String>)
    requires
        s.groups.contains_key(g@),
    ensures
        apply_spec(s, RustpermsOperation::GroupAddUsers(g, us)).1,
        ({
            let t = apply_spec(s, RustpermsOperation::GroupAddUsers(g, us)).0;
            &&& t.users.dom() == s.users.dom()
            &&& t.groups.dom() == s.groups.dom()
            &&& forall|u: Seq<char>| s.users.contains_key(u) && named_in(us@, u)
                ==> t.groups[g@].members.contains(u) && #[trigger] t.users[u].groups.contains(g@)
            &&& forall|u: Seq<char>| #[trigger] t.groups[g@].members.contains(u)
                <==> s.groups[g@].members.contains(u) || (s.users.contains_key(u) && named_in(us@, u))
            &&& forall|u: Seq<char>, h: Seq<char>| #[trigger] s.users.contains_key(u) ==>
                (#[trigger] t.users[u].groups.contains(h) <==> s.users[u].groups.contains(h) || (h == g@ && named_in(us@, u)))
            &&& forall|u: Seq<char>| #[trigger] s.users.contains_key(u) ==> t.users[u].rules == s.users[u].rules
            &&& t.groups[g@].weight == s.groups[g@].weight
            &&& t.groups[g@].rules == s.groups[g@].rules
            &&& t.groups[g@].parents == s.groups[g@].parents
            &&& t.groups[g@].children == s.groups[g@].children
            &&& forall|h: Seq<char>| #[trigger] s.groups.contains_key(h) && h != g@ ==> t.groups[h] == s.groups[h]
        }),
{
    let t = apply_spec(s, RustpermsOperation::GroupAddUsers(g, us)).0;
    assert forall|u: Seq<char>| named_in(us@, u) <==> #[trigger] string_set(us@).contains(u) by {
        if named_in(us@, u) {
            let i = choose|i: int| 0 <= i < us@.len() && (#[trigger] us@[i])@ == u;
            assert(us@[i]@ == u);
        }
    }
    assert(t.users.dom() =~= s.users.dom());
    assert(t.groups.dom() =~= s.groups.dom());
}

/// A manager built from any batch of operations keeps memberships in agreement.
pub proof fn law_built_memberships(ops: Seq<RustpermsOperation>)
    ensures
        memberships_agree(apply_all(empty_manager(), ops)),
{
    law_apply_all_keeps_memberships(empty_manager(), ops);
}

/// The name of the group whose rules apply to anonymous requests.
pub const GUEST_GROUP: &'static str = "guest";

/// `guest`, as a character sequence.
pub open spec fn guest_name() -> Seq<char> {
    seq!['g', 'u', 'e', 's', 't']
}

/// The groups reached from `start` in at most `n` steps, each step going
/// from an existing group to its parents.
pub open spec fn reach(groups: Map<Seq<char>, GroupView>, start: Set<Seq<char>>, n: nat) -> Set<Seq<char>>
    decreases n,
{
    if n == 0 {
        start
    } else {
        let prev = reach(groups, start, (n - 1) as nat);
        prev.union(
            Set::new(
                |p: Seq<char>|
                    exists|q: Seq<char>| #[trigger] prev.contains(q) && groups.contains_key(q) && groups[q].parents.contains(p),
            ),
        )
    }
}

/// The groups reached from `start` in any number of steps.
pub open spec fn reachable(groups: Map<Seq<char>, GroupView>, start: Set<Seq<char>>) -> Set<Seq<char>> {
    Set::new(|g: Seq<char>| exists|n: nat| #[trigger] reach(groups, start, n).contains(g))
}

/// The rule `found` as a competitor of weight `w`: its value, how it
/// matched, and the weight; none when there is no rule.
pub open spec fn competitor(found: Option<(bool, MatchType)>, w: int) -> Set<(bool, MatchType, int)> {
    match found {
        Some((v, t)) => set![(v, t, w)],
        None => Set::empty(),
    }
}

/// The rules that the existing groups of `names` hold for `path`, each with
/// its group's weight.
pub open spec fn group_competitors(
    groups: Map<Seq<char>, GroupView>,
    names: Set<Seq<char>>,
    path: Seq<Seq<char>>,
) -> Set<(bool, MatchType, int)> {
    Set::new(
        |c: (bool, MatchType, int)|
            exists|g: Seq<char>|
                #![trigger names.contains(g), groups.contains_key(g)]
                names.contains(g) && groups.contains_key(g) && competitor(resolve(groups[g].rules, path), groups[g].weight as int).contains(c),
    )
}

/// The groups where the search for `uid`'s rules starts: `guest` for the
/// empty identifier, else the user's groups.
pub open spec fn start_groups(s: ManagerView, uid: Seq<char>) -> Set<Seq<char>> {
    if uid.len() == 0 {
        set![guest_name()]
    } else {
        s.users[uid].groups
    }
}

/// Every rule that competes to decide `path` for `uid`: the user's own rule
/// at `RUSTPERMS_USER_WEIGHT` (none for the empty identifier), and the rules
/// of every group reached from its start groups.
pub open spec fn competitors(s: ManagerView, uid: Seq<char>, path: Seq<Seq<char>>) -> Set<(bool, MatchType, int)> {
    let own = if uid.len() == 0 {
        Set::empty()
    } else {
        competitor(resolve(s.users[uid].rules, path), RUSTPERMS_USER_WEIGHT as int)
    };
    own.union(group_competitors(s.groups, reachable(s.groups, start_groups(s, uid)), path))
}

/// `(v, t)` at weight `w` wins among `c`: it is one of them, no competitor
/// is heavier, none of the same weight matched more specifically, and it
/// allows only if no competitor of that weight and kind denies.
pub open spec fn wins(c: Set<(bool, MatchType, int)>, v: bool, t: MatchType, w: int) -> bool {
    &&& c.contains((v, t, w))
    &&& forall|x: (bool, MatchType, int)| #[trigger] c.contains(x) ==> x.2 < w || (x.2 == w && x.1.rank() <= t.rank())
    &&& v ==> !c.contains((false, t, w))
}

/// `r` is what the competitors `c` decide: nothing when there are none;
/// otherwise the winner's value and match kind.
pub open spec fn decides(c: Set<(bool, MatchType, int)>, r: Option<(bool, MatchType)>) -> bool {
    match r {
        None => c == Set::<(bool, MatchType, int)>::empty(),
        Some((v, t)) => exists|w: int| #[trigger] wins(c, v, t, w),
    }
}

/// The decision is determined by the competitors alone: two results that
/// both say what the same competitors decide are the same, whatever order
/// the groups were visited in.
pub proof fn law_decision_unique(c: Set<(bool, MatchType, int)>, r1: Option<(bool, MatchType)>, r2: Option<(bool, MatchType)>)
    requires
        decides(c, r1),
        decides(c, r2),
    ensures
        r1 == r2,
{
    match (r1, r2) {
        (Some((v1, t1)), Some((v2, t2))) => {
            let w1 = choose|w: int| #[trigger] wins(c, v1, t1, w);
            let w2 = choose|w: int| #[trigger] wins(c, v2, t2, w);
            assert(c.contains((v1, t1, w1)));
            assert(c.contains((v2, t2, w2)));
            assert(w1 == w2);
            assert(t1.rank() == t2.rank());
            assert(t1 == t2);
            if v1 != v2 {
                if v1 {
                    assert(c.contains((false, t1, w1)));
                } else {
                    assert(c.contains((false, t2, w2)));
                }
            }
        },
        (Some((v1, t1)), None) => {
            let w1 = choose|w: int| #[trigger] wins(c, v1, t1, w);
            assert(c.contains((v1, t1, w1)));
        },
        (None, Some((v2, t2))) => {
            let w2 = choose|w: int| #[trigger] wins(c, v2, t2, w);
            assert(c.contains((v2, t2, w2)));
        },
        (None, None) => {},
    }
}

/// A user in no group is decided by its own rules alone: what they resolve
/// `path` to is what the user's competitors decide.
pub proof fn law_lone_user(s: ManagerView, uid: Seq<char>, path: Seq<Seq<char>>)
    requires
        uid.len() != 0,
        s.users.contains_key(uid),
        s.users[uid].groups == Set::<Seq<char>>::empty(),
    ensures
        decides(competitors(s, uid, path), resolve(s.users[uid].rules, path)),
{
    let start = start_groups(s, uid);
    assert forall|g: Seq<char>| s.groups.contains_key(g) implies !reachable(s.groups, start).contains(g) by {
        assert forall|n: nat| !(#[trigger] reach(s.groups, start, n)).contains(g) by {
            lemma_reach_empty(s.groups, start, n);
        }
    }
    lemma_competitors_same(s.groups, reachable(s.groups, start), Set::empty(), path);
    assert(group_competitors(s.groups, Set::empty(), path) =~= Set::<(bool, MatchType, int)>::empty());
    let own = competitor(resolve(s.users[uid].rules, path), RUSTPERMS_USER_WEIGHT as int);
    assert(competitors(s, uid, path) =~= own);
    if let Some((v, t)) = resolve(s.users[uid].rules, path) {
        assert(wins(own, v, t, RUSTPERMS_USER_WEIGHT as int));
    }
}

/// Reading back a written rule: once a user in no group has its rules
/// updated, the last rule of the update decides its path, matched exactly.
pub proof fn law_user_rule_read_back(s: ManagerView, u: String, rules: Vec<PermissionRule>)
    requires
        u@.len() != 0,
        s.users.contains_key(u@),
        s.users[u@].groups == Set::<Seq<char>>::empty(),
        rules@.len() > 0,
    ensures
        decides(
            competitors(apply_spec(s, RustpermsOperation::UserUpdatePerms(u, rules)).0, u@, rules@.last().0@),
            Some((rules@.last().1, MatchType::Exact)),
        ),
{
    let t = apply_spec(s, RustpermsOperation::UserUpdatePerms(u, rules)).0;
    let rv = rules_view(rules@);
    assert(rv.last() == (rules@.last().0@, rules@.last().1));
    assert(rv.drop_last().len() + 1 == rv.len());
    assert(set_all(s.users[u@].rules, rv) == set_all(s.users[u@].rules, rv.drop_last()).insert(rv.last().0, rv.last().1));
    law_get_after_set(set_all(s.users[u@].rules, rv.drop_last()), rv.last().0, rv.last().1);
    law_lone_user(t, u@, rules@.last().0@);
}

/// Nothing is reached from no group.
proof fn lemma_reach_empty(groups: Map<Seq<char>, GroupView>, start: Set<Seq<char>>, n: nat)
    requires
        start == Set::<Seq<char>>::empty(),
    ensures
        reach(groups, start, n) == Set::<Seq<char>>::empty(),
    decreases n,
{
    if n > 0 {
        lemma_reach_empty(groups, start, (n - 1) as nat);
        assert(reach(groups, start, n) =~= Set::<Seq<char>>::empty());
    }
}

/// Without a `guest` group, an anonymous request is decided by nothing.
pub proof fn law_no_guest_group(s: ManagerView, path: Seq<Seq<char>>)
    requires
        !s.groups.contains_key(guest_name()),
    ensures
        decides(competitors(s, Seq::empty(), path), None),
{
    let start = start_groups(s, Seq::<char>::empty());
    assert forall|g: Seq<char>| s.groups.contains_key(g) implies !reachable(s.groups, start).contains(g) by {
        assert forall|n: nat| !(#[trigger] reach(s.groups, start, n)).contains(g) by {
            lemma_reach_guest_only(s.groups, n);
        }
    }
    lemma_competitors_same(s.groups, reachable(s.groups, start), Set::empty(), path);
    assert(group_competitors(s.groups, Set::empty(), path) =~= Set::<(bool, MatchType, int)>::empty());
    assert(competitors(s, Seq::empty(), path) =~= Set::<(bool, MatchType, int)>::empty());
}

/// From a missing `guest` group only `guest` itself is reached.
proof fn lemma_reach_guest_only(groups: Map<Seq<char>, GroupView>, n: nat)
    requires
        !groups.contains_key(guest_name()),
    ensures
        reach(groups, set![guest_name()], n) == set![guest_name()],
    decreases n,
{
    if n > 0 {
        lemma_reach_guest_only(groups, (n - 1) as nat);
        assert(reach(groups, set![guest_name()], n) =~= set![guest_name()]);
    }
}

/// The running decision `rule`, at weight `w`, is what `c` decides.
spec fn holds(c: Set<(bool, MatchType, int)>, rule: Option<(bool, MatchType)>, w: int) -> bool {
    match rule {
        None => c == Set::<(bool, MatchType, int)>::empty(),
        Some((v, t)) => wins(c, v, t, w),
    }
}

/// The names of the groups at the first `k` positions of `queue`.
spec fn queued(groups: Seq<Group>, queue: Seq<usize>, k: int) -> Set<Seq<char>> {
    Set::new(|s: Seq<char>| exists|i: int| 0 <= i < k && (#[trigger] groups[queue[i] as int]).uid() == s)
}

/// `queue` holds distinct positions below `n`, and `visited` marks exactly those.
spec fn queue_ok(queue: Seq<usize>, visited: Seq<bool>, n: int) -> bool {
    &&& visited.len() == n
    &&& forall|i: int| 0 <= i < queue.len() ==> (#[trigger] queue[i] as int) < n
    &&& forall|i: int, j: int| 0 <= i < j < queue.len() ==> queue[i] != queue[j]
    &&& forall|j: int| 0 <= j < n ==> (#[trigger] visited[j] <==> exists|i: int| 0 <= i < queue.len() && queue[i] == j)
}

/// Distinct positions below `n` are at most `n`.
proof fn lemma_distinct_below(queue: Seq<usize>, n: int)
    requires
        0 <= n,
        forall|i: int| 0 <= i < queue.len() ==> (#[trigger] queue[i] as int) < n,
        forall|i: int, j: int| 0 <= i < j < queue.len() ==> queue[i] != queue[j],
    ensures
        queue.len() <= n,
{
    let s = queue.map_values(|j: usize| j as int);
    assert(s.no_duplicates()) by {
        assert forall|i: int, j: int| 0 <= i < s.len() && 0 <= j < s.len() && i != j implies s[i] != s[j] by {
            if i < j {
                assert(queue[i] != queue[j]);
            } else {
                assert(queue[j] != queue[i]);
            }
        }
    }
    s.unique_seq_to_set();
    lemma_int_range(0, n);
    assert(s.to_set().subset_of(set_int_range(0, n)));
    lemma_len_subset(s.to_set(), set_int_range(0, n));
}

/// A set of existing groups that holds the existing start groups and the
/// existing parents of its members holds every existing reachable group.
proof fn lemma_reach_within(groups: Map<Seq<char>, GroupView>, start: Set<Seq<char>>, p: Set<Seq<char>>, n: nat)
    requires
        forall|s: Seq<char>| #[trigger] start.contains(s) && groups.contains_key(s) ==> p.contains(s),
        forall|q: Seq<char>, x: Seq<char>|
            #[trigger] p.contains(q) && groups.contains_key(q) && #[trigger] groups[q].parents.contains(x) && groups.contains_key(x)
                ==> p.contains(x),
    ensures
        forall|g: Seq<char>| #[trigger] reach(groups, start, n).contains(g) && groups.contains_key(g) ==> p.contains(g),
    decreases n,
{
    if n > 0 {
        lemma_reach_within(groups, start, p, (n - 1) as nat);
        let prev = reach(groups, start, (n - 1) as nat);
        assert forall|g: Seq<char>| #[trigger] reach(groups, start, n).contains(g) && groups.contains_key(g) implies p.contains(g) by {
            if !prev.contains(g) {
                let q = choose|q: Seq<char>| #[trigger] prev.contains(q) && groups.contains_key(q) && groups[q].parents.contains(g);
                assert(p.contains(q));
            }
        }
    }
}

/// Extending a queue keeps the names at its first `k` positions.
proof fn lemma_queued_prefix(groups: Seq<Group>, a: Seq<usize>, b: Seq<usize>, k: int)
    requires
        0 <= k <= a.len() <= b.len(),
        forall|i: int| 0 <= i < a.len() ==> b[i] == a[i],
    ensures
        queued(groups, b, k) == queued(groups, a, k),
{
    assert forall|s: Seq<char>| queued(groups, b, k).contains(s) == queued(groups, a, k).contains(s) by {
        if queued(groups, b, k).contains(s) {
            let i = choose|i: int| 0 <= i < k && (#[trigger] groups[b[i] as int]).uid() == s;
            assert(b[i] == a[i]);
        }
        if queued(groups, a, k).contains(s) {
            let i = choose|i: int| 0 <= i < k && (#[trigger] groups[a[i] as int]).uid() == s;
            assert(b[i] == a[i]);
        }
    }
    assert(queued(groups, b, k) =~= queued(groups, a, k));
}

/// The names at the first `k` positions are among those at the first `m >= k`.
proof fn lemma_queued_grows(groups: Seq<Group>, q: Seq<usize>, k: int, m: int)
    requires
        0 <= k <= m,
    ensures
        queued(groups, q, k).subset_of(queued(groups, q, m)),
{
    assert forall|s: Seq<char>| queued(groups, q, k).contains(s) implies queued(groups, q, m).contains(s) by {
        let i = choose|i: int| 0 <= i < k && (#[trigger] groups[q[i] as int]).uid() == s;
    }
}

/// One more position adds the name of the group there.
proof fn lemma_queued_step(groups: Seq<Group>, q: Seq<usize>, k: int)
    requires
        0 <= k < q.len(),
    ensures
        queued(groups, q, k + 1) == queued(groups, q, k).insert(groups[q[k] as int].uid()),
{
    assert forall|s: Seq<char>| queued(groups, q, k + 1).contains(s) == queued(groups, q, k).insert(groups[q[k] as int].uid()).contains(s) by {
        if queued(groups, q, k + 1).contains(s) {
            let i = choose|i: int| 0 <= i < k + 1 && (#[trigger] groups[q[i] as int]).uid() == s;
        }
        if queued(groups, q, k).contains(s) {
            let i = choose|i: int| 0 <= i < k && (#[trigger] groups[q[i] as int]).uid() == s;
        }
    }
    assert(queued(groups, q, k + 1) =~= queued(groups, q, k).insert(groups[q[k] as int].uid()));
}

/// The competitors of one more group are those before and that group's rule.
proof fn lemma_competitors_step(
    groups: Map<Seq<char>, GroupView>,
    names: Set<Seq<char>>,
    g: Seq<char>,
    path: Seq<Seq<char>>,
)
    requires
        groups.contains_key(g),
    ensures
        group_competitors(groups, names.insert(g), path) == group_competitors(groups, names, path).union(
            competitor(resolve(groups[g].rules, path), groups[g].weight as int),
        ),
{
    let a = group_competitors(groups, names.insert(g), path);
    let b = group_competitors(groups, names, path).union(competitor(resolve(groups[g].rules, path), groups[g].weight as int));
    assert forall|c: (bool, MatchType, int)| a.contains(c) == b.contains(c) by {
        if a.contains(c) {
            let h = choose|h: Seq<char>|
                #![trigger names.insert(g).contains(h), groups.contains_key(h)]
                names.insert(g).contains(h) && groups.contains_key(h) && competitor(resolve(groups[h].rules, path), groups[h].weight as int).contains(c);
            if h != g {
                assert(names.contains(h));
            }
        }
        if group_competitors(groups, names, path).contains(c) {
            let h = choose|h: Seq<char>|
                #![trigger names.contains(h), groups.contains_key(h)]
                names.contains(h) && groups.contains_key(h) && competitor(resolve(groups[h].rules, path), groups[h].weight as int).contains(c);
            assert(names.insert(g).contains(h));
        }
        if competitor(resolve(groups[g].rules, path), groups[g].weight as int).contains(c) {
            assert(names.insert(g).contains(g));
        }
    }
    assert(a =~= b);
}

/// Only the groups that exist in both count: equal existing parts give equal competitors.
proof fn lemma_competitors_same(
    groups: Map<Seq<char>, GroupView>,
    a: Set<Seq<char>>,
    b: Set<Seq<char>>,
    path: Seq<Seq<char>>,
)
    requires
        forall|g: Seq<char>| groups.contains_key(g) ==> (a.contains(g) <==> b.contains(g)),
    ensures
        group_competitors(groups, a, path) == group_competitors(groups, b, path),
{
    assert forall|c: (bool, MatchType, int)| group_competitors(groups, a, path).contains(c) == group_competitors(groups, b, path).contains(c) by {
        if group_competitors(groups, a, path).contains(c) {
            let h = choose|h: Seq<char>|
                #![trigger a.contains(h), groups.contains_key(h)]
                a.contains(h) && groups.contains_key(h) && competitor(resolve(groups[h].rules, path), groups[h].weight as int).contains(c);
            assert(b.contains(h));
        }
        if group_competitors(groups, b, path).contains(c) {
            let h = choose|h: Seq<char>|
                #![trigger b.contains(h), groups.contains_key(h)]
                b.contains(h) && groups.contains_key(h) && competitor(resolve(groups[h].rules, path), groups[h].weight as int).contains(c);
            assert(a.contains(h));
        }
    }
    assert(group_competitors(groups, a, path) =~= group_competitors(groups, b, path));
}

/// Adding `x` to the decision `rule` at weight `w` keeps it what the
/// competitors decide (the body follows the order: heavier wins, then the
/// more specific match, then a denial).
fn combine(
    rule: Option<(bool, MatchType)>,
    w: i32,
    found: Option<(bool, MatchType)>,
    xw: i32,
    Ghost(c): Ghost<Set<(bool, MatchType, int)>>,
) -> (res: (Option<(bool, MatchType)>, i32))
    requires
        holds(c, rule, w as int),
    ensures
        holds(c.union(competitor(found, xw as int)), res.0, res.1 as int),
{
    match found {
        None => {
            proof {
                assert(c.union(competitor(found, xw as int)) =~= c);
            }
            (rule, w)
        },
        Some(allowed) => {
            let ghost c2 = c.union(competitor(found, xw as int));
            let ghost x = (allowed.0, allowed.1, xw as int);
            proof {
                assert(c2 =~= c.insert(x));
            }
            match rule {
                None => {
                    proof {
                        assert(c2 =~= set![x]);
                    }
                    (Some(allowed), xw)
                },
                Some(cur) => {
                    if xw > w {
                        (Some(allowed), xw)
                    } else if xw == w {
                        if cur.1.level() < allowed.1.level() {
                            (Some(allowed), xw)
                        } else if cur.1.level() == allowed.1.level() {
                            proof {
                                assert(cur.1 == allowed.1);
                            }
                            (Some((allowed.0 && cur.0, allowed.1)), xw)
                        } else {
                            (rule, w)
                        }
                    } else {
                        (rule, w)
                    }
                },
            }
        },
    }
}

/// One change to a group's relatives or members, naming another group or user.
#[derive(Clone, Copy)]
enum Edit {
    AddChild,
    DropChild,
    AddParent,
    DropParent,
    DropMember,
}

/// What `e` does to a group, with `x` as the other party.
spec fn edit_fn(e: Edit, x: Seq<char>) -> spec_fn(GroupView) -> GroupView {
    match e {
        Edit::AddChild => add_child(x),
        Edit::DropChild => drop_child(x),
        Edit::AddParent => add_parent(x),
        Edit::DropParent => drop_parent(x),
        Edit::DropMember => drop_member(x),
    }
}

/// Doing an edit twice is doing it once.
proof fn lemma_edit_idempotent(e: Edit, x: Seq<char>, v: GroupView)
    ensures
        edit_fn(e, x)(edit_fn(e, x)(v)) == edit_fn(e, x)(v),
{
    let f = edit_fn(e, x);
    match e {
        Edit::AddChild => assert(f(f(v)).children =~= f(v).children),
        Edit::DropChild => assert(f(f(v)).children =~= f(v).children),
        Edit::AddParent => assert(f(f(v)).parents =~= f(v).parents),
        Edit::DropParent => assert(f(f(v)).parents =~= f(v).parents),
        Edit::DropMember => assert(f(f(v)).members =~= f(v).members),
    }
}

/// Taking a group out of a user's groups twice is doing it once.
proof fn lemma_drop_group_idempotent(g: Seq<char>, v: UserView)
    ensures
        drop_group_from(g)(drop_group_from(g)(v)) == drop_group_from(g)(v),
{
    assert(drop_group_from(g)(drop_group_from(g)(v)).groups =~= drop_group_from(g)(v).groups);
}

/// Adding a group to a user's groups twice is doing it once.
proof fn lemma_add_group_idempotent(g: Seq<char>, v: UserView)
    ensures
        add_group_to(g)(add_group_to(g)(v)) == add_group_to(g)(v),
{
    assert(add_group_to(g)(add_group_to(g)(v)).groups =~= add_group_to(g)(v).groups);
}

/// The four ways of linking one group with a list of others.
#[derive(Clone, Copy)]
enum LinkKind {
    Inherit,
    Dependent,
    Uninherit,
    Undependent,
}

/// What a link of kind `k` with `g` does to each listed group.
spec fn link_each(k: LinkKind, g: Seq<char>) -> spec_fn(GroupView) -> GroupView {
    match k {
        LinkKind::Inherit => add_child(g),
        LinkKind::Dependent => add_parent(g),
        LinkKind::Uninherit => drop_child(g),
        LinkKind::Undependent => drop_parent(g),
    }
}

/// What a link of kind `k` with the groups `names` does to the linking group.
spec fn link_own(k: LinkKind, names: Set<Seq<char>>) -> spec_fn(GroupView) -> GroupView {
    match k {
        LinkKind::Inherit => add_parents(names),
        LinkKind::Dependent => add_children(names),
        LinkKind::Uninherit => drop_parents(names),
        LinkKind::Undependent => drop_children(names),
    }
}

impl AsyncManager {
    /// Identifiers and names are unique, and each user and group is well formed.
    pub closed spec fn inv(&self) -> bool {
        &&& distinct_keys(self.users@, user_key())
        &&& distinct_keys(self.groups@, group_key())
        &&& forall|i: int| 0 <= i < self.users@.len() ==> (#[trigger] self.users@[i]).inv()
        &&& forall|i: int| 0 <= i < self.groups@.len() ==> (#[trigger] self.groups@[i]).inv()
    }

    /// A manager with no users and no groups.
    pub fn new() -> (m: Self)
        ensures
            m.inv(),
            m@ == empty_manager(),
    {
        let m = AsyncManager { users: Vec::new(), groups: Vec::new() };
        proof {
            lemma_keyed_empty(m.users@, user_key(), user_value());
            lemma_keyed_empty(m.groups@, group_key(), group_value());
        }
        m
    }

    /// The position of the user `uid`, if there is one.
    fn find_user(&self, uid: &String) -> (r: Option<usize>)
        requires
            self.inv(),
        ensures
            match r {
                Some(i) => {
                    &&& i < self.users@.len()
                    &&& self.users@[i as int].uid() == uid@
                    &&& self@.users.contains_key(uid@)
                    &&& self@.users[uid@] == self.users@[i as int]@
                },
                None => !self@.users.contains_key(uid@),
            },
    {
        let mut i: usize = 0;
        while i < self.users.len()
            invariant
                self.inv(),
                i <= self.users@.len(),
                forall|j: int| 0 <= j < i ==> (#[trigger] self.users@[j]).uid() != uid@,
            decreases self.users@.len() - i,
        {
            if *self.users[i].get_user_uid() == *uid {
                proof {
                    lemma_keyed_lookup(self.users@, user_key(), user_value(), i as int);
                }
                return Some(i);
            }
            i = i + 1;
        }
        proof {
            if has_key(self.users@, user_key(), uid@) {
                let j = choose|j: int| 0 <= j < self.users@.len() && user_key()(#[trigger] self.users@[j]) == uid@;
                assert(self.users@[j].uid() != uid@);
            }
        }
        None
    }

    /// The position of the group `name`, if there is one.
    fn find_group(&self, name: &String) -> (r: Option<usize>)
        requires
            self.inv(),
        ensures
            match r {
                Some(i) => {
                    &&& i < self.groups@.len()
                    &&& self.groups@[i as int].uid() == name@
                    &&& self@.groups.contains_key(name@)
                    &&& self@.groups[name@] == self.groups@[i as int]@
                },
                None => !self@.groups.contains_key(name@),
            },
    {
        let mut i: usize = 0;
        while i < self.groups.len()
            invariant
                self.inv(),
                i <= self.groups@.len(),
                forall|j: int| 0 <= j < i ==> (#[trigger] self.groups@[j]).uid() != name@,
            decreases self.groups@.len() - i,
        {
            if *self.groups[i].get_group_uid() == *name {
                proof {
                    lemma_keyed_lookup(self.groups@, group_key(), group_value(), i as int);
                }
                return Some(i);
            }
            i = i + 1;
        }
        proof {
            if has_key(self.groups@, group_key(), name@) {
                let j = choose|j: int| 0 <= j < self.groups@.len() && group_key()(#[trigger] self.groups@[j]) == name@;
                assert(self.groups@[j].uid() != name@);
            }
        }
        None
    }

    /// Adds the user `u` unless it exists; whether it was added.
    fn user_create(&mut self, u: String) -> (r: bool)
        requires
            old(self).inv(),
        ensures
            final(self).inv(),
            r == !old(self)@.users.contains_key(u@),
            final(self)@ == (if r { with_user(old(self)@, u@, fresh_user()) } else { old(self)@ }),
    {
        match self.find_user(&u) {
            Some(_) => false,
            None => {
                let user = User::new(u);
                proof {
                    lemma_keyed_push(self.users@, user_key(), user_value(), user);
                }
                self.users.push(user);
                true
            },
        }
    }

    /// Adds the group `g` of weight `w` unless it exists; whether it was added.
    fn group_create(&mut self, g: String, w: i32) -> (r: bool)
        requires
            old(self).inv(),
        ensures
            final(self).inv(),
            r == !old(self)@.groups.contains_key(g@),
            final(self)@ == (if r { with_group(old(self)@, g@, fresh_group(w)) } else { old(self)@ }),
    {
        match self.find_group(&g) {
            Some(_) => false,
            None => {
                let group = Group::new(g, w);
                proof {
                    lemma_keyed_push(self.groups@, group_key(), group_value(), group);
                }
                self.groups.push(group);
                true
            },
        }
    }

    /// Applies `e` (with `x`) to the group at position `j`.
    fn edit_group_at(&mut self, j: usize, e: Edit, x: &String)
        requires
            old(self).inv(),
            j < old(self).groups@.len(),
        ensures
            final(self).inv(),
            final(self).groups@.len() == old(self).groups@.len(),
            final(self).groups@[j as int].uid() == old(self).groups@[j as int].uid(),
            final(self)@.users == old(self)@.users,
            final(self)@.groups == old(self)@.groups.insert(
                old(self).groups@[j as int].uid(),
                edit_fn(e, x@)(old(self).groups@[j as int]@),
            ),
    {
        let ghost before = self.groups@;
        match e {
            Edit::AddChild => self.groups[j].add_child(x.clone()),
            Edit::DropChild => self.groups[j].remove_child(x),
            Edit::AddParent => self.groups[j].add_parent(x.clone()),
            Edit::DropParent => self.groups[j].remove_parent(x),
            Edit::DropMember => self.groups[j].remove_member(x),
        }
        proof {
            assert(self.groups@ == before.update(j as int, self.groups@[j as int]));
            assert(self.groups@[j as int]@ == edit_fn(e, x@)(before[j as int]@));
            lemma_keyed_update(before, group_key(), group_value(), j as int, self.groups@[j as int]);
        }
    }

    /// Applies `e` (with `x`) to every existing group of `names`.
    fn edit_groups(&mut self, names: &Vec<String>, e: Edit, x: &String)
        requires
            old(self).inv(),
        ensures
            final(self).inv(),
            final(self)@.users == old(self)@.users,
            final(self)@.groups == edit_where(old(self)@.groups, string_set(names@), edit_fn(e, x@)),
    {
        let ghost s0 = self@;
        let ghost f = edit_fn(e, x@);
        proof {
            lemma_string_set_take_none(names@);
            assert(self@.groups =~= edit_where(s0.groups, string_set(names@.take(0)), f));
        }
        let mut i: usize = 0;
        while i < names.len()
            invariant
                self.inv(),
                i <= names@.len(),
                f == edit_fn(e, x@),
                self@.users == s0.users,
                self@.groups == edit_where(s0.groups, string_set(names@.take(i as int)), f),
            decreases names@.len() - i,
        {
            proof {
                lemma_string_set_take_step(names@, i as int);
            }
            let ghost n = names@[i as int]@;
            match self.find_group(&names[i]) {
                Some(j) => {
                    self.edit_group_at(j, e, x);
                    proof {
                        lemma_edit_idempotent(e, x@, s0.groups[n]);
                        assert(self@.groups =~= edit_where(s0.groups, string_set(names@.take(i + 1)), f));
                    }
                },
                None => {
                    proof {
                        assert(self@.groups =~= edit_where(s0.groups, string_set(names@.take(i + 1)), f));
                    }
                },
            }
            i = i + 1;
        }
        proof {
            lemma_string_set_take_all(names@);
        }
    }

    /// Takes the group `g` out of the groups of every existing user of `names`.
    fn drop_group_from_users(&mut self, names: &Vec<String>, g: &String)
        requires
            old(self).inv(),
        ensures
            final(self).inv(),
            final(self)@.groups == old(self)@.groups,
            final(self)@.users == edit_where(old(self)@.users, string_set(names@), drop_group_from(g@)),
    {
        let ghost s0 = self@;
        let ghost f = drop_group_from(g@);
        proof {
            lemma_string_set_take_none(names@);
            assert(self@.users =~= edit_where(s0.users, string_set(names@.take(0)), f));
        }
        let mut i: usize = 0;
        while i < names.len()
            invariant
                self.inv(),
                i <= names@.len(),
                f == drop_group_from(g@),
                self@.groups == s0.groups,
                self@.users == edit_where(s0.users, string_set(names@.take(i as int)), f),
            decreases names@.len() - i,
        {
            proof {
                lemma_string_set_take_step(names@, i as int);
            }
            let ghost n = names@[i as int]@;
            match self.find_user(&names[i]) {
                Some(j) => {
                    let ghost before = self.users@;
                    self.users[j].remove_group(g);
                    proof {
                        assert(self.users@ == before.update(j as int, self.users@[j as int]));
                        assert(self.users@[j as int]@ == f(before[j as int]@));
                        lemma_keyed_update(before, user_key(), user_value(), j as int, self.users@[j as int]);
                        lemma_drop_group_idempotent(g@, s0.users[n]);
                        assert(self@.users =~= edit_where(s0.users, string_set(names@.take(i + 1)), f));
                    }
                },
                None => {
                    proof {
                        assert(self@.users =~= edit_where(s0.users, string_set(names@.take(i + 1)), f));
                    }
                },
            }
            i = i + 1;
        }
        proof {
            lemma_string_set_take_all(names@);
        }
    }

    /// Removes the user `u` and takes it out of its groups; whether it existed.
    fn user_remove(&mut self, u: &String) -> (r: bool)
        requires
            old(self).inv(),
        ensures
            final(self).inv(),
            (final(self)@, r) == apply_spec(old(self)@, RustpermsOperation::UserRemove(*u)),
    {
        match self.find_user(u) {
            None => false,
            Some(i) => {
                let ghost before = self.users@;
                let ghost s0 = self@;
                proof {
                    lemma_keyed_remove(before, user_key(), user_value(), i as int);
                }
                let user = self.users.remove(i);
                proof {
                    assert forall|j: int| 0 <= j < self.users@.len() implies (#[trigger] self.users@[j]).inv() by {
                        assert(self.users@[j] == before[if j < i { j } else { j + 1 }]);
                    }
                    assert(self@.users == s0.users.remove(u@));
                    assert(user.inv());
                }
                self.edit_groups(user.get_groups(), Edit::DropMember, u);
                true
            },
        }
    }

    /// Removes the group `g` and every link to it; whether it existed.
    fn group_remove(&mut self, g: &String) -> (r: bool)
        requires
            old(self).inv(),
        ensures
            final(self).inv(),
            (final(self)@, r) == apply_spec(old(self)@, RustpermsOperation::GroupRemove(*g)),
    {
        match self.find_group(g) {
            None => false,
            Some(i) => {
                let ghost before = self.groups@;
                let ghost s0 = self@;
                proof {
                    lemma_keyed_remove(before, group_key(), group_value(), i as int);
                }
                let group = self.groups.remove(i);
                proof {
                    assert forall|j: int| 0 <= j < self.groups@.len() implies (#[trigger] self.groups@[j]).inv() by {
                        assert(self.groups@[j] == before[if j < i { j } else { j + 1 }]);
                    }
                    assert(self@.groups == s0.groups.remove(g@));
                    assert(group.inv());
                }
                self.drop_group_from_users(group.get_members(), g);
                self.edit_groups(group.get_children(), Edit::DropParent, g);
                self.edit_groups(group.get_parents(), Edit::DropChild, g);
                true
            },
        }
    }

    /// Removes the rule paths `p` of the user `u`, if it exists; whether it does.
    fn user_remove_perms(&mut self, u: &String, p: Vec<PermissionPath>) -> (r: bool)
        requires
            old(self).inv(),
        ensures
            final(self).inv(),
            (final(self)@, r) == apply_spec(old(self)@, RustpermsOperation::UserRemovePerms(*u, p)),
    {
        match self.find_user(u) {
            None => false,
            Some(i) => {
                let ghost before = self.users@;
                self.users[i].remove_perms(p);
                proof {
                    lemma_keyed_update(before, user_key(), user_value(), i as int, self.users@[i as int]);
                    assert(self.users@ == before.update(i as int, self.users@[i as int]));
                }
                true
            },
        }
    }

    /// Sets the weight of the group `g`, if it exists; whether it does.
    fn group_update(&mut self, g: &String, w: i32) -> (r: bool)
        requires
            old(self).inv(),
        ensures
            final(self).inv(),
            (final(self)@, r) == apply_spec(old(self)@, RustpermsOperation::GroupUpdate { group_uid: *g, weight: w }),
    {
        match self.find_group(g) {
            None => false,
            Some(i) => {
                let ghost before = self.groups@;
                self.groups[i].set_weight(w);
                proof {
                    lemma_keyed_update(before, group_key(), group_value(), i as int, self.groups@[i as int]);
                    assert(self.groups@ == before.update(i as int, self.groups@[i as int]));
                }
                true
            },
        }
    }

    /// Sets the rules `p` of the group `g`, if it exists; whether it does.
    fn group_update_perms(&mut self, g: &String, p: Vec<PermissionRule>) -> (r: bool)
        requires
            old(self).inv(),
        ensures
            final(self).inv(),
            (final(self)@, r) == apply_spec(old(self)@, RustpermsOperation::GroupUpdatePerms(*g, p)),
    {
        match self.find_group(g) {
            None => false,
            Some(i) => {
                let ghost before = self.groups@;
                self.groups[i].set_perms(p);
                proof {
                    lemma_keyed_update(before, group_key(), group_value(), i as int, self.groups@[i as int]);
                    assert(self.groups@ == before.update(i as int, self.groups@[i as int]));
                }
                true
            },
        }
    }

    /// Removes the rule paths `p` of the group `g`, if it exists; whether it does.
    fn group_remove_perms(&mut self, g: &String, p: Vec<PermissionPath>) -> (r: bool)
        requires
            old(self).inv(),
        ensures
            final(self).inv(),
            (final(self)@, r) == apply_spec(old(self)@, RustpermsOperation::GroupRemovePerms(*g, p)),
    {
        match self.find_group(g) {
            None => false,
            Some(i) => {
                let ghost before = self.groups@;
                self.groups[i].remove_perms(p);
                proof {
                    lemma_keyed_update(before, group_key(), group_value(), i as int, self.groups@[i as int]);
                    assert(self.groups@ == before.update(i as int, self.groups@[i as int]));
                }
                true
            },
        }
    }

    /// Links the group `g` with each group of `gs` as `kind` says; whether `g` exists.
    fn link_groups(&mut self, g: &String, gs: Vec<String>, kind: LinkKind) -> (r: bool)
        requires
            old(self).inv(),
        ensures
            final(self).inv(),
            (final(self)@, r) == linked(old(self)@, g@, string_set(gs@), link_each(kind, g@), link_own(kind, string_set(gs@))),
    {
        let e = match kind {
            LinkKind::Inherit => Edit::AddChild,
            LinkKind::Dependent => Edit::AddParent,
            LinkKind::Uninherit => Edit::DropChild,
            LinkKind::Undependent => Edit::DropParent,
        };
        proof {
            assert(edit_fn(e, g@) == link_each(kind, g@));
        }
        self.edit_groups(&gs, e, g);
        match self.find_group(g) {
            None => false,
            Some(i) => {
                let ghost before = self.groups@;
                match kind {
                    LinkKind::Inherit => self.groups[i].add_parents(gs),
                    LinkKind::Dependent => self.groups[i].add_children(gs),
                    LinkKind::Uninherit => self.groups[i].remove_parents(gs),
                    LinkKind::Undependent => self.groups[i].remove_children(&gs),
                }
                proof {
                    assert(self.groups@ == before.update(i as int, self.groups@[i as int]));
                    assert(self.groups@[i as int]@ == link_own(kind, string_set(gs@))(before[i as int]@));
                    lemma_keyed_update(before, group_key(), group_value(), i as int, self.groups@[i as int]);
                }
                true
            },
        }
    }

    /// Makes each existing user of `us` a member of the group `g`, if it exists;
    /// whether it does.
    fn group_add_users(&mut self, g: &String, us: Vec<String>) -> (r: bool)
        requires
            old(self).inv(),
        ensures
            final(self).inv(),
            (final(self)@, r) == apply_spec(old(self)@, RustpermsOperation::GroupAddUsers(*g, us)),
    {
        match self.find_group(g) {
            None => false,
            Some(gi) => {
                let ghost s0 = self@;
                let ghost f = add_group_to(g@);
                proof {
                    lemma_string_set_take_none(us@);
                    assert(self@.users =~= edit_where(s0.users, string_set(us@.take(0)), f));
                    assert(s0.groups[g@].members.union(string_set(us@.take(0)).intersect(s0.users.dom()))
                        =~= s0.groups[g@].members);
                    assert(self@.groups =~= s0.groups.insert(g@, GroupView {
                        members: s0.groups[g@].members.union(string_set(us@.take(0)).intersect(s0.users.dom())),
                        ..s0.groups[g@]
                    }));
                }
                let mut k: usize = 0;
                while k < us.len()
                    invariant
                        self.inv(),
                        k <= us@.len(),
                        gi < self.groups@.len(),
                        self.groups@[gi as int].uid() == g@,
                        s0.groups.contains_key(g@),
                        f == add_group_to(g@),
                        self@.users == edit_where(s0.users, string_set(us@.take(k as int)), f),
                        self@.groups == s0.groups.insert(g@, GroupView {
                            members: s0.groups[g@].members.union(string_set(us@.take(k as int)).intersect(s0.users.dom())),
                            ..s0.groups[g@]
                        }),
                    decreases us@.len() - k,
                {
                    proof {
                        lemma_string_set_take_step(us@, k as int);
                    }
                    let ghost n = us@[k as int]@;
                    let ghost members0 = s0.groups[g@].members;
                    match self.find_user(&us[k]) {
                        None => {
                            proof {
                                assert(self@.users =~= edit_where(s0.users, string_set(us@.take(k + 1)), f));
                                assert(members0.union(string_set(us@.take(k + 1)).intersect(s0.users.dom()))
                                    =~= members0.union(string_set(us@.take(k as int)).intersect(s0.users.dom())));
                            }
                        },
                        Some(ui) => {
                            let ghost gbefore = self.groups@;
                            self.groups[gi].add_member(us[k].clone());
                            proof {
                                assert(self.groups@ == gbefore.update(gi as int, self.groups@[gi as int]));
                                lemma_keyed_lookup(gbefore, group_key(), group_value(), gi as int);
                                lemma_keyed_update(gbefore, group_key(), group_value(), gi as int, self.groups@[gi as int]);
                            }
                            let ghost ubefore = self.users@;
                            self.users[ui].add_group(g.clone());
                            proof {
                                assert(self.users@ == ubefore.update(ui as int, self.users@[ui as int]));
                                assert(self.users@[ui as int]@ == f(ubefore[ui as int]@));
                                lemma_keyed_update(ubefore, user_key(), user_value(), ui as int, self.users@[ui as int]);
                                lemma_add_group_idempotent(g@, s0.users[n]);
                                assert(self@.users =~= edit_where(s0.users, string_set(us@.take(k + 1)), f));
                                assert(members0.union(string_set(us@.take(k + 1)).intersect(s0.users.dom()))
                                    =~= members0.union(string_set(us@.take(k as int)).intersect(s0.users.dom())).insert(n));
                                assert(self@.groups =~= s0.groups.insert(g@, GroupView {
                                    members: members0.union(string_set(us@.take(k + 1)).intersect(s0.users.dom())),
                                    ..s0.groups[g@]
                                }));
                            }
                        },
                    }
                    k = k + 1;
                }
                proof {
                    lemma_string_set_take_all(us@);
                }
                true
            },
        }
    }

    /// Takes each user of `us` out of the group `g`, on both sides; whether
    /// the group exists.
    fn group_remove_users(&mut self, g: &String, us: Vec<String>) -> (r: bool)
        requires
            old(self).inv(),
        ensures
            final(self).inv(),
            (final(self)@, r) == apply_spec(old(self)@, RustpermsOperation::GroupRemoveUsers(*g, us)),
    {
        self.drop_group_from_users(&us, g);
        match self.find_group(g) {
            None => false,
            Some(i) => {
                let ghost before = self.groups@;
                self.groups[i].remove_members(us);
                proof {
                    assert(self.groups@ == before.update(i as int, self.groups@[i as int]));
                    lemma_keyed_update(before, group_key(), group_value(), i as int, self.groups@[i as int]);
                }
                true
            },
        }
    }

    /// Sets the rules `p` of the user `u`, if it exists; whether it does.
    fn user_update_perms(&mut self, u: &String, p: Vec<PermissionRule>) -> (r: bool)
        requires
            old(self).inv(),
        ensures
            final(self).inv(),
            r == old(self)@.users.contains_key(u@),
            final(self)@ == (if r {
                with_user(old(self)@, u@, UserView {
                    groups: old(self)@.users[u@].groups,
                    rules: set_all(old(self)@.users[u@].rules, rules_view(p@)),
                })
            } else {
                old(self)@
            }),
    {
        match self.find_user(u) {
            None => false,
            Some(i) => {
                let ghost before = self.users@;
                self.users[i].set_perms(p);
                proof {
                    lemma_keyed_update(before, user_key(), user_value(), i as int, self.users@[i as int]);
                    assert(self.users@ == before.update(i as int, self.users@[i as int]));
                }
                true
            },
        }
    }
    /// Whether `other` holds the same users and groups.
    pub fn eq(&self, other: &Self) -> (r: bool)
        requires
            self.inv(),
            other.inv(),
        ensures
            r == (self@ == other@),
    {
        let mut i: usize = 0;
        while i < self.users.len()
            invariant
                self.inv(),
                other.inv(),
                i <= self.users@.len(),
                forall|j: int| 0 <= j < i ==> other@.users.contains_key((#[trigger] self.users@[j]).uid())
                    && other@.users[self.users@[j].uid()] == self.users@[j]@,
            decreases self.users@.len() - i,
        {
            proof {
                lemma_keyed_lookup(self.users@, user_key(), user_value(), i as int);
            }
            match other.get_user(self.users[i].get_user_uid()) {
                None => {
                    return false;
                },
                Some(u) => {
                    if !self.users[i].same_as(u) {
                        return false;
                    }
                },
            }
            i = i + 1;
        }
        let mut i: usize = 0;
        while i < other.users.len()
            invariant
                self.inv(),
                other.inv(),
                i <= other.users@.len(),
                forall|j: int| 0 <= j < i ==> self@.users.contains_key((#[trigger] other.users@[j]).uid()),
            decreases other.users@.len() - i,
        {
            proof {
                lemma_keyed_lookup(other.users@, user_key(), user_value(), i as int);
            }
            if self.get_user(other.users[i].get_user_uid()).is_none() {
                return false;
            }
            i = i + 1;
        }
        let mut i: usize = 0;
        while i < self.groups.len()
            invariant
                self.inv(),
                other.inv(),
                i <= self.groups@.len(),
                forall|j: int| 0 <= j < i ==> other@.groups.contains_key((#[trigger] self.groups@[j]).uid())
                    && other@.groups[self.groups@[j].uid()] == self.groups@[j]@,
            decreases self.groups@.len() - i,
        {
            proof {
                lemma_keyed_lookup(self.groups@, group_key(), group_value(), i as int);
            }
            match other.get_group(self.groups[i].get_group_uid()) {
                None => {
                    return false;
                },
                Some(g) => {
                    if !self.groups[i].same_as(g) {
                        return false;
                    }
                },
            }
            i = i + 1;
        }
        let mut i: usize = 0;
        while i < other.groups.len()
            invariant
                self.inv(),
                other.inv(),
                i <= other.groups@.len(),
                forall|j: int| 0 <= j < i ==> self@.groups.contains_key((#[trigger] other.groups@[j]).uid()),
            decreases other.groups@.len() - i,
        {
            proof {
                lemma_keyed_lookup(other.groups@, group_key(), group_value(), i as int);
            }
            if self.get_group(other.groups[i].get_group_uid()).is_none() {
                return false;
            }
            i = i + 1;
        }
        proof {
            assert forall|k: Seq<char>| #[trigger] self@.users.contains_key(k) == other@.users.contains_key(k) by {
                if self@.users.contains_key(k) {
                    let j = choose|j: int| 0 <= j < self.users@.len() && user_key()(#[trigger] self.users@[j]) == k;
                    assert(other@.users.contains_key(self.users@[j].uid()));
                }
                if other@.users.contains_key(k) {
                    let j = choose|j: int| 0 <= j < other.users@.len() && user_key()(#[trigger] other.users@[j]) == k;
                    assert(self@.users.contains_key(other.users@[j].uid()));
                }
            }
            assert forall|k: Seq<char>| #[trigger] self@.users.contains_key(k) implies self@.users[k] == other@.users[k] by {
                let j = choose|j: int| 0 <= j < self.users@.len() && user_key()(#[trigger] self.users@[j]) == k;
                lemma_keyed_lookup(self.users@, user_key(), user_value(), j);
                assert(other@.users[self.users@[j].uid()] == self.users@[j]@);
            }
            assert(self@.users =~= other@.users);
            assert forall|k: Seq<char>| #[trigger] self@.groups.contains_key(k) == other@.groups.contains_key(k) by {
                if self@.groups.contains_key(k) {
                    let j = choose|j: int| 0 <= j < self.groups@.len() && group_key()(#[trigger] self.groups@[j]) == k;
                    assert(other@.groups.contains_key(self.groups@[j].uid()));
                }
                if other@.groups.contains_key(k) {
                    let j = choose|j: int| 0 <= j < other.groups@.len() && group_key()(#[trigger] other.groups@[j]) == k;
                    assert(self@.groups.contains_key(other.groups@[j].uid()));
                }
            }
            assert forall|k: Seq<char>| #[trigger] self@.groups.contains_key(k) implies self@.groups[k] == other@.groups[k] by {
                let j = choose|j: int| 0 <= j < self.groups@.len() && group_key()(#[trigger] self.groups@[j]) == k;
                lemma_keyed_lookup(self.groups@, group_key(), group_value(), j);
                assert(other@.groups[self.groups@[j].uid()] == self.groups@[j]@);
            }
            assert(self@.groups =~= other@.groups);
        }
        true
    }

    /// Every user, each once.
    pub fn users(&self) -> (r: &Vec<User>)
        requires
            self.inv(),
        ensures
            keyed_map(r@, user_key(), user_value()) == self@.users,
            distinct_keys(r@, user_key()),
            forall|i: int| 0 <= i < r@.len() ==> (#[trigger] r@[i]).inv(),
    {
        &self.users
    }

    /// Every group, each once.
    pub fn groups(&self) -> (r: &Vec<Group>)
        requires
            self.inv(),
        ensures
            keyed_map(r@, group_key(), group_value()) == self@.groups,
            distinct_keys(r@, group_key()),
            forall|i: int| 0 <= i < r@.len() ==> (#[trigger] r@[i]).inv(),
    {
        &self.groups
    }

    /// Adds `user` as it is, unless a user with its identifier exists;
    /// whether it was added.
    pub fn insert_user(&mut self, user: User) -> (r: bool)
        requires
            old(self).inv(),
            user.inv(),
        ensures
            final(self).inv(),
            r == !old(self)@.users.contains_key(user.uid()),
            final(self)@ == (if r { with_user(old(self)@, user.uid(), user@) } else { old(self)@ }),
    {
        match self.find_user(user.get_user_uid()) {
            Some(_) => false,
            None => {
                proof {
                    lemma_keyed_push(self.users@, user_key(), user_value(), user);
                }
                self.users.push(user);
                true
            },
        }
    }

    /// Adds `group` as it is, unless a group with its name exists; whether
    /// it was added.
    pub fn insert_group(&mut self, group: Group) -> (r: bool)
        requires
            old(self).inv(),
            group.inv(),
        ensures
            final(self).inv(),
            r == !old(self)@.groups.contains_key(group.uid()),
            final(self)@ == (if r { with_group(old(self)@, group.uid(), group@) } else { old(self)@ }),
    {
        match self.find_group(group.get_group_uid()) {
            Some(_) => false,
            None => {
                proof {
                    lemma_keyed_push(self.groups@, group_key(), group_value(), group);
                }
                self.groups.push(group);
                true
            },
        }
    }

    /// The user `uid`, if it exists.
    pub fn get_user(&self, uid: &String) -> (r: Option<&User>)
        requires
            self.inv(),
        ensures
            match r {
                Some(u) => self@.users.contains_key(uid@) && u@ == self@.users[uid@] && u.uid() == uid@ && u.inv(),
                None => !self@.users.contains_key(uid@),
            },
    {
        match self.find_user(uid) {
            Some(i) => Some(&self.users[i]),
            None => None,
        }
    }

    /// The group `name`, if it exists.
    pub fn get_group(&self, name: &String) -> (r: Option<&Group>)
        requires
            self.inv(),
        ensures
            match r {
                Some(g) => self@.groups.contains_key(name@) && g@ == self@.groups[name@] && g.uid() == name@ && g.inv(),
                None => !self@.groups.contains_key(name@),
            },
    {
        match self.find_group(name) {
            Some(i) => Some(&self.groups[i]),
            None => None,
        }
    }

    /// Puts the group `name` on the queue, unless it does not exist or was
    /// seen before.
    fn enqueue(&self, name: &String, queue: &mut Vec<usize>, visited: &mut Vec<bool>)
        requires
            self.inv(),
            queue_ok(old(queue)@, old(visited)@, self.groups@.len() as int),
        ensures
            queue_ok(final(queue)@, final(visited)@, self.groups@.len() as int),
            old(queue)@.len() <= final(queue)@.len(),
            forall|i: int| 0 <= i < old(queue)@.len() ==> #[trigger] final(queue)@[i] == old(queue)@[i],
            forall|i: int|
                old(queue)@.len() <= i < final(queue)@.len() ==> (#[trigger] self.groups@[final(queue)@[i] as int]).uid() == name@,
            self@.groups.contains_key(name@) ==> queued(self.groups@, final(queue)@, final(queue)@.len() as int).contains(name@),
    {
        match self.find_group(name) {
            None => {},
            Some(j) => {
                if !visited[j] {
                    let ghost q0 = queue@;
                    visited.set(j, true);
                    queue.push(j);
                    proof {
                        let n = self.groups@.len() as int;
                        assert forall|jj: int| 0 <= jj < n implies (#[trigger] visited@[jj] <==> exists|i: int|
                            0 <= i < queue@.len() && queue@[i] == jj) by {
                            if jj != j as int && visited@[jj] {
                                let i = choose|i: int| 0 <= i < q0.len() && q0[i] == jj;
                                assert(queue@[i] == jj);
                            }
                            if exists|i: int| 0 <= i < queue@.len() && queue@[i] == jj {
                                let i = choose|i: int| 0 <= i < queue@.len() && queue@[i] == jj;
                                if i < q0.len() {
                                    assert(q0[i] == jj);
                                }
                            }
                            if jj == j as int {
                                assert(queue@[q0.len() as int] == jj);
                            }
                        }
                        assert forall|a: int, b: int| 0 <= a < b < queue@.len() implies queue@[a] != queue@[b] by {
                            if b == q0.len() {
                                assert(q0[a] == queue@[a]);
                                assert(!old(visited)@[j as int]);
                            }
                        }
                        assert(self.groups@[queue@[q0.len() as int] as int].uid() == name@);
                    }
                } else {
                    proof {
                        let i = choose|i: int| 0 <= i < queue@.len() && queue@[i] == j as int;
                        assert(self.groups@[queue@[i] as int].uid() == name@);
                    }
                }
            },
        }
    }

    /// The rule that decides `permission` for the user `user_uid`, and how it
    /// matched; none if the user does not exist or nothing decides.
    ///
    /// The competitors are the user's own rule, at `RUSTPERMS_USER_WEIGHT`, and
    /// the rules of every group reached from the user's groups by going to
    /// parents; the empty identifier stands for an anonymous request, with no
    /// own rule and the group `guest` to start from. The heaviest competitor
    /// wins; among those of equal weight the most specific match (exact, then
    /// `?`, then `*`); among those equal in both, a denial wins.
    #[verifier::loop_isolation(false)]
    pub fn check_perm(&self, user_uid: &String, permission: &PermissionPath) -> (r: Option<(bool, MatchType)>)
        requires
            self.inv(),
        ensures
            user_uid@.len() != 0 && !self@.users.contains_key(user_uid@) ==> r is None,
            user_uid@.len() == 0 || self@.users.contains_key(user_uid@) ==> decides(
                competitors(self@, user_uid@, permission@),
                r,
            ),
    {
        let ghost gs = self.groups@;
        let ghost gmap = self@.groups;
        let ghost path = permission@;
        let n = self.groups.len();
        let mut visited: Vec<bool> = Vec::new();
        let mut k: usize = 0;
        while k < n
            invariant
                k <= n,
                visited@.len() == k,
                forall|j: int| 0 <= j < k ==> !(#[trigger] visited@[j]),
            decreases n - k,
        {
            visited.push(false);
            k = k + 1;
        }
        let mut queue: Vec<usize> = Vec::new();
        let mut rule: Option<(bool, MatchType)>;
        let mut weight: i32;
        let ghost start = start_groups(self@, user_uid@);
        let ghost own: Set<(bool, MatchType, int)>;
        if user_uid.as_str().is_empty() {
            rule = None;
            weight = 0;
            proof {
                own = Set::empty();
            }
            let guest = String::from_str(GUEST_GROUP);
            proof {
                reveal_strlit("guest");
                assert(guest@ == guest_name());
            }
            self.enqueue(&guest, &mut queue, &mut visited);
            proof {
                assert forall|sn: Seq<char>| #[trigger] start.contains(sn) && gmap.contains_key(sn) implies
                    queued(gs, queue@, queue@.len() as int).contains(sn) by {
                    assert(sn == guest_name());
                }
            }
        } else {
            let ui = match self.find_user(user_uid) {
                None => {
                    return None;
                },
                Some(i) => i,
            };
            rule = self.users[ui].get_perm(permission);
            weight = RUSTPERMS_USER_WEIGHT;
            proof {
                own = competitor(resolve(self@.users[user_uid@].rules, path), RUSTPERMS_USER_WEIGHT as int);
            }
            let names = self.users[ui].get_groups();
            let mut k: usize = 0;
            while k < names.len()
                invariant
                    k <= names@.len(),
                    queue_ok(queue@, visited@, n as int),
                    forall|i: int| 0 <= i < queue@.len() ==> start.contains(#[trigger] gs[queue@[i] as int].uid()),
                    forall|kk: int|
                        0 <= kk < k && #[trigger] gmap.contains_key(names@[kk]@) ==> queued(gs, queue@, queue@.len() as int).contains(
                            names@[kk]@,
                        ),
                decreases names@.len() - k,
            {
                let ghost q0 = queue@;
                self.enqueue(&names[k], &mut queue, &mut visited);
                proof {
                    lemma_queued_prefix(gs, q0, queue@, q0.len() as int);
                    lemma_queued_grows(gs, queue@, q0.len() as int, queue@.len() as int);
                    assert(start.contains(names@[k as int]@));
                }
                k = k + 1;
            }
            proof {
                assert forall|sn: Seq<char>| #[trigger] start.contains(sn) && gmap.contains_key(sn) implies
                    queued(gs, queue@, queue@.len() as int).contains(sn) by {
                    let kk = choose|kk: int| 0 <= kk < names@.len() && (#[trigger] names@[kk])@ == sn;
                    assert(gmap.contains_key(names@[kk]@));
                }
            }
        }
        proof {
            assert forall|i: int| 0 <= i < queue@.len() implies reachable(gmap, start).contains(
                #[trigger] gs[queue@[i] as int].uid(),
            ) by {
                assert(reach(gmap, start, 0).contains(gs[queue@[i] as int].uid()));
            }
            assert(queued(gs, queue@, 0) =~= Set::<Seq<char>>::empty());
            assert(group_competitors(gmap, Set::<Seq<char>>::empty(), path) =~= Set::<(bool, MatchType, int)>::empty());
            assert(own.union(group_competitors(gmap, queued(gs, queue@, 0), path)) =~= own);
            if let Some((v, t)) = rule {
                assert(own =~= set![(v, t, weight as int)]);
            }
        }
        let mut head: usize = 0;
        while head < queue.len()
            invariant
                head <= queue@.len(),
                queue_ok(queue@, visited@, n as int),
                forall|i: int| 0 <= i < queue@.len() ==> reachable(gmap, start).contains(#[trigger] gs[queue@[i] as int].uid()),
                forall|sn: Seq<char>| #[trigger] start.contains(sn) && gmap.contains_key(sn) ==> queued(gs, queue@, queue@.len() as int).contains(sn),
                forall|q: Seq<char>, x: Seq<char>|
                    #[trigger] queued(gs, queue@, head as int).contains(q) && gmap.contains_key(q) && #[trigger] gmap[q].parents.contains(x)
                        && gmap.contains_key(x) ==> queued(gs, queue@, queue@.len() as int).contains(x),
                holds(own.union(group_competitors(gmap, queued(gs, queue@, head as int), path)), rule, weight as int),
            decreases n - head,
        {
            proof {
                lemma_distinct_below(queue@, n as int);
            }
            let gi = queue[head];
            let ghost name = gs[gi as int].uid();
            proof {
                lemma_keyed_lookup(gs, group_key(), group_value(), gi as int);
                lemma_queued_step(gs, queue@, head as int);
                lemma_competitors_step(gmap, queued(gs, queue@, head as int), name, path);
            }
            let found = self.groups[gi].get_perm(permission);
            let gw = self.groups[gi].get_weight();
            let ghost before = own.union(group_competitors(gmap, queued(gs, queue@, head as int), path));
            let (r2, w2) = combine(rule, weight, found, gw, Ghost(before));
            rule = r2;
            weight = w2;
            proof {
                assert(own.union(group_competitors(gmap, queued(gs, queue@, head + 1), path)) =~= before.union(
                    competitor(found, gw as int),
                ));
            }
            let parents = self.groups[gi].get_parents();
            let ghost q1 = queue@;
            let mut k: usize = 0;
            while k < parents.len()
                invariant
                    k <= parents@.len(),
                    head < q1.len(),
                    queue_ok(queue@, visited@, n as int),
                    q1.len() <= queue@.len(),
                    forall|i: int| 0 <= i < q1.len() ==> #[trigger] queue@[i] == q1[i],
                    forall|i: int| q1.len() <= i < queue@.len() ==> gmap[name].parents.contains(#[trigger] gs[queue@[i] as int].uid()),
                    forall|kk: int|
                        0 <= kk < k && #[trigger] gmap.contains_key(parents@[kk]@) ==> queued(gs, queue@, queue@.len() as int).contains(
                            parents@[kk]@,
                        ),
                decreases parents@.len() - k,
            {
                let ghost q0 = queue@;
                self.enqueue(&parents[k], &mut queue, &mut visited);
                proof {
                    lemma_queued_prefix(gs, q0, queue@, q0.len() as int);
                    lemma_queued_grows(gs, queue@, q0.len() as int, queue@.len() as int);
                    assert(gmap[name].parents.contains(parents@[k as int]@));
                }
                k = k + 1;
            }
            proof {
                lemma_queued_prefix(gs, q1, queue@, q1.len() as int);
                lemma_queued_prefix(gs, q1, queue@, head + 1);
                lemma_queued_grows(gs, queue@, q1.len() as int, queue@.len() as int);
                let m = choose|m: nat| #[trigger] reach(gmap, start, m).contains(name);
                assert forall|i: int| 0 <= i < queue@.len() implies reachable(gmap, start).contains(
                    #[trigger] gs[queue@[i] as int].uid(),
                ) by {
                    if i >= q1.len() {
                        let x = gs[queue@[i] as int].uid();
                        assert(reach(gmap, start, m + 1).contains(x));
                    } else {
                        assert(queue@[i] == q1[i]);
                    }
                }
                assert forall|q: Seq<char>, x: Seq<char>|
                    #[trigger] queued(gs, queue@, head + 1).contains(q) && gmap.contains_key(q) && #[trigger] gmap[q].parents.contains(x)
                        && gmap.contains_key(x) implies queued(gs, queue@, queue@.len() as int).contains(x) by {
                    if q == name {
                        let kk = choose|kk: int| 0 <= kk < parents@.len() && (#[trigger] parents@[kk])@ == x;
                        assert(gmap.contains_key(parents@[kk]@));
                    } else {
                        assert(queued(gs, q1, head as int).contains(q));
                    }
                }
            }
            head = head + 1;
        }
        proof {
            lemma_reach_within(gmap, start, queued(gs, queue@, queue@.len() as int), 0);
            assert forall|g: Seq<char>| gmap.contains_key(g) implies (reachable(gmap, start).contains(g) <==> queued(
                gs,
                queue@,
                queue@.len() as int,
            ).contains(g)) by {
                if reachable(gmap, start).contains(g) {
                    let m = choose|m: nat| #[trigger] reach(gmap, start, m).contains(g);
                    lemma_reach_within(gmap, start, queued(gs, queue@, queue@.len() as int), m);
                }
                if queued(gs, queue@, queue@.len() as int).contains(g) {
                    let i = choose|i: int| 0 <= i < queue@.len() && (#[trigger] gs[queue@[i] as int]).uid() == g;
                }
            }
            lemma_competitors_same(gmap, reachable(gmap, start), queued(gs, queue@, queue@.len() as int), path);
            if let Some((v, t)) = rule {
                assert(wins(competitors(self@, user_uid@, path), v, t, weight as int));
            }
        }
        rule
    }

    /// Applies `action`; whether it found the user or group it works on (see
    /// each variant of `RustpermsOperation` and `apply_spec`).
    pub fn apply_action(&mut self, action: RustpermsOperation) -> (r: bool)
        requires
            old(self).inv(),
        ensures
            final(self).inv(),
            (final(self)@, r) == apply_spec(old(self)@, action),
    {
        match action {
            RustpermsOperation::UserCreate(u) => self.user_create(u),
            RustpermsOperation::UserRemove(u) => self.user_remove(&u),
            RustpermsOperation::UserUpdatePerms(u, p) => self.user_update_perms(&u, p),
            RustpermsOperation::UserRemovePerms(u, p) => self.user_remove_perms(&u, p),
            RustpermsOperation::GroupCreate { group_uid, weight } => self.group_create(group_uid, weight),
            RustpermsOperation::GroupUpdate { group_uid, weight } => self.group_update(&group_uid, weight),
            RustpermsOperation::GroupRemove(g) => self.group_remove(&g),
            RustpermsOperation::GroupUpdatePerms(g, p) => self.group_update_perms(&g, p),
            RustpermsOperation::GroupRemovePerms(g, p) => self.group_remove_perms(&g, p),
            RustpermsOperation::GroupAddGroupsToInherit(g, gs) => self.link_groups(&g, gs, LinkKind::Inherit),
            RustpermsOperation::GroupAddDependentGroups(g, gs) => self.link_groups(&g, gs, LinkKind::Dependent),
            RustpermsOperation::GroupRemoveToInherit(g, gs) => self.link_groups(&g, gs, LinkKind::Uninherit),
            RustpermsOperation::GroupRemoveDependentGroups(g, gs) => self.link_groups(&g, gs, LinkKind::Undependent),
            RustpermsOperation::GroupAddUsers(g, us) => self.group_add_users(&g, us),
            RustpermsOperation::GroupRemoveUsers(g, us) => self.group_remove_users(&g, us),
        }
    }

    /// Applies every operation of `actions`, in order.
    pub fn apply(&mut self, actions: RustpermsDelta)
        requires
            old(self).inv(),
        ensures
            final(self).inv(),
            final(self)@ == apply_all(old(self)@, actions@),
    {
        let ops = actions.into_ops();
        let ghost s0 = self@;
        let ghost all = ops@;
        for action in it: ops.into_iter()
            invariant
                self.inv(),
                it.seq() == all,
                self@ == apply_all(s0, all.take(it.index())),
        {
            proof {
                assert(all.take(it.index() + 1).drop_last() == all.take(it.index()));
            }
            self.apply_action(action);
        }
        proof {
            assert(all.take(all.len() as int) == all);
        }
    }
    /// A manager built by applying every operation of `actions`, in order,
    /// to an empty one.
    pub fn from_delta(actions: RustpermsDelta) -> (m: Self)
        ensures
            m.inv(),
            m@ == apply_all(empty_manager(), actions@),
    {
        let mut m = AsyncManager::new();
        m.apply(actions);
        m
    }
}

impl Default for AsyncManager {
    /// A manager with no users and no groups.
    fn default() -> (m: Self)
        ensures
            m.inv(),
            m@ == empty_manager(),
    {
        AsyncManager::new()
    }
}

impl From<RustpermsDelta> for AsyncManager {
    /// See `from_delta`.
    fn from(actions: RustpermsDelta) -> (m: Self)
        ensures
            m.inv(),
            m@ == apply_all(empty_manager(), actions@),
    {
        AsyncManager::from_delta(actions)
    }
}

impl vstd::std_specs::convert::FromSpecImpl<RustpermsDelta> for AsyncManager {
    open spec fn obeys_from_spec() -> bool {
        false
    }

    open spec fn from_spec(v: RustpermsDelta) -> Self {
        arbitrary()
    }
}

} // verus!
