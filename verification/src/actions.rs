//! Operations on users and groups, and batches of them.

use vstd::prelude::*;
use crate::path::PermissionPath;
use crate::permissions::{PermissionRule, PermissionInterface, remove_rules};
use crate::users::UserUID;
use crate::groups::{Group, GroupUID};

verus! {

/// One change to the users and groups.
#[derive(Debug)]
pub enum RustpermsOperation {
    /// Creates a user with no groups and no rules, unless it exists.
    UserCreate(UserUID),
    /// Removes a user and takes it out of its groups.
    UserRemove(UserUID),
    /// Sets rules of a user, in order.
    UserUpdatePerms(UserUID, Vec<PermissionRule>),
    /// Removes rule paths of a user, in order.
    UserRemovePerms(UserUID, Vec<PermissionPath>),
    /// Creates a group with a weight, unless it exists.
    GroupCreate { group_uid: GroupUID, weight: i32 },
    /// Sets the weight of a group.
    GroupUpdate { group_uid: GroupUID, weight: i32 },
    /// Removes a group and every link to it.
    GroupRemove(GroupUID),
    /// Sets rules of a group, in order.
    GroupUpdatePerms(GroupUID, Vec<PermissionRule>),
    /// Removes rule paths of a group, in order.
    GroupRemovePerms(GroupUID, Vec<PermissionPath>),
    /// The group inherits from each of the listed groups (they become its parents).
    GroupAddGroupsToInherit(GroupUID, Vec<GroupUID>),
    /// Each of the listed groups inherits from the group (they become its children).
    GroupAddDependentGroups(GroupUID, Vec<GroupUID>),
    /// The group no longer inherits from the listed groups.
    GroupRemoveToInherit(GroupUID, Vec<GroupUID>),
    /// The listed groups no longer inherit from the group.
    GroupRemoveDependentGroups(GroupUID, Vec<GroupUID>),
    /// Makes the listed existing users members of the group.
    GroupAddUsers(GroupUID, Vec<UserUID>),
    /// Takes the listed users out of the group.
    GroupRemoveUsers(GroupUID, Vec<UserUID>),
}

/// A batch of operations, applied in order.
#[derive(Debug)]
pub struct RustpermsDelta {
    ops: Vec<RustpermsOperation>,
}

impl View for RustpermsDelta {
    type V = Seq<RustpermsOperation>;

    closed spec fn view(&self) -> Seq<RustpermsOperation> {
        self.ops@
    }
}

impl RustpermsDelta {
    /// An empty batch.
    pub fn new() -> (d: Self)
        ensures
            d@ == Seq::<RustpermsOperation>::empty(),
    {
        RustpermsDelta { ops: Vec::new() }
    }

    /// Appends one operation.
    pub fn push(&mut self, action: RustpermsOperation)
        ensures
            final(self)@ == old(self)@.push(action),
    {
        self.ops.push(action)
    }

    /// Appends operations, in order.
    pub fn push_many(&mut self, actions: Vec<RustpermsOperation>)
        ensures
            final(self)@ == old(self)@ + actions@,
    {
        let mut actions = actions;
        self.ops.append(&mut actions);
    }

    /// The operations, in order.
    pub fn into_ops(self) -> (v: Vec<RustpermsOperation>)
        ensures
            v@ == self@,
    {
        self.ops
    }
}

impl Default for RustpermsDelta {
    /// An empty batch.
    fn default() -> (d: Self)
        ensures
            d@ == Seq::<RustpermsOperation>::empty(),
    {
        RustpermsDelta::new()
    }
}

impl From<Vec<RustpermsOperation>> for RustpermsDelta {
    /// The batch of the given operations, in order.
    fn from(value: Vec<RustpermsOperation>) -> (d: Self) {
        RustpermsDelta { ops: value }
    }
}

impl vstd::std_specs::convert::FromSpecImpl<Vec<RustpermsOperation>> for RustpermsDelta {
    open spec fn obeys_from_spec() -> bool {
        true
    }

    closed spec fn from_spec(v: Vec<RustpermsOperation>) -> Self {
        RustpermsDelta { ops: v }
    }
}

/// Binds something to the implementer.
pub trait AddBind<T> {
    fn add_bind(&mut self, with: T);
}

/// Unbinds something from the implementer.
pub trait RemoveBind<T> {
    fn remove_bind(&mut self, with: T);
}

/// Sets something on the implementer.
pub trait SetValue<T> {
    /// The implementer is in a state where `set` may be called.
    spec fn can_set(&self) -> bool;

    fn set(&mut self, to_set: T)
        requires
            old(self).can_set(),
    ;
}

/// Removes something from the implementer.
pub trait Remove<T> {
    /// The implementer is in a state where `remove` may be called.
    spec fn can_remove(&self) -> bool;

    fn remove(&mut self, to_remove: T)
        requires
            old(self).can_remove(),
    ;
}

impl<H: PermissionInterface> SetValue<PermissionRule> for H {
    open spec fn can_set(&self) -> bool {
        self.inv()
    }

    /// Sets the rule: its path to its value.
    fn set(&mut self, to_set: PermissionRule)
        ensures
            final(self).inv(),
            final(self).perms()@ == old(self).perms()@.insert(to_set.0@, to_set.1),
    {
        let (path, enabled) = to_set;
        self.set_perm(path, enabled);
    }
}

impl SetValue<i32> for Group {
    open spec fn can_set(&self) -> bool {
        true
    }

    /// Sets the weight.
    fn set(&mut self, to_set: i32)
        ensures
            final(self).weight_of() == to_set,
            final(self).uid() == old(self).uid(),
            final(self).perms() == old(self).perms(),
            final(self).member_set() == old(self).member_set(),
            final(self).parent_set() == old(self).parent_set(),
            final(self).child_set() == old(self).child_set(),
            old(self).inv() ==> final(self).inv(),
    {
        self.set_weight(to_set);
    }
}

impl<'a, H: PermissionInterface> Remove<&'a PermissionPath> for H {
    open spec fn can_remove(&self) -> bool {
        self.inv()
    }

    /// Removes the rule node at the path (see `remove_rules`).
    fn remove(&mut self, to_remove: &'a PermissionPath)
        ensures
            final(self).inv(),
            final(self).perms()@ == remove_rules(old(self).perms()@, to_remove@),
    {
        self.remove_perm(to_remove);
    }
}

} // verus!
