//! Users: an identifier, the groups the user belongs to, and the user's own rules.

use vstd::prelude::*;
use crate::path::PermissionPath;
use crate::permissions::{
    PermissionRuleNode, PermissionInterface, PermissionRule, MatchType, Rules, resolve, set_all,
    remove_rules, remove_all, rules_view, paths_view, set_rules, remove_paths,
};
use crate::strset::{string_set, distinct_strings, strings_contain, strings_insert, strings_remove, lemma_string_set_empty, same_strings};

verus! {

/// The identifier of a user.
pub type UserUID = String;

/// A user: its identifier, the groups it is a member of, and its own rules.
#[derive(Debug)]
pub struct User {
    user_uid: UserUID,
    groups: Vec<String>,
    permissions: PermissionRuleNode,
}

/// What a user is, apart from its identifier: its groups and its rules.
pub struct UserView {
    pub groups: Set<Seq<char>>,
    pub rules: Rules,
}

impl View for User {
    type V = UserView;

    open spec fn view(&self) -> UserView {
        UserView { groups: self.group_set(), rules: self.perms()@ }
    }
}

impl User {
    /// The user's identifier.
    pub closed spec fn uid(self) -> Seq<char> {
        self.user_uid@
    }

    /// The groups the user is a member of.
    pub closed spec fn group_set(self) -> Set<Seq<char>> {
        string_set(self.groups@)
    }

    /// A new user with no groups and no rules.
    pub fn new(user_uid: UserUID) -> (u: Self)
        ensures
            u.inv(),
            u.uid() == user_uid@,
            u.group_set() == Set::<Seq<char>>::empty(),
            u.perms()@ == Map::<Seq<Seq<char>>, bool>::empty(),
    {
        let u = User { user_uid, groups: Vec::new(), permissions: PermissionRuleNode::new() };
        proof {
            lemma_string_set_empty(u.groups@);
        }
        u
    }

    /// The user's identifier.
    pub fn get_user_uid(&self) -> (r: &UserUID)
        ensures
            r@ == self.uid(),
    {
        &self.user_uid
    }

    /// The user's rule tree.
    pub fn get_perms(&self) -> (r: &PermissionRuleNode)
        ensures
            *r == self.perms(),
    {
        &self.permissions
    }

    /// The groups the user is a member of, each once.
    pub fn get_groups(&self) -> (r: &Vec<String>)
        requires
            self.inv(),
        ensures
            string_set(r@) == self.group_set(),
            distinct_strings(r@),
    {
        &self.groups
    }

    /// Whether the user is a member of `group`.
    pub fn has_group(&self, group: &String) -> (r: bool)
        ensures
            r == self.group_set().contains(group@),
    {
        strings_contain(&self.groups, group)
    }

    /// Makes the user a member of `group`.
    pub fn add_group(&mut self, group: String)
        requires
            old(self).inv(),
        ensures
            final(self).inv(),
            final(self).uid() == old(self).uid(),
            final(self).perms() == old(self).perms(),
            final(self).group_set() == old(self).group_set().insert(group@),
    {
        strings_insert(&mut self.groups, group);
    }

    /// Takes the user out of `group`.
    pub fn remove_group(&mut self, group: &String)
        requires
            old(self).inv(),
        ensures
            final(self).inv(),
            final(self).uid() == old(self).uid(),
            final(self).perms() == old(self).perms(),
            final(self).group_set() == old(self).group_set().remove(group@),
    {
        strings_remove(&mut self.groups, group);
    }

    /// Whether `other` is the same user: the same identifier, groups and rules.
    pub fn same_as(&self, other: &User) -> (r: bool)
        requires
            self.inv(),
            other.inv(),
        ensures
            r == (self.uid() == other.uid() && self@ == other@),
    {
        self.user_uid == other.user_uid && same_strings(&self.groups, &other.groups)
            && self.permissions.same_rules(&other.permissions)
    }
}

impl PermissionInterface for User {
    closed spec fn perms(&self) -> PermissionRuleNode {
        self.permissions
    }

    closed spec fn inv(&self) -> bool {
        distinct_strings(self.groups@) && self.permissions.wf()
    }

    fn set_perm(&mut self, path: PermissionPath, enabled: bool)
        ensures
            final(self).uid() == old(self).uid(),
            final(self).group_set() == old(self).group_set(),
    {
        self.permissions.set(path, enabled)
    }

    fn set_perms(&mut self, perms: Vec<PermissionRule>)
        ensures
            final(self).uid() == old(self).uid(),
            final(self).group_set() == old(self).group_set(),
    {
        set_rules(&mut self.permissions, &perms)
    }

    fn remove_perm(&mut self, path: &PermissionPath)
        ensures
            final(self).uid() == old(self).uid(),
            final(self).group_set() == old(self).group_set(),
    {
        self.permissions.remove(path)
    }

    fn remove_perms(&mut self, perms: Vec<PermissionPath>)
        ensures
            final(self).uid() == old(self).uid(),
            final(self).group_set() == old(self).group_set(),
    {
        remove_paths(&mut self.permissions, &perms)
    }

    fn get_perm(&self, path: &PermissionPath) -> (r: Option<(bool, MatchType)>) {
        self.permissions.get_match(path)
    }

    fn get_perms(&self) -> (r: &PermissionRuleNode) {
        &self.permissions
    }

    fn get_records(&self) -> (r: Vec<PermissionPath>) {
        self.permissions.get_records()
    }

    fn merge(&mut self, other: Self)
        ensures
            final(self).uid() == old(self).uid(),
            final(self).group_set() == old(self).group_set(),
    {
        self.permissions.merge(other.permissions);
    }
}

} // verus!
