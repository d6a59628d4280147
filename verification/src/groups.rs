//! Groups: weighted holders of rules, with members, and parent groups whose
//! rules they inherit.

use vstd::prelude::*;
use crate::path::PermissionPath;
use crate::permissions::{Rules, PermissionRuleNode, PermissionInterface, PermissionRule, MatchType, set_rules, remove_paths};
use crate::strset::{
    string_set, distinct_strings, strings_contain, strings_insert, strings_remove, strings_insert_all,
    strings_remove_all, lemma_string_set_empty, same_strings,
};

verus! {

/// The identifier of a group.
pub type GroupUID = String;

/// A group: its name, its members, its rules, the groups it inherits from
/// (parents), the groups that inherit from it (children), and its weight.
#[derive(Debug)]
pub struct Group {
    name: GroupUID,
    members: Vec<String>,
    permissions: PermissionRuleNode,
    parents: Vec<String>,
    children: Vec<String>,
    weight: i32,
}

/// What a group is, apart from its name.
pub struct GroupView {
    pub members: Set<Seq<char>>,
    pub parents: Set<Seq<char>>,
    pub children: Set<Seq<char>>,
    pub weight: i32,
    pub rules: Rules,
}

impl View for Group {
    type V = GroupView;

    open spec fn view(&self) -> GroupView {
        GroupView {
            members: self.member_set(),
            parents: self.parent_set(),
            children: self.child_set(),
            weight: self.weight_of(),
            rules: self.perms()@,
        }
    }
}

impl Group {
    /// The group's name.
    pub closed spec fn uid(self) -> Seq<char> {
        self.name@
    }

    /// The users that are members of the group.
    pub closed spec fn member_set(self) -> Set<Seq<char>> {
        string_set(self.members@)
    }

    /// The groups this group inherits from.
    pub closed spec fn parent_set(self) -> Set<Seq<char>> {
        string_set(self.parents@)
    }

    /// The groups that inherit from this group.
    pub closed spec fn child_set(self) -> Set<Seq<char>> {
        string_set(self.children@)
    }

    /// The group's weight.
    pub closed spec fn weight_of(self) -> i32 {
        self.weight
    }

    /// Everything about the group but its members is as in `other`.
    pub open spec fn same_but_members(self, other: Group) -> bool {
        &&& self.uid() == other.uid()
        &&& self.perms() == other.perms()
        &&& self.parent_set() == other.parent_set()
        &&& self.child_set() == other.child_set()
        &&& self.weight_of() == other.weight_of()
    }

    /// Everything about the group but its parents is as in `other`.
    pub open spec fn same_but_parents(self, other: Group) -> bool {
        &&& self.uid() == other.uid()
        &&& self.perms() == other.perms()
        &&& self.member_set() == other.member_set()
        &&& self.child_set() == other.child_set()
        &&& self.weight_of() == other.weight_of()
    }

    /// Everything about the group but its children is as in `other`.
    pub open spec fn same_but_children(self, other: Group) -> bool {
        &&& self.uid() == other.uid()
        &&& self.perms() == other.perms()
        &&& self.member_set() == other.member_set()
        &&& self.parent_set() == other.parent_set()
        &&& self.weight_of() == other.weight_of()
    }

    /// Everything about the group but its rules is as in `other`.
    pub open spec fn same_but_perms(self, other: Group) -> bool {
        &&& self.uid() == other.uid()
        &&& self.member_set() == other.member_set()
        &&& self.parent_set() == other.parent_set()
        &&& self.child_set() == other.child_set()
        &&& self.weight_of() == other.weight_of()
    }

    /// A new group with the given weight and no members, rules or relatives.
    pub fn new(name: GroupUID, weight: i32) -> (g: Self)
        ensures
            g.inv(),
            g.uid() == name@,
            g.weight_of() == weight,
            g.member_set() == Set::<Seq<char>>::empty(),
            g.parent_set() == Set::<Seq<char>>::empty(),
            g.child_set() == Set::<Seq<char>>::empty(),
            g.perms()@ == Map::<Seq<Seq<char>>, bool>::empty(),
    {
        let g = Group {
            name,
            members: Vec::new(),
            permissions: PermissionRuleNode::new(),
            parents: Vec::new(),
            children: Vec::new(),
            weight,
        };
        proof {
            lemma_string_set_empty(g.members@);
            lemma_string_set_empty(g.parents@);
            lemma_string_set_empty(g.children@);
        }
        g
    }

    /// The group's name.
    pub fn get_group_uid(&self) -> (r: &GroupUID)
        ensures
            r@ == self.uid(),
    {
        &self.name
    }

    /// The members, each once.
    pub fn get_members(&self) -> (r: &Vec<String>)
        requires
            self.inv(),
        ensures
            string_set(r@) == self.member_set(),
            distinct_strings(r@),
    {
        &self.members
    }

    /// Whether `member` is a member.
    pub fn has_member(&self, member: &String) -> (r: bool)
        ensures
            r == self.member_set().contains(member@),
    {
        strings_contain(&self.members, member)
    }

    /// Adds `member` to the members.
    pub fn add_member(&mut self, member: String)
        requires
            old(self).inv(),
        ensures
            final(self).inv(),
            final(self).same_but_members(*old(self)),
            final(self).member_set() == old(self).member_set().insert(member@),
    {
        strings_insert(&mut self.members, member);
    }

    /// Adds every user of `members` to the members.
    pub fn add_members(&mut self, members: Vec<String>)
        requires
            old(self).inv(),
        ensures
            final(self).inv(),
            final(self).same_but_members(*old(self)),
            final(self).member_set() == old(self).member_set().union(string_set(members@)),
    {
        strings_insert_all(&mut self.members, members);
    }

    /// Takes `member` out of the members.
    pub fn remove_member(&mut self, member: &String)
        requires
            old(self).inv(),
        ensures
            final(self).inv(),
            final(self).same_but_members(*old(self)),
            final(self).member_set() == old(self).member_set().remove(member@),
    {
        strings_remove(&mut self.members, member);
    }

    /// Takes every user of `members` out of the members.
    pub fn remove_members(&mut self, members: Vec<String>)
        requires
            old(self).inv(),
        ensures
            final(self).inv(),
            final(self).same_but_members(*old(self)),
            final(self).member_set() == old(self).member_set().difference(string_set(members@)),
    {
        strings_remove_all(&mut self.members, &members);
    }

    /// The parents, each once.
    pub fn get_parents(&self) -> (r: &Vec<String>)
        requires
            self.inv(),
        ensures
            string_set(r@) == self.parent_set(),
            distinct_strings(r@),
    {
        &self.parents
    }

    /// Whether `parent` is a parent.
    pub fn has_parent(&self, parent: &String) -> (r: bool)
        ensures
            r == self.parent_set().contains(parent@),
    {
        strings_contain(&self.parents, parent)
    }

    /// Adds `parent` to the parents.
    pub fn add_parent(&mut self, parent: String)
        requires
            old(self).inv(),
        ensures
            final(self).inv(),
            final(self).same_but_parents(*old(self)),
            final(self).parent_set() == old(self).parent_set().insert(parent@),
    {
        strings_insert(&mut self.parents, parent);
    }

    /// Adds every group of `parents` to the parents.
    pub fn add_parents(&mut self, parents: Vec<String>)
        requires
            old(self).inv(),
        ensures
            final(self).inv(),
            final(self).same_but_parents(*old(self)),
            final(self).parent_set() == old(self).parent_set().union(string_set(parents@)),
    {
        strings_insert_all(&mut self.parents, parents);
    }

    /// Takes `parent` out of the parents.
    pub fn remove_parent(&mut self, parent: &String)
        requires
            old(self).inv(),
        ensures
            final(self).inv(),
            final(self).same_but_parents(*old(self)),
            final(self).parent_set() == old(self).parent_set().remove(parent@),
    {
        strings_remove(&mut self.parents, parent);
    }

    /// Takes every group of `parents` out of the parents.
    pub fn remove_parents(&mut self, parents: Vec<String>)
        requires
            old(self).inv(),
        ensures
            final(self).inv(),
            final(self).same_but_parents(*old(self)),
            final(self).parent_set() == old(self).parent_set().difference(string_set(parents@)),
    {
        strings_remove_all(&mut self.parents, &parents);
    }

    /// The children, each once.
    pub fn get_children(&self) -> (r: &Vec<String>)
        requires
            self.inv(),
        ensures
            string_set(r@) == self.child_set(),
            distinct_strings(r@),
    {
        &self.children
    }

    /// Whether `group` is a child.
    pub fn has_child(&self, group: &String) -> (r: bool)
        ensures
            r == self.child_set().contains(group@),
    {
        strings_contain(&self.children, group)
    }

    /// Adds `group` to the children.
    pub fn add_child(&mut self, group: String)
        requires
            old(self).inv(),
        ensures
            final(self).inv(),
            final(self).same_but_children(*old(self)),
            final(self).child_set() == old(self).child_set().insert(group@),
    {
        strings_insert(&mut self.children, group);
    }

    /// Adds every group of `groups` to the children.
    pub fn add_children(&mut self, groups: Vec<String>)
        requires
            old(self).inv(),
        ensures
            final(self).inv(),
            final(self).same_but_children(*old(self)),
            final(self).child_set() == old(self).child_set().union(string_set(groups@)),
    {
        strings_insert_all(&mut self.children, groups);
    }

    /// Takes `group` out of the children.
    pub fn remove_child(&mut self, group: &String)
        requires
            old(self).inv(),
        ensures
            final(self).inv(),
            final(self).same_but_children(*old(self)),
            final(self).child_set() == old(self).child_set().remove(group@),
    {
        strings_remove(&mut self.children, group);
    }

    /// Takes every group of `groups` out of the children.
    pub fn remove_children(&mut self, groups: &Vec<String>)
        requires
            old(self).inv(),
        ensures
            final(self).inv(),
            final(self).same_but_children(*old(self)),
            final(self).child_set() == old(self).child_set().difference(string_set(groups@)),
    {
        strings_remove_all(&mut self.children, groups);
    }

    /// The same group with weight `weight`.
    pub fn with_weight(self, weight: i32) -> (g: Self)
        ensures
            g.weight_of() == weight,
            g.uid() == self.uid(),
            g.perms() == self.perms(),
            g.member_set() == self.member_set(),
            g.parent_set() == self.parent_set(),
            g.child_set() == self.child_set(),
            self.inv() ==> g.inv(),
    {
        Group { weight, ..self }
    }

    /// Sets the weight to `weight`.
    pub fn set_weight(&mut self, weight: i32)
        ensures
            final(self).weight_of() == weight,
            final(self).uid() == old(self).uid(),
            final(self).perms() == old(self).perms(),
            final(self).member_set() == old(self).member_set(),
            final(self).parent_set() == old(self).parent_set(),
            final(self).child_set() == old(self).child_set(),
            old(self).inv() ==> final(self).inv(),
    {
        self.weight = weight
    }

    /// The weight.
    pub fn get_weight(&self) -> (r: i32)
        ensures
            r == self.weight_of(),
    {
        self.weight
    }

    /// Whether `other` is the same group: the same name, members, relatives,
    /// weight and rules.
    pub fn same_as(&self, other: &Group) -> (r: bool)
        requires
            self.inv(),
            other.inv(),
        ensures
            r == (self.uid() == other.uid() && self@ == other@),
    {
        self.name == other.name && same_strings(&self.members, &other.members)
            && same_strings(&self.parents, &other.parents) && same_strings(&self.children, &other.children)
            && self.weight == other.weight && self.permissions.same_rules(&other.permissions)
    }
}

impl PermissionInterface for Group {
    closed spec fn perms(&self) -> PermissionRuleNode {
        self.permissions
    }

    closed spec fn inv(&self) -> bool {
        &&& distinct_strings(self.members@)
        &&& distinct_strings(self.parents@)
        &&& distinct_strings(self.children@)
        &&& self.permissions.wf()
    }

    fn set_perm(&mut self, path: PermissionPath, enabled: bool)
        ensures
            final(self).same_but_perms(*old(self)),
    {
        self.permissions.set(path, enabled)
    }

    fn set_perms(&mut self, perms: Vec<PermissionRule>)
        ensures
            final(self).same_but_perms(*old(self)),
    {
        set_rules(&mut self.permissions, &perms)
    }

    fn remove_perm(&mut self, path: &PermissionPath)
        ensures
            final(self).same_but_perms(*old(self)),
    {
        self.permissions.remove(path)
    }

    fn remove_perms(&mut self, perms: Vec<PermissionPath>)
        ensures
            final(self).same_but_perms(*old(self)),
    {
        remove_paths(&mut self.permissions, &perms)
    }

    fn get_perm(&self, path: &PermissionPath) -> (r: Option<(bool, MatchType)>) {
        self.permissions.get_match(path)
    }

    fn get_perms(&self) -> (r: &PermissionRuleNode) {
        &self.permissions
    }

    fn get_records(&self) -> (r: Vec<PermissionPath>) {
        self.permissions.get_records()
    }

    fn merge(&mut self, other: Self)
        ensures
            final(self).same_but_perms(*old(self)),
    {
        self.permissions.merge(other.permissions);
    }
}

} // verus!
