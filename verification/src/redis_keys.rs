//! The key scheme of the permission cache: which keys hold a permission's
//! identifier, its name, a group's rules and a group's relatives, and the
//! commands that the cache's operations send.

use vstd::prelude::*;
use vstd::string::*;
use crate::text::{push_signed_decimal, signed_decimal};

verus! {

/// `prefix`, `::`, then `rest`.
pub open spec fn prefixed(prefix: Seq<char>, rest: Seq<char>) -> Seq<char> {
    prefix + seq![':', ':'] + rest
}

/// `PERM_REL`, the prefix of the keys that relate permission names and identifiers.
pub open spec fn rel_prefix() -> Seq<char> {
    seq!['P', 'E', 'R', 'M', '_', 'R', 'E', 'L']
}

/// `REG`, the prefix of the keys of registered default permissions.
pub open spec fn reg_prefix() -> Seq<char> {
    seq!['R', 'E', 'G']
}

/// `GUEST`, the prefix of the keys of guest permissions.
pub open spec fn guest_prefix() -> Seq<char> {
    seq!['G', 'U', 'E', 'S', 'T']
}

/// `GRP_REL`, the prefix of the keys of a group's relatives.
pub open spec fn grp_rel_prefix() -> Seq<char> {
    seq!['G', 'R', 'P', '_', 'R', 'E', 'L']
}

/// `prefix::rest`.
pub(crate) fn join_key(prefix: &str, rest: &str) -> (r: String)
    ensures
        r@ == prefixed(prefix@, rest@),
{
    let mut r = prefix.to_string();
    let sep = "::";
    proof {
        reveal_strlit("::");
    }
    r.append(sep);
    r.append(rest);
    assert(r@ =~= prefixed(prefix@, rest@));
    r
}

/// `prefix::n`, with `n` in decimal.
fn join_number_key(prefix: &str, n: i32) -> (r: String)
    ensures
        r@ == prefixed(prefix@, signed_decimal(n as int)),
{
    let mut r = join_key(prefix, "");
    proof {
        reveal_strlit("");
    }
    push_signed_decimal(&mut r, n);
    assert(r@ =~= prefixed(prefix@, signed_decimal(n as int)));
    r
}

/// The key of the identifier of the permission `perm_name`: `PERM_REL::name`.
pub fn perm_name_to_rel_key(perm_name: &str) -> (r: String)
    ensures
        r@ == prefixed(rel_prefix(), perm_name@),
{
    proof {
        reveal_strlit("PERM_REL");
    }
    join_key("PERM_REL", perm_name)
}

/// The key of the name of the permission `perm`: `PERM_REL::id`.
pub fn perm_id_to_rel_key(perm: &i32) -> (r: String)
    ensures
        r@ == prefixed(rel_prefix(), signed_decimal(*perm as int)),
{
    proof {
        reveal_strlit("PERM_REL");
    }
    join_number_key("PERM_REL", *perm)
}

/// The key of the registered default permission `perm`: `REG::perm`.
pub fn reg_default_perm_to_key(perm: &str) -> (r: String)
    ensures
        r@ == prefixed(reg_prefix(), perm@),
{
    proof {
        reveal_strlit("REG");
    }
    join_key("REG", perm)
}

/// The key of the guest permission `perm`: `GUEST::perm`.
pub fn guest_perm_to_key(perm: &str) -> (r: String)
    ensures
        r@ == prefixed(guest_prefix(), perm@),
{
    proof {
        reveal_strlit("GUEST");
    }
    join_key("GUEST", perm)
}

/// The key of the rules of the group `group`: `PERM_REL::id` (the same
/// prefix as a permission's name).
pub fn group_id_to_key(group: &i32) -> (r: String)
    ensures
        r@ == prefixed(rel_prefix(), signed_decimal(*group as int)),
{
    proof {
        reveal_strlit("PERM_REL");
    }
    join_number_key("PERM_REL", *group)
}

/// The key of the relatives of the group `group`: `GRP_REL::id`.
pub fn grp_grp_rel_to_key(group: &i32) -> (r: String)
    ensures
        r@ == prefixed(grp_rel_prefix(), signed_decimal(*group as int)),
{
    proof {
        reveal_strlit("GRP_REL");
    }
    join_number_key("GRP_REL", *group)
}

/// A command to the cache.
#[derive(Debug, PartialEq, Eq)]
pub enum RedisCommand {
    /// Set each key to its value.
    SetMany { pairs: Vec<(String, String)> },
    /// Set one key to a value.
    SetOne { key: String, value: String },
    /// Read a key.
    Get { key: String },
    /// Send nothing; only the key is worked out.
    Touch { key: String },
}

/// The permission cache, by the commands its operations send.
#[derive(Debug)]
pub struct RedisPerms;

impl RedisPerms {
    /// Relates the permission `name` and its identifier `id` both ways.
    pub fn set_rel(&self, name: &String, id: &i32) -> (r: RedisCommand)
        ensures
            r matches RedisCommand::SetMany { pairs } && pairs@.len() == 2
                && pairs@[0].0@ == prefixed(rel_prefix(), name@) && pairs@[0].1@ == signed_decimal(*id as int)
                && pairs@[1].0@ == prefixed(rel_prefix(), signed_decimal(*id as int)) && pairs@[1].1@ == name@,
    {
        let mut v = String::new();
        push_signed_decimal(&mut v, *id);
        let mut pairs: Vec<(String, String)> = Vec::new();
        pairs.push((perm_name_to_rel_key(name.as_str()), v));
        pairs.push((perm_id_to_rel_key(id), name.clone()));
        RedisCommand::SetMany { pairs }
    }

    /// Relates the permission `name` to its identifier `id`.
    pub fn set_name_to_id(&self, name: &String, id: &i32) -> (r: RedisCommand)
        ensures
            r matches RedisCommand::SetOne { key, value } && key@ == prefixed(rel_prefix(), name@)
                && value@ == signed_decimal(*id as int),
    {
        let mut v = String::new();
        push_signed_decimal(&mut v, *id);
        RedisCommand::SetOne { key: perm_name_to_rel_key(name.as_str()), value: v }
    }

    /// Relates the identifier `id` to its permission `name`.
    pub fn set_id_to_name(&self, name: &String, id: &i32) -> (r: RedisCommand)
        ensures
            r matches RedisCommand::SetOne { key, value } && key@ == prefixed(rel_prefix(), signed_decimal(*id as int))
                && value@ == name@,
    {
        RedisCommand::SetOne { key: perm_id_to_rel_key(id), value: name.clone() }
    }

    /// Reads the identifier of the permission `name`.
    pub fn perm_id_by_name(&self, name: String) -> (r: RedisCommand)
        ensures
            r matches RedisCommand::Get { key } && key@ == prefixed(rel_prefix(), name@),
    {
        RedisCommand::Get { key: perm_name_to_rel_key(name.as_str()) }
    }

    /// Storing a group's rules: only the group's key is worked out yet.
    pub fn set_group(&self, group: &i32, weight: &i32, perms: Vec<(String, bool)>) -> (r: RedisCommand)
        ensures
            r matches RedisCommand::Touch { key } && key@ == prefixed(rel_prefix(), signed_decimal(*group as int)),
    {
        RedisCommand::Touch { key: group_id_to_key(group) }
    }

    /// Clearing a group: nothing is worked out yet.
    pub fn clear_group(&self, group: &i32) -> (r: Option<RedisCommand>)
        ensures
            r is None,
    {
        None
    }

    /// Adding a rule to a group: only the group's key is worked out yet.
    pub fn add_perm_to_group(&self, group: &i32, perm: &String) -> (r: RedisCommand)
        ensures
            r matches RedisCommand::Touch { key } && key@ == prefixed(rel_prefix(), signed_decimal(*group as int)),
    {
        RedisCommand::Touch { key: group_id_to_key(group) }
    }

    /// Taking a rule from a group: only the group's key is worked out yet.
    pub fn del_perm_from_group(&self, group: &i32, perm: &String) -> (r: RedisCommand)
        ensures
            r matches RedisCommand::Touch { key } && key@ == prefixed(rel_prefix(), signed_decimal(*group as int)),
    {
        RedisCommand::Touch { key: group_id_to_key(group) }
    }

    /// A group's rules: none are stored yet.
    pub fn get_group_perms(&self, group: &i32) -> (r: Vec<String>)
        ensures
            r@.len() == 0,
    {
        Vec::new()
    }
}

} // verus!
