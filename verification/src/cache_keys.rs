//! The keys of the permission-path cache that relates paths and numeric
//! identifiers, both ways, for permissions and for wildcards.

use vstd::prelude::*;
use vstd::string::*;
use crate::text::{push_decimal, decimal};
use crate::redis_keys::{prefixed, join_key};

verus! {

/// `PERM_ID`, the prefix of the key of a permission's identifier.
pub open spec fn perm_id_prefix() -> Seq<char> {
    seq!['P', 'E', 'R', 'M', '_', 'I', 'D']
}

/// `ID_PERM`, the prefix of the key of an identifier's permission.
pub open spec fn id_perm_prefix() -> Seq<char> {
    seq!['I', 'D', '_', 'P', 'E', 'R', 'M']
}

/// `WILDCARD_ID`, the prefix of the key of a wildcard's identifier.
pub open spec fn wildcard_id_prefix() -> Seq<char> {
    seq!['W', 'I', 'L', 'D', 'C', 'A', 'R', 'D', '_', 'I', 'D']
}

/// `ID_WILDCARD`, the prefix of the key of an identifier's wildcard.
pub open spec fn id_wildcard_prefix() -> Seq<char> {
    seq!['I', 'D', '_', 'W', 'I', 'L', 'D', 'C', 'A', 'R', 'D']
}

/// `prefix::id`, with `id` in decimal.
fn join_id_key(prefix: &str, id: u64) -> (r: String)
    ensures
        r@ == prefixed(prefix@, decimal(id as nat)),
{
    let mut r = join_key(prefix, "");
    proof {
        reveal_strlit("");
    }
    push_decimal(&mut r, id);
    assert(r@ =~= prefixed(prefix@, decimal(id as nat)));
    r
}

/// The key of the identifier of the permission `perm`: `PERM_ID::perm`.
pub fn perm_to_key(perm: &String) -> (r: String)
    ensures
        r@ == prefixed(perm_id_prefix(), perm@),
{
    proof {
        reveal_strlit("PERM_ID");
    }
    join_key("PERM_ID", perm.as_str())
}

/// The key of the permission of the identifier `id`: `ID_PERM::id`.
pub fn perm_id_to_key(id: &u64) -> (r: String)
    ensures
        r@ == prefixed(id_perm_prefix(), decimal(*id as nat)),
{
    proof {
        reveal_strlit("ID_PERM");
    }
    join_id_key("ID_PERM", *id)
}

/// The key of the identifier of the wildcard `perm`: `WILDCARD_ID::perm`.
pub fn wildcard_to_key(perm: &String) -> (r: String)
    ensures
        r@ == prefixed(wildcard_id_prefix(), perm@),
{
    proof {
        reveal_strlit("WILDCARD_ID");
    }
    join_key("WILDCARD_ID", perm.as_str())
}

/// The key of the wildcard of the identifier `id`: `ID_WILDCARD::id`.
pub fn wildcard_id_to_key(id: &u64) -> (r: String)
    ensures
        r@ == prefixed(id_wildcard_prefix(), decimal(*id as nat)),
{
    proof {
        reveal_strlit("ID_WILDCARD");
    }
    join_id_key("ID_WILDCARD", *id)
}

} // verus!
