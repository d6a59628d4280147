//! The session cache: the keys of refresh tokens and of each user's live
//! sessions, what happens to old sessions when a new one starts, and the
//! two-way table of users' identifiers.

use vstd::prelude::*;
use vstd::string::*;
use crate::perm_keys::{hex_text, uuid_text, uuid_string, push_hex, lemma_hex_len};
use crate::redis_keys::{prefixed, join_key};
use crate::text::string_of_range;

verus! {

/// `RTID`, the prefix of the key of a refresh token.
pub open spec fn rtid_prefix() -> Seq<char> {
    seq!['R', 'T', 'I', 'D']
}

/// `UTPP`, the prefix of the key of a user's live sessions.
pub open spec fn user_sessions_prefix() -> Seq<char> {
    seq!['U', 'T', 'P', 'P']
}

/// The name of the table from users' UUIDs to their identifiers.
pub const USER_GUIDS_HASH: &'static str = "USER_GUIDS";

/// The name of the table from users' identifiers to their UUIDs.
pub const USER_UIDS_HASH: &'static str = "USER_UIDS";

/// The key of the refresh token `rtid`: `RTID::` and the UUID's text.
pub fn rtid_to_key(rtid: u128) -> (r: String)
    ensures
        r@ == prefixed(rtid_prefix(), uuid_text(rtid)),
{
    proof {
        reveal_strlit("RTID");
    }
    let t = uuid_string(rtid);
    join_key("RTID", t.as_str())
}

/// The key of the live sessions of `user`: `UTPP::` and the UUID's text.
pub fn user_to_key(user: u128) -> (r: String)
    ensures
        r@ == prefixed(user_sessions_prefix(), uuid_text(user)),
{
    proof {
        reveal_strlit("UTPP");
    }
    let t = uuid_string(user);
    join_key("UTPP", t.as_str())
}

/// What happens to a user's sessions when a new one starts.
#[derive(Debug, PartialEq, Eq, Clone, Copy)]
pub enum SessionCleanup {
    /// Every session ends: the user had as many live ones as allowed.
    EraseAll,
    /// Only the sessions that expired are dropped.
    EraseOutdated,
}

/// The cleanup when the user has `live` live sessions and at most `max`
/// are allowed.
pub fn session_cleanup(live: usize, max: usize) -> (r: SessionCleanup)
    ensures
        live >= max ==> r == SessionCleanup::EraseAll,
        live < max ==> r == SessionCleanup::EraseOutdated,
{
    if live >= max {
        SessionCleanup::EraseAll
    } else {
        SessionCleanup::EraseOutdated
    }
}

/// The 32 hexadecimal digits of a UUID, without hyphens.
pub fn uuid_simple(v: u128) -> (r: String)
    ensures
        r@ == hex_text(v as nat, 32),
{
    let mut h: Vec<char> = Vec::new();
    push_hex(&mut h, v, 32);
    proof {
        lemma_hex_len(v as nat, 32);
        assert(h@ =~= hex_text(v as nat, 32));
    }
    string_of_range(&h, 0, 32)
}

/// The rows of both tables for `users` (each a UUID and an identifier), in
/// order: from the UUID's digits to the identifier, and back.
pub fn user_table_rows(users: &Vec<(u128, String)>) -> (r: (Vec<(String, String)>, Vec<(String, String)>))
    ensures
        r.0@.len() == users@.len(),
        r.1@.len() == users@.len(),
        forall|i: int| 0 <= i < users@.len() ==> (#[trigger] r.0@[i]).0@ == hex_text(users@[i].0 as nat, 32)
            && r.0@[i].1@ == users@[i].1@,
        forall|i: int| 0 <= i < users@.len() ==> (#[trigger] r.1@[i]).0@ == users@[i].1@
            && r.1@[i].1@ == hex_text(users@[i].0 as nat, 32),
{
    let mut guid_to_uid: Vec<(String, String)> = Vec::new();
    let mut uid_to_guid: Vec<(String, String)> = Vec::new();
    let mut i: usize = 0;
    while i < users.len()
        invariant
            i <= users@.len(),
            guid_to_uid@.len() == i,
            uid_to_guid@.len() == i,
            forall|j: int| 0 <= j < i ==> (#[trigger] guid_to_uid@[j]).0@ == hex_text(users@[j].0 as nat, 32)
                && guid_to_uid@[j].1@ == users@[j].1@,
            forall|j: int| 0 <= j < i ==> (#[trigger] uid_to_guid@[j]).0@ == users@[j].1@
                && uid_to_guid@[j].1@ == hex_text(users@[j].0 as nat, 32),
        decreases users@.len() - i,
    {
        let g = uuid_simple(users[i].0);
        guid_to_uid.push((g.clone(), users[i].1.clone()));
        uid_to_guid.push((users[i].1.clone(), g));
        i = i + 1;
    }
    (guid_to_uid, uid_to_guid)
}

} // verus!
