//! Permissions and wildcards by path and by identifier, and the keys under
//! which each is kept. An identifier is a UUID, held as its 128-bit value.

use vstd::prelude::*;
use vstd::string::*;
use crate::text::{push_char, string_of_range};
use crate::redis_keys::{prefixed, join_key};
use crate::cache_keys::{perm_id_prefix, id_perm_prefix, wildcard_id_prefix, id_wildcard_prefix};

verus! {

/// The lowercase hexadecimal digit `d`.
pub open spec fn hex_digit(d: nat) -> char {
    if d < 10 {
        ((d + 48) as u8) as char
    } else {
        ((d + 87) as u8) as char
    }
}

/// The last `n` hexadecimal digits of `v`, most significant first.
pub open spec fn hex_text(v: nat, n: nat) -> Seq<char>
    decreases n,
{
    if n == 0 {
        Seq::empty()
    } else {
        hex_text(v / 16, (n - 1) as nat).push(hex_digit(v % 16))
    }
}

/// The text of a UUID: its 32 lowercase hexadecimal digits, most
/// significant first, with `-` after the 8th, 12th, 16th and 20th.
pub open spec fn uuid_text(v: u128) -> Seq<char> {
    let h = hex_text(v as nat, 32);
    h.subrange(0, 8) + seq!['-'] + h.subrange(8, 12) + seq!['-'] + h.subrange(12, 16) + seq!['-'] + h.subrange(16, 20)
        + seq!['-'] + h.subrange(20, 32)
}

/// `n` hexadecimal digits are `n` characters.
pub proof fn lemma_hex_len(v: nat, n: nat)
    ensures
        hex_text(v, n).len() == n,
    decreases n,
{
    if n > 0 {
        lemma_hex_len(v / 16, (n - 1) as nat);
    }
}

/// The lowercase hexadecimal digit `d`.
fn hex_char(d: u128) -> (c: char)
    requires
        d < 16,
    ensures
        c == hex_digit(d as nat),
{
    let b: u8 = if d < 10 { (d as u8) + 48 } else { (d as u8) + 87 };
    b as char
}

/// Appends the last `n` hexadecimal digits of `v`.
pub(crate) fn push_hex(out: &mut Vec<char>, v: u128, n: usize)
    ensures
        final(out)@ == old(out)@ + hex_text(v as nat, n as nat),
    decreases n,
{
    if n > 0 {
        push_hex(out, v / 16, n - 1);
        out.push(hex_char(v % 16));
        assert(final(out)@ =~= old(out)@ + hex_text(v as nat, n as nat));
    } else {
        assert(final(out)@ =~= old(out)@ + hex_text(v as nat, n as nat));
    }
}

/// The text of the UUID `v` (see `uuid_text`).
pub fn uuid_string(v: u128) -> (r: String)
    ensures
        r@ == uuid_text(v),
{
    let mut h: Vec<char> = Vec::new();
    push_hex(&mut h, v, 32);
    proof {
        lemma_hex_len(v as nat, 32);
        assert(h@ =~= hex_text(v as nat, 32));
    }
    let mut r = string_of_range(&h, 0, 8);
    push_char(&mut r, '-');
    let p = string_of_range(&h, 8, 12);
    r.append(p.as_str());
    push_char(&mut r, '-');
    let p = string_of_range(&h, 12, 16);
    r.append(p.as_str());
    push_char(&mut r, '-');
    let p = string_of_range(&h, 16, 20);
    r.append(p.as_str());
    push_char(&mut r, '-');
    let p = string_of_range(&h, 20, 32);
    r.append(p.as_str());
    assert(r@ =~= uuid_text(v));
    r
}

/// The key of the identifier of the permission `perm`: `PERM_ID::perm`.
pub fn perm_to_key(perm: &str) -> (r: String)
    ensures
        r@ == prefixed(perm_id_prefix(), perm@),
{
    proof {
        reveal_strlit("PERM_ID");
    }
    join_key("PERM_ID", perm)
}

/// The key of the permission of the identifier `id`: `ID_PERM::` and the UUID's text.
pub fn perm_id_to_key(id: &u128) -> (r: String)
    ensures
        r@ == prefixed(id_perm_prefix(), uuid_text(*id)),
{
    proof {
        reveal_strlit("ID_PERM");
    }
    let t = uuid_string(*id);
    join_key("ID_PERM", t.as_str())
}

/// The key of the identifier of the wildcard `perm`: `WILDCARD_ID::perm`.
pub fn wildcard_to_key(perm: &str) -> (r: String)
    ensures
        r@ == prefixed(wildcard_id_prefix(), perm@),
{
    proof {
        reveal_strlit("WILDCARD_ID");
    }
    join_key("WILDCARD_ID", perm)
}

/// The key of the wildcard of the identifier `id`: `ID_WILDCARD::` and the UUID's text.
pub fn wildcard_id_to_key(id: &u128) -> (r: String)
    ensures
        r@ == prefixed(id_wildcard_prefix(), uuid_text(*id)),
{
    proof {
        reveal_strlit("ID_WILDCARD");
    }
    let t = uuid_string(*id);
    join_key("ID_WILDCARD", t.as_str())
}

/// Something kept in the cache for a while.
pub trait Lifetime {
    /// How long it is kept, in seconds.
    fn get_lifetime(&self) -> i64;
}

/// A wildcard permission path.
#[derive(Debug, PartialEq, Eq)]
pub struct Wildcard(pub String);

/// A wildcard's identifier.
#[derive(Debug, PartialEq, Eq)]
pub struct WildcardId(pub u128);

/// A permission path.
#[derive(Debug, PartialEq, Eq)]
pub struct Perm(pub String);

/// A permission's identifier.
#[derive(Debug, PartialEq, Eq)]
pub struct PermId(pub u128);

impl Wildcard {
    /// The key of its identifier.
    pub fn to_key(&self) -> (r: String)
        ensures
            r@ == prefixed(wildcard_id_prefix(), self.0@),
    {
        wildcard_to_key(self.0.as_str())
    }

    /// Its identifier, `id`.
    pub fn construct_id(&self, id: u128) -> (r: WildcardId)
        ensures
            r.0 == id,
    {
        WildcardId(id)
    }

    /// The path.
    pub fn value(&self) -> (r: &str)
        ensures
            r@ == self.0@,
    {
        self.0.as_str()
    }
}

impl WildcardId {
    /// The key of its wildcard.
    pub fn to_key(&self) -> (r: String)
        ensures
            r@ == prefixed(id_wildcard_prefix(), uuid_text(self.0)),
    {
        wildcard_id_to_key(&self.0)
    }

    /// Its wildcard, `path`.
    pub fn construct_path(&self, path: String) -> (r: Wildcard)
        ensures
            r.0 == path,
    {
        Wildcard(path)
    }

    /// The identifier.
    pub fn value(&self) -> (r: u128)
        ensures
            r == self.0,
    {
        self.0
    }
}

impl Perm {
    /// The key of its identifier.
    pub fn to_key(&self) -> (r: String)
        ensures
            r@ == prefixed(perm_id_prefix(), self.0@),
    {
        perm_to_key(self.0.as_str())
    }

    /// Its identifier, `id`.
    pub fn construct_id(&self, id: u128) -> (r: PermId)
        ensures
            r.0 == id,
    {
        PermId(id)
    }

    /// The path.
    pub fn value(&self) -> (r: &str)
        ensures
            r@ == self.0@,
    {
        self.0.as_str()
    }
}

impl PermId {
    /// The key of its permission.
    pub fn to_key(&self) -> (r: String)
        ensures
            r@ == prefixed(id_perm_prefix(), uuid_text(self.0)),
    {
        perm_id_to_key(&self.0)
    }

    /// Its permission, `path`.
    pub fn construct_path(&self, path: String) -> (r: Perm)
        ensures
            r.0 == path,
    {
        Perm(path)
    }

    /// The identifier.
    pub fn value(&self) -> (r: u128)
        ensures
            r == self.0,
    {
        self.0
    }
}

} // verus!
