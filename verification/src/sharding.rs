//! Shards of heavily used groups: a group stands for itself and for numbered
//! shard groups named `group.0`, `group.1`, ..., and each rule goes to the
//! shard that the hash of its key picks.

use vstd::prelude::*;
use vstd::string::*;
use crate::actions::RustpermsOperation;
use crate::groups::GroupUID;
use crate::path::PermissionPath;
use crate::permissions::{PermissionRule, rules_view};
use crate::text::{push_char, push_decimal, decimal};

verus! {

/// The name of shard `i` of `group`: the group's name, `.`, and `i` in decimal.
pub open spec fn shard_name(group: Seq<char>, i: nat) -> Seq<char> {
    group + seq!['.'] + decimal(i)
}

/// The name of shard `shard` of `group` (see `shard_name`).
pub fn group_shard(group: &GroupUID, shard: usize) -> (r: GroupUID)
    ensures
        r@ == shard_name(group@, shard as nat),
{
    let mut r = group.clone();
    push_char(&mut r, '.');
    push_decimal(&mut r, shard as u64);
    r
}

/// The names of the `shards` shards of `group`, in order.
pub fn group_to_shards(group: &GroupUID, shards: usize) -> (r: Vec<GroupUID>)
    ensures
        r@.len() == shards,
        forall|i: int| 0 <= i < shards ==> (#[trigger] r@[i])@ == shard_name(group@, i as nat),
{
    let mut ids: Vec<GroupUID> = Vec::new();
    let mut i: usize = 0;
    while i < shards
        invariant
            i <= shards,
            ids@.len() == i,
            forall|j: int| 0 <= j < i ==> (#[trigger] ids@[j])@ == shard_name(group@, j as nat),
        decreases shards - i,
    {
        ids.push(group_shard(group, i));
        i = i + 1;
    }
    ids
}

/// The names of the `shards` shards of `group`, in order, then `group` itself.
pub fn group_to_sharded(group: GroupUID, shards: usize) -> (r: Vec<GroupUID>)
    ensures
        r@.len() == shards + 1,
        forall|i: int| 0 <= i < shards ==> (#[trigger] r@[i])@ == shard_name(group@, i as nat),
        r@[shards as int]@ == group@,
{
    let mut ids = group_to_shards(&group, shards);
    ids.push(group);
    ids
}

/// `ops` create `group` and its `shards` shards, all of weight `weight`: each
/// shard in order, then the group, then the shards as the group's dependents.
pub open spec fn creates_sharded(ops: Seq<RustpermsOperation>, group: Seq<char>, weight: i32, shards: nat) -> bool {
    &&& ops.len() == shards + 2
    &&& forall|i: int| 0 <= i < shards ==> (#[trigger] ops[i] matches RustpermsOperation::GroupCreate { group_uid, weight: w }
        && group_uid@ == shard_name(group, i as nat) && w == weight)
    &&& ops[shards as int] matches RustpermsOperation::GroupCreate { group_uid, weight: w } && group_uid@ == group && w == weight
    &&& ops[shards as int + 1] matches RustpermsOperation::GroupAddDependentGroups(g, gs) && g@ == group && gs@.len() == shards
        && forall|i: int| 0 <= i < shards ==> (#[trigger] gs@[i])@ == shard_name(group, i as nat)
}

/// `ops` set, on the shards of `group`, the rules `rules` whose keys fall in
/// the shards `keys` (at the same positions): one operation per shard that
/// gets any, in the order in which shards first occur.
pub open spec fn shard_updates(
    ops: Seq<RustpermsOperation>,
    group: Seq<char>,
    keys: Seq<nat>,
    rules: Seq<(Seq<Seq<char>>, bool)>,
) -> bool {
    &&& ops.len() == first_seen(keys).len()
    &&& forall|j: int| 0 <= j < ops.len() ==> (#[trigger] ops[j] matches RustpermsOperation::GroupUpdatePerms(g, ps)
        && g@ == shard_name(group, first_seen(keys)[j]) && rules_view(ps@) == bucket(keys, rules, first_seen(keys)[j]))
}

/// Grouping rules by key and then taking their paths and values is taking
/// paths and values and then grouping.
proof fn lemma_bucket_rules(ks: Seq<nat>, vs: Seq<PermissionRule>, k: nat)
    requires
        ks.len() == vs.len(),
    ensures
        bucket(ks, rules_view(vs), k) == rules_view(bucket(ks, vs, k)),
    decreases ks.len(),
{
    if ks.len() > 0 {
        assert(rules_view(vs).drop_last() =~= rules_view(vs.drop_last()));
        lemma_bucket_rules(ks.drop_last(), vs.drop_last(), k);
        assert(rules_view(bucket(ks, vs, k)) =~= bucket(ks, rules_view(vs), k));
    }
}

/// The 64-bit XXH3 hash (seed 0) of `input`.
pub uninterp spec fn xxh3_of(input: Seq<u8>) -> u64;

/// `xxhash_rust::xxh3::xxh3_64`: the XXH3 hash of `input` with seed 0. The
/// contract names the result and says nothing more of it.
#[verifier::external_body]
fn xxh3_hash(input: &[u8]) -> (r: u64)
    ensures
        r == xxh3_of(input@),
{
    xxhash_rust::xxh3::xxh3_64(input)
}

/// The shard that a hash picks among `shards`.
pub open spec fn shard_pick(hash: u64, shards: usize) -> nat {
    (hash as usize) as nat % shards as nat
}

/// The shard that `hash` picks among `shards`: the hash as a `usize`,
/// modulo the number of shards.
pub fn shard_of_hash(hash: u64, shards: usize) -> (r: usize)
    requires
        shards > 0,
    ensures
        r == shard_pick(hash, shards),
        r < shards,
{
    (hash as usize) % shards
}

/// The shard of `key` among `shards`: the one its hash picks.
pub open spec fn key_shard(key: &str, shards: usize) -> nat {
    shard_pick(xxh3_of(key.spec_bytes()), shards)
}

/// The shard that `key` goes to among `shards` (see `key_shard`).
pub fn key_to_shard_suffix(key: &str, shards: usize) -> (r: usize)
    requires
        shards > 0,
    ensures
        r == key_shard(key, shards),
        r < shards,
{
    let hash = xxh3_hash(key.as_bytes());
    shard_of_hash(hash, shards)
}

/// Operations that create `group` and its `shards` shards, all of weight
/// `weight`: each shard in order, then the group, then the shards as the
/// group's dependents.
pub fn sharded_group_crate(group: GroupUID, weight: i32, shards: usize) -> (r: Vec<RustpermsOperation>)
    ensures
        creates_sharded(r@, group@, weight, shards as nat),
{
    let names = group_to_shards(&group, shards);
    let mut ops: Vec<RustpermsOperation> = Vec::new();
    let mut i: usize = 0;
    while i < shards
        invariant
            i <= shards,
            names@.len() == shards,
            forall|j: int| 0 <= j < shards ==> (#[trigger] names@[j])@ == shard_name(group@, j as nat),
            ops@.len() == i,
            forall|j: int| 0 <= j < i ==> (#[trigger] ops@[j] matches RustpermsOperation::GroupCreate { group_uid, weight: w }
                && group_uid@ == shard_name(group@, j as nat) && w == weight),
        decreases shards - i,
    {
        ops.push(RustpermsOperation::GroupCreate { group_uid: names[i].clone(), weight });
        i = i + 1;
    }
    ops.push(RustpermsOperation::GroupCreate { group_uid: group.clone(), weight });
    ops.push(RustpermsOperation::GroupAddDependentGroups(group, names));
    ops
}

/// Operations that remove each shard of `group`, in order, then the group.
pub fn sharded_group_remove(group: GroupUID, shards: usize) -> (r: Vec<RustpermsOperation>)
    ensures
        r@.len() == shards + 1,
        forall|i: int| 0 <= i < shards ==> (#[trigger] r@[i] matches RustpermsOperation::GroupRemove(g)
            && g@ == shard_name(group@, i as nat)),
        r@[shards as int] matches RustpermsOperation::GroupRemove(g) && g@ == group@,
{
    let names = group_to_sharded(group, shards);
    let mut ops: Vec<RustpermsOperation> = Vec::new();
    let mut i: usize = 0;
    while i < names.len()
        invariant
            i <= names@.len(),
            names@.len() == shards + 1,
            forall|j: int| 0 <= j < shards ==> (#[trigger] names@[j])@ == shard_name(group@, j as nat),
            names@[shards as int]@ == group@,
            ops@.len() == i,
            forall|j: int| 0 <= j < i ==> (#[trigger] ops@[j] matches RustpermsOperation::GroupRemove(g) && g@ == names@[j]@),
        decreases names@.len() - i,
    {
        ops.push(RustpermsOperation::GroupRemove(names[i].clone()));
        i = i + 1;
    }
    ops
}

/// Operations that set the weight of each shard of `group`, in order, then
/// of the group, to `weight`.
pub fn sharded_group_update(group: GroupUID, shards: usize, weight: i32) -> (r: Vec<RustpermsOperation>)
    ensures
        r@.len() == shards + 1,
        forall|i: int| 0 <= i < shards ==> (#[trigger] r@[i] matches RustpermsOperation::GroupUpdate { group_uid, weight: w }
            && group_uid@ == shard_name(group@, i as nat) && w == weight),
        r@[shards as int] matches RustpermsOperation::GroupUpdate { group_uid, weight: w } && group_uid@ == group@ && w == weight,
{
    let names = group_to_sharded(group, shards);
    let mut ops: Vec<RustpermsOperation> = Vec::new();
    let mut i: usize = 0;
    while i < names.len()
        invariant
            i <= names@.len(),
            names@.len() == shards + 1,
            forall|j: int| 0 <= j < shards ==> (#[trigger] names@[j])@ == shard_name(group@, j as nat),
            names@[shards as int]@ == group@,
            ops@.len() == i,
            forall|j: int| 0 <= j < i ==> (#[trigger] ops@[j] matches RustpermsOperation::GroupUpdate { group_uid, weight: w }
                && group_uid@ == names@[j]@ && w == weight),
        decreases names@.len() - i,
    {
        ops.push(RustpermsOperation::GroupUpdate { group_uid: names[i].clone(), weight });
        i = i + 1;
    }
    ops
}

/// Each key of `ks` once, in the order in which it first occurs.
pub open spec fn first_seen(ks: Seq<nat>) -> Seq<nat>
    decreases ks.len(),
{
    if ks.len() == 0 {
        Seq::empty()
    } else {
        let prev = first_seen(ks.drop_last());
        if prev.contains(ks.last()) {
            prev
        } else {
            prev.push(ks.last())
        }
    }
}

/// The values of `vs` whose key in `ks` (at the same position) is `k`, in order.
pub open spec fn bucket<T>(ks: Seq<nat>, vs: Seq<T>, k: nat) -> Seq<T>
    decreases ks.len(),
{
    if ks.len() == 0 || vs.len() == 0 {
        Seq::empty()
    } else {
        let prev = bucket(ks.drop_last(), vs.drop_last(), k);
        if ks.last() == k {
            prev.push(vs.last())
        } else {
            prev
        }
    }
}

/// The shard of the key of each pair of `perms`.
pub open spec fn shard_keys<'a, T>(perms: Seq<(&'a str, T)>, shards: usize) -> Seq<nat> {
    perms.map_values(|p: (&'a str, T)| key_shard(p.0, shards))
}

/// The value of each pair of `perms`.
pub open spec fn pair_values<'a, T>(perms: Seq<(&'a str, T)>) -> Seq<T> {
    perms.map_values(|p: (&'a str, T)| p.1)
}

/// Each key occurs once among the first-seen keys.
proof fn lemma_first_seen_distinct(ks: Seq<nat>)
    ensures
        first_seen(ks).no_duplicates(),
    decreases ks.len(),
{
    if ks.len() > 0 {
        lemma_first_seen_distinct(ks.drop_last());
    }
}

/// A key that does not occur has no values.
proof fn lemma_bucket_absent<T>(ks: Seq<nat>, vs: Seq<T>, k: nat)
    requires
        ks.len() == vs.len(),
        !first_seen(ks).contains(k),
    ensures
        bucket(ks, vs, k) == Seq::<T>::empty(),
    decreases ks.len(),
{
    if ks.len() > 0 {
        let prev = first_seen(ks.drop_last());
        if prev.contains(k) {
            let j = choose|j: int| 0 <= j < prev.len() && prev[j] == k;
            if !prev.contains(ks.last()) {
                assert(first_seen(ks)[j] == k);
            }
        }
        if ks.last() == k {
            if prev.contains(ks.last()) {
            } else {
                assert(first_seen(ks)[prev.len() as int] == k);
            }
        }
        lemma_bucket_absent(ks.drop_last(), vs.drop_last(), k);
    }
}

/// The pairs of `perms` grouped by the shard of their keys: each shard that
/// occurs, in the order of first occurrence, with its values in order.
fn split_by_shard<'a, T>(perms: Vec<(&'a str, T)>, shards: usize) -> (r: Vec<(usize, Vec<T>)>)
    requires
        perms@.len() == 0 || shards > 0,
    ensures
        r@.len() == first_seen(shard_keys(perms@, shards)).len(),
        forall|j: int| 0 <= j < r@.len() ==> (#[trigger] r@[j]).0 == first_seen(shard_keys(perms@, shards))[j]
            && r@[j].1@ == bucket(shard_keys(perms@, shards), pair_values(perms@), r@[j].0 as nat),
{
    let ghost ks = shard_keys(perms@, shards);
    let ghost vs = pair_values(perms@);
    let ghost all = perms@;
    let mut out: Vec<(usize, Vec<T>)> = Vec::new();
    assert(ks.take(0) =~= Seq::<nat>::empty());
    for p in it: perms.into_iter()
        invariant
            it.seq() == all,
            all.len() == 0 || shards > 0,
            ks == shard_keys(all, shards),
            vs == pair_values(all),
            out@.len() == first_seen(ks.take(it.index())).len(),
            forall|j: int| 0 <= j < out@.len() ==> (#[trigger] out@[j]).0 == first_seen(ks.take(it.index()))[j]
                && out@[j].1@ == bucket(ks.take(it.index()), vs.take(it.index()), out@[j].0 as nat),
    {
        let ghost i = it.index();
        let ghost fs = first_seen(ks.take(i));
        let (key, val) = p;
        let k = key_to_shard_suffix(key, shards);
        proof {
            assert(ks.take(i + 1).drop_last() =~= ks.take(i));
            assert(vs.take(i + 1).drop_last() =~= vs.take(i));
            assert(ks.take(i + 1).last() == k);
            assert(vs.take(i + 1).last() == val);
        }
        let mut j: usize = 0;
        while j < out.len() && out[j].0 != k
            invariant
                j <= out@.len(),
                forall|jj: int| 0 <= jj < j ==> (#[trigger] out@[jj]).0 != k,
            decreases out@.len() - j,
        {
            j = j + 1;
        }
        if j < out.len() {
            let ghost before = out@;
            out[j].1.push(val);
            proof {
                assert(fs[j as int] == k);
                assert(fs.contains(k as nat));
                lemma_first_seen_distinct(ks.take(i));
                assert(first_seen(ks.take(i + 1)) == fs);
                assert(out@.len() == before.len());
                assert(out@[j as int].0 == before[j as int].0);
                assert(out@[j as int].1@ == before[j as int].1@.push(val));
                assert forall|jj: int| 0 <= jj < out@.len() implies (#[trigger] out@[jj]).0 == first_seen(ks.take(i + 1))[jj]
                    && out@[jj].1@ == bucket(ks.take(i + 1), vs.take(i + 1), out@[jj].0 as nat) by {
                    if jj != j {
                        assert(out@[jj] == before[jj]);
                        assert(fs[jj] != fs[j as int]);
                    }
                }
            }
        } else {
            proof {
                assert forall|jj: int| 0 <= jj < fs.len() implies fs[jj] != k by {
                    assert(out@[jj].0 == fs[jj]);
                }
                lemma_bucket_absent(ks.take(i), vs.take(i), k as nat);
            }
            let mut b: Vec<T> = Vec::new();
            b.push(val);
            let ghost bv = b@;
            out.push((k, b));
            proof {
                assert(first_seen(ks.take(i + 1)) == fs.push(k as nat));
                assert(bv =~= bucket(ks.take(i + 1), vs.take(i + 1), k as nat)) by {
                    assert(bucket(ks.take(i), vs.take(i), k as nat) =~= Seq::<T>::empty());
                }
            }
        }
    }
    proof {
        assert(ks.take(all.len() as int) =~= ks);
        assert(vs.take(all.len() as int) =~= vs);
    }
    out
}

/// Operations that remove the rule paths `perms` from the shards of
/// `group`: each path goes to the shard of its key; one operation per
/// shard that gets any, in the order in which shards first occur.
pub fn sharded_group_remove_perms(group: GroupUID, shards: usize, perms: Vec<(&str, PermissionPath)>) -> (r: Vec<RustpermsOperation>)
    requires
        perms@.len() == 0 || shards > 0,
    ensures
        r@.len() == first_seen(shard_keys(perms@, shards)).len(),
        forall|j: int| 0 <= j < r@.len() ==> (#[trigger] r@[j] matches RustpermsOperation::GroupRemovePerms(g, ps)
            && g@ == shard_name(group@, first_seen(shard_keys(perms@, shards))[j])
            && ps@ == bucket(shard_keys(perms@, shards), pair_values(perms@), first_seen(shard_keys(perms@, shards))[j])),
{
    let ghost ks = shard_keys(perms@, shards);
    let ghost vs = pair_values(perms@);
    let mut parts = split_by_shard(perms, shards);
    let mut ops: Vec<RustpermsOperation> = Vec::new();
    let ghost all = parts@;
    for part in it: parts.into_iter()
        invariant
            it.seq() == all,
            all.len() == first_seen(ks).len(),
            forall|j: int| 0 <= j < all.len() ==> (#[trigger] all[j]).0 == first_seen(ks)[j] && all[j].1@ == bucket(ks, vs, all[j].0 as nat),
            ops@.len() == it.index(),
            forall|j: int| 0 <= j < it.index() ==> (#[trigger] ops@[j] matches RustpermsOperation::GroupRemovePerms(g, ps)
                && g@ == shard_name(group@, first_seen(ks)[j]) && ps@ == bucket(ks, vs, first_seen(ks)[j])),
    {
        let (k, v) = part;
        ops.push(RustpermsOperation::GroupRemovePerms(group_shard(&group, k), v));
    }
    ops
}

/// Operations that set the rules `perms` on the shards of `group`: each
/// rule goes to the shard of its key; one operation per shard that gets
/// any, in the order in which shards first occur.
pub fn sharded_group_update_perms(group: GroupUID, shards: usize, perms: Vec<(&str, PermissionRule)>) -> (r: Vec<RustpermsOperation>)
    requires
        perms@.len() == 0 || shards > 0,
    ensures
        r@.len() == first_seen(shard_keys(perms@, shards)).len(),
        forall|j: int| 0 <= j < r@.len() ==> (#[trigger] r@[j] matches RustpermsOperation::GroupUpdatePerms(g, ps)
            && g@ == shard_name(group@, first_seen(shard_keys(perms@, shards))[j])
            && ps@ == bucket(shard_keys(perms@, shards), pair_values(perms@), first_seen(shard_keys(perms@, shards))[j])),
        shard_updates(r@, group@, shard_keys(perms@, shards), rules_view(pair_values(perms@))),
{
    let ghost ks = shard_keys(perms@, shards);
    let ghost vs = pair_values(perms@);
    let mut parts = split_by_shard(perms, shards);
    let mut ops: Vec<RustpermsOperation> = Vec::new();
    let ghost all = parts@;
    for part in it: parts.into_iter()
        invariant
            it.seq() == all,
            all.len() == first_seen(ks).len(),
            forall|j: int| 0 <= j < all.len() ==> (#[trigger] all[j]).0 == first_seen(ks)[j] && all[j].1@ == bucket(ks, vs, all[j].0 as nat),
            ops@.len() == it.index(),
            forall|j: int| 0 <= j < it.index() ==> (#[trigger] ops@[j] matches RustpermsOperation::GroupUpdatePerms(g, ps)
                && g@ == shard_name(group@, first_seen(ks)[j]) && ps@ == bucket(ks, vs, first_seen(ks)[j])),
    {
        let (k, v) = part;
        ops.push(RustpermsOperation::GroupUpdatePerms(group_shard(&group, k), v));
    }
    proof {
        assert(ks.len() == vs.len());
        assert forall|j: int| 0 <= j < ops@.len() implies (#[trigger] ops@[j] matches RustpermsOperation::GroupUpdatePerms(g, ps)
            && g@ == shard_name(group@, first_seen(ks)[j]) && rules_view(ps@) == bucket(ks, rules_view(vs), first_seen(ks)[j])) by {
            lemma_bucket_rules(ks, vs, first_seen(ks)[j]);
        }
    }
    ops
}

} // verus!
