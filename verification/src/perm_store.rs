//! The decisions of the permission store that keeps paths in a database
//! and their identifiers in a cache.

use vstd::prelude::*;
use crate::strset::{string_set, strings_contain};

verus! {

/// The characters of each string of `v`.
pub open spec fn texts(v: Seq<String>) -> Seq<Seq<char>> {
    v.map_values(|s: String| s@)
}

/// The paths of `ps` to insert, given whether each is already cached
/// (`cached`, at the same positions): those not cached, each once, in the
/// order of their first occurrence.
pub open spec fn fresh_paths(ps: Seq<Seq<char>>, cached: Seq<bool>) -> Seq<Seq<char>>
    decreases ps.len(),
{
    if ps.len() == 0 || cached.len() == 0 {
        Seq::empty()
    } else {
        let prev = fresh_paths(ps.drop_last(), cached.drop_last());
        if cached.last() || prev.contains(ps.last()) {
            prev
        } else {
            prev.push(ps.last())
        }
    }
}

/// The paths of `perms` to insert (see `fresh_paths`), where `cached[i]`
/// says whether `perms[i]` already has an identifier in the cache.
pub fn paths_to_insert(perms: &Vec<String>, cached: &Vec<bool>) -> (r: Vec<String>)
    requires
        cached@.len() == perms@.len(),
    ensures
        texts(r@) == fresh_paths(texts(perms@), cached@),
{
    let mut out: Vec<String> = Vec::new();
    let mut i: usize = 0;
    while i < perms.len()
        invariant
            i <= perms@.len(),
            cached@.len() == perms@.len(),
            texts(out@) == fresh_paths(texts(perms@).take(i as int), cached@.take(i as int)),
        decreases perms@.len() - i,
    {
        let ghost prev = texts(out@);
        proof {
            assert(texts(perms@).take(i + 1).drop_last() =~= texts(perms@).take(i as int));
            assert(cached@.take(i + 1).drop_last() =~= cached@.take(i as int));
            assert(texts(perms@).take(i + 1).last() == perms@[i as int]@);
            assert(cached@.take(i + 1).last() == cached@[i as int]);
            assert(string_set(out@).contains(perms@[i as int]@) == prev.contains(perms@[i as int]@)) by {
                if prev.contains(perms@[i as int]@) {
                    let k = choose|k: int| 0 <= k < prev.len() && prev[k] == perms@[i as int]@;
                    assert(out@[k]@ == perms@[i as int]@);
                }
                if string_set(out@).contains(perms@[i as int]@) {
                    let k = choose|k: int| 0 <= k < out@.len() && (#[trigger] out@[k])@ == perms@[i as int]@;
                    assert(prev[k] == perms@[i as int]@);
                }
            }
        }
        if !cached[i] && !strings_contain(&out, &perms[i]) {
            out.push(perms[i].clone());
            proof {
                assert(texts(out@) =~= prev.push(perms@[i as int]@));
            }
        }
        i = i + 1;
    }
    proof {
        assert(texts(perms@).take(perms@.len() as int) =~= texts(perms@));
        assert(cached@.take(perms@.len() as int) =~= cached@);
    }
    out
}

/// Each path is inserted at most once: what `paths_to_insert` picks holds no
/// repeated path and no cached one.
pub proof fn law_fresh_paths_distinct(ps: Seq<Seq<char>>, cached: Seq<bool>)
    requires
        ps.len() == cached.len(),
    ensures
        fresh_paths(ps, cached).no_duplicates(),
        forall|i: int| 0 <= i < ps.len() && !cached[i] ==> fresh_paths(ps, cached).contains(#[trigger] ps[i]),
    decreases ps.len(),
{
    if ps.len() > 0 {
        law_fresh_paths_distinct(ps.drop_last(), cached.drop_last());
        let prev = fresh_paths(ps.drop_last(), cached.drop_last());
        assert forall|i: int| 0 <= i < ps.len() && !cached[i] implies fresh_paths(ps, cached).contains(#[trigger] ps[i]) by {
            if i < ps.len() - 1 {
                assert(ps.drop_last()[i] == ps[i]);
                assert(cached.drop_last()[i] == cached[i]);
                assert(prev.contains(ps[i]));
                if !(cached.last() || prev.contains(ps.last())) {
                    let k = choose|k: int| 0 <= k < prev.len() && prev[k] == ps[i];
                    assert(prev.push(ps.last())[k] == ps[i]);
                }
            } else {
                if !prev.contains(ps.last()) {
                    assert(prev.push(ps.last())[prev.len() as int] == ps[i]);
                }
            }
        }
    }
}

} // verus!
