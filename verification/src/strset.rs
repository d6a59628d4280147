//! Sets of strings held in a vector without repetitions.

use vstd::prelude::*;

verus! {

/// The strings that `v` holds, as character sequences.
pub open spec fn string_set(v: Seq<String>) -> Set<Seq<char>> {
    Set::new(|s: Seq<char>| exists|i: int| 0 <= i < v.len() && (#[trigger] v[i])@ == s)
}

/// No string occurs twice in `v`.
pub open spec fn distinct_strings(v: Seq<String>) -> bool {
    forall|i: int, j: int| 0 <= i < j < v.len() ==> (#[trigger] v[i])@ != (#[trigger] v[j])@
}

/// The position of `x` in `v`, if it is there.
pub fn string_position(v: &Vec<String>, x: &String) -> (r: Option<usize>)
    ensures
        match r {
            Some(i) => i < v@.len() && v@[i as int]@ == x@,
            None => !string_set(v@).contains(x@),
        },
{
    let mut i: usize = 0;
    while i < v.len()
        invariant
            i <= v@.len(),
            forall|j: int| 0 <= j < i ==> (#[trigger] v@[j])@ != x@,
        decreases v@.len() - i,
    {
        if v[i] == *x {
            return Some(i);
        }
        i = i + 1;
    }
    None
}

/// Whether `v` holds `x`.
pub fn strings_contain(v: &Vec<String>, x: &String) -> (r: bool)
    ensures
        r == string_set(v@).contains(x@),
{
    match string_position(v, x) {
        Some(i) => {
            assert(v@[i as int]@ == x@);
            true
        },
        None => false,
    }
}

/// Adds `x` to the set that `v` holds.
pub fn strings_insert(v: &mut Vec<String>, x: String)
    requires
        distinct_strings(old(v)@),
    ensures
        distinct_strings(final(v)@),
        string_set(final(v)@) == string_set(old(v)@).insert(x@),
{
    match string_position(v, &x) {
        Some(i) => {
            assert(v@[i as int]@ == x@);
            assert(string_set(v@).insert(x@) =~= string_set(v@));
        },
        None => {
            let ghost before = v@;
            v.push(x);
            assert forall|s: Seq<char>| string_set(v@).contains(s) == string_set(before).insert(x@).contains(s) by {
                if string_set(before).contains(s) {
                    let i = choose|i: int| 0 <= i < before.len() && (#[trigger] before[i])@ == s;
                    assert(v@[i] == before[i]);
                }
                if s == x@ {
                    assert(v@[before.len() as int]@ == s);
                }
                if string_set(v@).contains(s) {
                    let i = choose|i: int| 0 <= i < v@.len() && (#[trigger] v@[i])@ == s;
                    if i < before.len() {
                        assert(v@[i] == before[i]);
                    }
                }
            }
            assert(string_set(v@) =~= string_set(before).insert(x@));
            assert forall|i: int, j: int| 0 <= i < j < v@.len() implies (#[trigger] v@[i])@ != (#[trigger] v@[j])@ by {
                assert(v@[i] == before[i]);
                if j < before.len() {
                    assert(v@[j] == before[j]);
                }
            }
        },
    }
}

/// Takes `x` out of the set that `v` holds.
pub fn strings_remove(v: &mut Vec<String>, x: &String)
    requires
        distinct_strings(old(v)@),
    ensures
        distinct_strings(final(v)@),
        string_set(final(v)@) == string_set(old(v)@).remove(x@),
{
    match string_position(v, x) {
        None => {
            assert(string_set(v@).remove(x@) =~= string_set(v@));
        },
        Some(i) => {
            let ghost before = v@;
            v.remove(i);
            assert forall|j: int| 0 <= j < v@.len() implies #[trigger] v@[j] == before[if j < i { j } else { j + 1 }] by {}
            assert forall|s: Seq<char>| string_set(v@).contains(s) == string_set(before).remove(x@).contains(s) by {
                if string_set(v@).contains(s) {
                    let j = choose|j: int| 0 <= j < v@.len() && (#[trigger] v@[j])@ == s;
                    let src = if j < i { j } else { j + 1 };
                    assert(v@[j] == before[src]);
                    assert(src != i);
                    if s == x@ {
                        if src < i {
                            assert(before[src]@ != before[i as int]@);
                        } else {
                            assert(before[i as int]@ != before[src]@);
                        }
                    }
                }
                if string_set(before).remove(x@).contains(s) {
                    let k = choose|k: int| 0 <= k < before.len() && (#[trigger] before[k])@ == s;
                    assert(k != i);
                    let dst = if k < i { k } else { k - 1 };
                    assert(v@[dst] == before[k]);
                }
            }
            assert(string_set(v@) =~= string_set(before).remove(x@));
            assert forall|a: int, b: int| 0 <= a < b < v@.len() implies (#[trigger] v@[a])@ != (#[trigger] v@[b])@ by {
                assert(v@[a] == before[if a < i { a } else { a + 1 }]);
                assert(v@[b] == before[if b < i { b } else { b + 1 }]);
            }
        },
    }
}

/// Adds every string of `xs` to the set that `v` holds.
pub fn strings_insert_all(v: &mut Vec<String>, xs: Vec<String>)
    requires
        distinct_strings(old(v)@),
    ensures
        distinct_strings(final(v)@),
        string_set(final(v)@) == string_set(old(v)@).union(string_set(xs@)),
{
    let ghost start = string_set(v@);
    let mut i: usize = 0;
    while i < xs.len()
        invariant
            i <= xs@.len(),
            distinct_strings(v@),
            string_set(v@) == start.union(string_set(xs@.take(i as int))),
        decreases xs@.len() - i,
    {
        let x = xs[i].clone();
        strings_insert(v, x);
        proof {
            lemma_string_set_take_step(xs@, i as int);
        }
        i = i + 1;
    }
    assert(xs@.take(i as int) =~= xs@);
}

/// Takes every string of `xs` out of the set that `v` holds.
pub fn strings_remove_all(v: &mut Vec<String>, xs: &Vec<String>)
    requires
        distinct_strings(old(v)@),
    ensures
        distinct_strings(final(v)@),
        string_set(final(v)@) == string_set(old(v)@).difference(string_set(xs@)),
{
    let ghost start = string_set(v@);
    let mut i: usize = 0;
    while i < xs.len()
        invariant
            i <= xs@.len(),
            distinct_strings(v@),
            string_set(v@) == start.difference(string_set(xs@.take(i as int))),
        decreases xs@.len() - i,
    {
        strings_remove(v, &xs[i]);
        proof {
            lemma_string_set_take_step(xs@, i as int);
        }
        assert(string_set(v@) =~= start.difference(string_set(xs@.take(i + 1))));
        i = i + 1;
    }
    assert(xs@.take(i as int) =~= xs@);
}

/// Whether `a` and `b` hold the same strings.
pub fn same_strings(a: &Vec<String>, b: &Vec<String>) -> (r: bool)
    ensures
        r == (string_set(a@) == string_set(b@)),
{
    let mut i: usize = 0;
    while i < a.len()
        invariant
            i <= a@.len(),
            forall|j: int| 0 <= j < i ==> string_set(b@).contains((#[trigger] a@[j])@),
        decreases a@.len() - i,
    {
        if !strings_contain(b, &a[i]) {
            assert(string_set(a@).contains(a@[i as int]@));
            return false;
        }
        i = i + 1;
    }
    let mut i: usize = 0;
    while i < b.len()
        invariant
            i <= b@.len(),
            forall|j: int| 0 <= j < a@.len() ==> string_set(b@).contains((#[trigger] a@[j])@),
            forall|j: int| 0 <= j < i ==> string_set(a@).contains((#[trigger] b@[j])@),
        decreases b@.len() - i,
    {
        if !strings_contain(a, &b[i]) {
            assert(string_set(b@).contains(b@[i as int]@));
            return false;
        }
        i = i + 1;
    }
    proof {
        assert forall|s: Seq<char>| string_set(a@).contains(s) == string_set(b@).contains(s) by {
            if string_set(a@).contains(s) {
                let j = choose|j: int| 0 <= j < a@.len() && (#[trigger] a@[j])@ == s;
            }
            if string_set(b@).contains(s) {
                let j = choose|j: int| 0 <= j < b@.len() && (#[trigger] b@[j])@ == s;
            }
        }
        assert(string_set(a@) =~= string_set(b@));
    }
    true
}

/// The empty set.
pub proof fn lemma_string_set_empty(v: Seq<String>)
    requires
        v.len() == 0,
    ensures
        string_set(v) == Set::<Seq<char>>::empty(),
        distinct_strings(v),
{
    assert(string_set(v) =~= Set::<Seq<char>>::empty());
}

/// Taking one more string of `xs` adds that string to the set taken so far.
pub proof fn lemma_string_set_take_step(xs: Seq<String>, i: int)
    requires
        0 <= i < xs.len(),
    ensures
        string_set(xs.take(i + 1)) == string_set(xs.take(i)).insert(xs[i]@),
{
    assert forall|s: Seq<char>| string_set(xs.take(i + 1)).contains(s) == string_set(xs.take(i)).insert(xs[i]@).contains(s) by {
        if string_set(xs.take(i + 1)).contains(s) {
            let j = choose|j: int| 0 <= j < i + 1 && (#[trigger] xs.take(i + 1)[j])@ == s;
            if j < i {
                assert(xs.take(i)[j] == xs.take(i + 1)[j]);
            }
        }
        if string_set(xs.take(i)).contains(s) {
            let j = choose|j: int| 0 <= j < i && (#[trigger] xs.take(i)[j])@ == s;
            assert(xs.take(i)[j] == xs.take(i + 1)[j]);
        }
        if s == xs[i]@ {
            assert(xs.take(i + 1)[i] == xs[i]);
        }
    }
    assert(string_set(xs.take(i + 1)) =~= string_set(xs.take(i)).insert(xs[i]@));
}

/// The strings of a whole sequence, taken up to its length.
pub proof fn lemma_string_set_take_all(xs: Seq<String>)
    ensures
        string_set(xs.take(xs.len() as int)) == string_set(xs),
{
    assert(xs.take(xs.len() as int) =~= xs);
}

/// Nothing is taken from the first zero strings.
pub proof fn lemma_string_set_take_none(xs: Seq<String>)
    ensures
        string_set(xs.take(0)) == Set::<Seq<char>>::empty(),
{
    assert(string_set(xs.take(0)) =~= Set::<Seq<char>>::empty());
}

} // verus!
