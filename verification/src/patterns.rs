//! Permission patterns: permission names with `{name}` holes that are
//! filled from the values a route extracted from its path.

use vstd::prelude::*;
use vstd::string::*;
use crate::text::{replace_spec, replace_all, chars_of, string_of_range};

verus! {

/// `s` holds no brace, so no hole is left to fill.
pub open spec fn complete(s: Seq<char>) -> bool {
    !s.contains('{') && !s.contains('}')
}

/// A permission whose holes are all filled.
pub trait CompletePerm {
    /// Whether no hole is left.
    fn is_complete(&self) -> bool;
}

impl CompletePerm for String {
    /// Whether the string holds neither `{` nor `}`.
    fn is_complete(&self) -> (r: bool)
        ensures
            r == complete(self@),
    {
        let cs = chars_of(self.as_str());
        let mut i: usize = 0;
        while i < cs.len()
            invariant
                i <= cs@.len(),
                cs@ == self@,
                forall|j: int| 0 <= j < i ==> cs@[j] != '{' && cs@[j] != '}',
            decreases cs@.len() - i,
        {
            if cs[i] == '{' || cs[i] == '}' {
                assert(self@[i as int] == cs@[i as int]);
                return false;
            }
            i = i + 1;
        }
        true
    }
}

/// The value of the first pair of `kvs` whose key is `k`.
pub open spec fn kv_get(kvs: Seq<(String, String)>, k: Seq<char>) -> Option<Seq<char>>
    decreases kvs.len(),
{
    if kvs.len() == 0 {
        None
    } else if kvs[0].0@ == k {
        Some(kvs[0].1@)
    } else {
        kv_get(kvs.drop_first(), k)
    }
}

/// The values a route extracted from its path, by name. Names are expected
/// to be unique; where one repeats, the first pair counts.
#[derive(Debug)]
pub struct ExtractedPathKV(pub Vec<(String, String)>);

impl ExtractedPathKV {
    /// The value extracted under `key`.
    pub fn get(&self, key: &String) -> (r: Option<&String>)
        ensures
            match r {
                Some(v) => kv_get(self.0@, key@) == Some(v@),
                None => kv_get(self.0@, key@) is None,
            },
    {
        let mut i: usize = 0;
        assert(self.0@.skip(0) =~= self.0@);
        while i < self.0.len()
            invariant
                i <= self.0@.len(),
                kv_get(self.0@.skip(i as int), key@) == kv_get(self.0@, key@),
            decreases self.0@.len() - i,
        {
            assert(self.0@.skip(i as int).drop_first() =~= self.0@.skip(i + 1));
            if self.0[i].0 == *key {
                return Some(&self.0[i].1);
            }
            i = i + 1;
        }
        assert(self.0@.skip(i as int).len() == 0);
        None
    }
}

/// The marker that route extractors leave; the values go to `ExtractedPathKV`.
pub struct ExtractPath;

/// `p` with each hole of `replace` (the hole with its braces, and its name),
/// in order, replaced by the value extracted under the name, where there is one.
pub open spec fn substitute(p: Seq<char>, replace: Seq<(String, String)>, kvs: Seq<(String, String)>) -> Seq<char>
    decreases replace.len(),
{
    if replace.len() == 0 {
        p
    } else {
        let q = substitute(p, replace.drop_last(), kvs);
        match kv_get(kvs, replace.last().1@) {
            Some(v) => replace_spec(q, replace.last().0@, v),
            None => q,
        }
    }
}

/// Fills the holes of `permission` that `replace` lists from `kvs` (see
/// `substitute`); nothing is filled without extracted values.
pub fn fill_holes(permission: String, replace: &Vec<(String, String)>, kvs: Option<&ExtractedPathKV>) -> (r: String)
    ensures
        r@ == match kvs {
            Some(kv) => substitute(permission@, replace@, kv.0@),
            None => permission@,
        },
{
    match kvs {
        None => permission,
        Some(kv) => {
            let mut p = permission;
            let mut i: usize = 0;
            while i < replace.len()
                invariant
                    i <= replace@.len(),
                    p@ == substitute(permission@, replace@.take(i as int), kv.0@),
                decreases replace@.len() - i,
            {
                assert(replace@.take(i + 1).drop_last() =~= replace@.take(i as int));
                match kv.get(&replace[i].1) {
                    Some(v) => {
                        p = replace_all(p.as_str(), replace[i].0.as_str(), v.as_str());
                    },
                    None => {},
                }
                i = i + 1;
            }
            assert(replace@.take(replace@.len() as int) =~= replace@);
            p
        },
    }
}

/// The position of the first brace of `s` at or after `k`; `s.len()` if none.
pub open spec fn next_brace(s: Seq<char>, k: int) -> int
    decreases s.len() - k,
{
    if k >= s.len() {
        s.len() as int
    } else if s[k] == '{' || s[k] == '}' {
        k
    } else {
        next_brace(s, k + 1)
    }
}

/// The first brace at or after `k` is not before `k`.
pub proof fn lemma_next_brace_bounds(s: Seq<char>, k: int)
    requires
        0 <= k <= s.len(),
    ensures
        k <= next_brace(s, k) <= s.len(),
    decreases s.len() - k,
{
    if k < s.len() && !(s[k] == '{' || s[k] == '}') {
        lemma_next_brace_bounds(s, k + 1);
    }
}

/// The holes of `s` from position `i` on, as `{`, a non-empty name without
/// braces, `}`: each as the hole with its braces and the name, left to right,
/// not overlapping.
pub open spec fn holes_from(s: Seq<char>, i: int) -> Seq<(Seq<char>, Seq<char>)>
    decreases s.len() - i,
{
    if i < 0 || i >= s.len() {
        Seq::empty()
    } else {
        let j = next_brace(s, i + 1);
        proof {
            lemma_next_brace_bounds(s, i + 1);
        }
        if s[i] == '{' && j < s.len() && s[j] == '}' && j > i + 1 {
            seq![(s.subrange(i, j + 1), s.subrange(i + 1, j))] + holes_from(s, j + 1)
        } else {
            holes_from(s, i + 1)
        }
    }
}

/// The holes of `s`.
pub open spec fn holes(s: Seq<char>) -> Seq<(Seq<char>, Seq<char>)> {
    holes_from(s, 0)
}

/// A hole is `{`, its name, and `}`; the name is not empty and holds no brace.
pub open spec fn hole_shaped(h: (Seq<char>, Seq<char>)) -> bool {
    &&& h.0 == seq!['{'] + h.1 + seq!['}']
    &&& h.1.len() > 0
    &&& complete(h.1)
}

/// No brace lies between `k` and the first brace at or after it.
proof fn lemma_next_brace_clear(s: Seq<char>, k: int)
    requires
        0 <= k <= s.len(),
    ensures
        forall|m: int| k <= m < next_brace(s, k) ==> s[m] != '{' && s[m] != '}',
    decreases s.len() - k,
{
    if k < s.len() && !(s[k] == '{' || s[k] == '}') {
        lemma_next_brace_clear(s, k + 1);
    }
}

/// Every hole found from position `i` on is shaped as a hole.
proof fn lemma_holes_from_shaped(s: Seq<char>, i: int)
    ensures
        forall|k: int| 0 <= k < holes_from(s, i).len() ==> #[trigger] hole_shaped(holes_from(s, i)[k]),
    decreases s.len() - i,
{
    if 0 <= i < s.len() {
        lemma_next_brace_bounds(s, i + 1);
        let j = next_brace(s, i + 1);
        if s[i] == '{' && j < s.len() && s[j] == '}' && j > i + 1 {
            lemma_holes_from_shaped(s, j + 1);
            lemma_next_brace_clear(s, i + 1);
            let name = s.subrange(i + 1, j);
            assert(s.subrange(i, j + 1) =~= seq!['{'] + name + seq!['}']);
            assert(!name.contains('{') && !name.contains('}')) by {
                assert forall|m: int| 0 <= m < name.len() implies name[m] != '{' && name[m] != '}' by {
                    assert(name[m] == s[i + 1 + m]);
                }
            }
            let rest = holes_from(s, j + 1);
            assert(holes_from(s, i) == seq![(s.subrange(i, j + 1), name)] + rest);
            assert(hole_shaped((s.subrange(i, j + 1), name)));
            assert forall|k: int| 0 <= k < holes_from(s, i).len() implies #[trigger] hole_shaped(holes_from(s, i)[k]) by {
                if k > 0 {
                    assert(holes_from(s, i)[k] == rest[k - 1]);
                } else {
                    assert(holes_from(s, i)[0] == (s.subrange(i, j + 1), name));
                }
            }
        } else {
            lemma_holes_from_shaped(s, i + 1);
            assert(holes_from(s, i) == holes_from(s, i + 1));
        }
    }
}

/// Every hole of a permission is `{`, a non-empty name without braces, `}`,
/// and the pair holds the hole and its name.
pub proof fn law_holes_well_formed(s: Seq<char>)
    ensures
        forall|k: int| 0 <= k < holes(s).len() ==> #[trigger] hole_shaped(holes(s)[k]),
{
    lemma_holes_from_shaped(s, 0);
}

/// The hole and name of each pair, as character sequences.
pub open spec fn pairs_view(v: Seq<(String, String)>) -> Seq<(Seq<char>, Seq<char>)> {
    v.map_values(|p: (String, String)| (p.0@, p.1@))
}

/// The position of the first brace of `cs` at or after `k`.
fn find_brace(cs: &Vec<char>, k: usize) -> (r: usize)
    requires
        k <= cs@.len(),
    ensures
        r == next_brace(cs@, k as int),
{
    let mut j = k;
    while j < cs.len() && cs[j] != '{' && cs[j] != '}'
        invariant
            k <= j <= cs@.len(),
            next_brace(cs@, j as int) == next_brace(cs@, k as int),
        decreases cs@.len() - j,
    {
        j = j + 1;
    }
    j
}

/// The holes of `permission` (see `holes`), each as the hole with its
/// braces and the name inside.
pub fn pattern_holes(permission: &str) -> (r: Vec<(String, String)>)
    ensures
        pairs_view(r@) == holes(permission@),
{
    let cs = chars_of(permission);
    let mut out: Vec<(String, String)> = Vec::new();
    let mut i: usize = 0;
    while i < cs.len()
        invariant
            i <= cs@.len(),
            cs@ == permission@,
            pairs_view(out@) + holes_from(cs@, i as int) == holes(cs@),
        decreases cs@.len() - i,
    {
        let ghost before = pairs_view(out@);
        if cs[i] == '{' {
            let j = find_brace(&cs, i + 1);
            proof {
                lemma_next_brace_bounds(cs@, i + 1);
            }
            if j < cs.len() && cs[j] == '}' && j > i + 1 {
                let hole = string_of_range(&cs, i, j + 1);
                let name = string_of_range(&cs, i + 1, j);
                out.push((hole, name));
                assert(pairs_view(out@) =~= before.push((cs@.subrange(i as int, j + 1), cs@.subrange(i + 1, j as int))));
                i = j + 1;
            } else {
                i = i + 1;
            }
        } else {
            i = i + 1;
        }
        assert(pairs_view(out@) + holes_from(cs@, i as int) =~= holes(cs@));
    }
    assert(pairs_view(out@) + holes_from(cs@, i as int) =~= pairs_view(out@));
    out
}

/// The hole `{name}`.
pub open spec fn hole_text(name: Seq<char>) -> Seq<char> {
    seq!['{'] + name + seq!['}']
}

/// The pattern made of the text pieces `texts` with the holes named `names`
/// between them: `texts[0]`, the hole `names[0]`, `texts[1]`, ... and the
/// last text piece (`texts` has one piece more than `names`).
pub open spec fn pattern_text(texts: Seq<Seq<char>>, names: Seq<Seq<char>>) -> Seq<char>
    decreases names.len(),
{
    if names.len() == 0 {
        texts[0]
    } else {
        texts[0] + (hole_text(names[0]) + pattern_text(texts.drop_first(), names.drop_first()))
    }
}

/// The same pattern with each hole replaced by the value extracted under
/// its name.
pub open spec fn filled_text(texts: Seq<Seq<char>>, names: Seq<Seq<char>>, kvs: Seq<(String, String)>) -> Seq<char>
    decreases names.len(),
{
    if names.len() == 0 {
        texts[0]
    } else {
        texts[0] + (kv_get(kvs, names[0])->0 + filled_text(texts.drop_first(), names.drop_first(), kvs))
    }
}

/// Each hole of `names` with its braces and its name.
pub open spec fn hole_list(names: Seq<Seq<char>>) -> Seq<(Seq<char>, Seq<char>)> {
    names.map_values(|n: Seq<char>| (hole_text(n), n))
}

/// The pattern with the holes whose names are in `done` replaced by their
/// values and the others left.
spec fn partly_filled(texts: Seq<Seq<char>>, names: Seq<Seq<char>>, kvs: Seq<(String, String)>, done: Set<Seq<char>>) -> Seq<char>
    decreases names.len(),
{
    if names.len() == 0 {
        texts[0]
    } else {
        texts[0] + ((if done.contains(names[0]) { kv_get(kvs, names[0])->0 } else { hole_text(names[0]) })
            + partly_filled(texts.drop_first(), names.drop_first(), kvs, done))
    }
}

/// Text pieces and hole names of a pattern: one more piece than names,
/// no brace in a piece, and each name not empty and without a brace.
pub open spec fn pattern_parts(texts: Seq<Seq<char>>, names: Seq<Seq<char>>) -> bool {
    &&& texts.len() == names.len() + 1
    &&& forall|i: int| 0 <= i < texts.len() ==> complete(#[trigger] texts[i])
    &&& forall|i: int| 0 <= i < names.len() ==> (#[trigger] names[i]).len() > 0 && complete(names[i])
}

/// Every hole name has an extracted value, and no value holds a brace.
pub open spec fn values_for(names: Seq<Seq<char>>, kvs: Seq<(String, String)>) -> bool {
    forall|i: int| 0 <= i < names.len() ==> (#[trigger] kv_get(kvs, names[i])) is Some
        && complete(kv_get(kvs, names[i])->0)
}

proof fn lemma_parts_rest(texts: Seq<Seq<char>>, names: Seq<Seq<char>>, kvs: Seq<(String, String)>)
    requires
        pattern_parts(texts, names),
        names.len() > 0,
    ensures
        pattern_parts(texts.drop_first(), names.drop_first()),
        values_for(names, kvs) ==> values_for(names.drop_first(), kvs),
{
    assert forall|i: int| 0 <= i < texts.drop_first().len() implies complete(#[trigger] texts.drop_first()[i]) by {
        assert(texts.drop_first()[i] == texts[i + 1]);
    }
    assert forall|i: int| 0 <= i < names.drop_first().len() implies (#[trigger] names.drop_first()[i]).len() > 0
        && complete(names.drop_first()[i]) by {
        assert(names.drop_first()[i] == names[i + 1]);
    }
    if values_for(names, kvs) {
        assert forall|i: int| 0 <= i < names.drop_first().len() implies (#[trigger] kv_get(kvs, names.drop_first()[i])) is Some
            && complete(kv_get(kvs, names.drop_first()[i])->0) by {
            assert(names.drop_first()[i] == names[i + 1]);
            assert(kv_get(kvs, names[i + 1]) is Some);
        }
    }
}

proof fn lemma_complete_concat(a: Seq<char>, b: Seq<char>)
    requires
        complete(a),
        complete(b),
    ensures
        complete(a + b),
{
    assert forall|i: int| 0 <= i < (a + b).len() implies (a + b)[i] != '{' && (a + b)[i] != '}' by {
        if i < a.len() {
            assert((a + b)[i] == a[i]);
            assert(a.contains(a[i]));
        } else {
            assert((a + b)[i] == b[i - a.len()]);
            assert(b.contains(b[i - a.len()]));
        }
    }
}

/// The first brace at or after `k` in `a + b`, for `k` in `b`, is that of `b`.
proof fn lemma_next_brace_shift(a: Seq<char>, b: Seq<char>, k: int)
    requires
        0 <= k,
    ensures
        next_brace(a + b, a.len() + k) == a.len() + next_brace(b, k),
    decreases b.len() - k,
{
    if k < b.len() {
        assert((a + b)[a.len() + k] == b[k]);
        lemma_next_brace_shift(a, b, k + 1);
    }
}

/// The holes of `a + b` from a position in `b` on are those of `b`.
proof fn lemma_holes_shift(a: Seq<char>, b: Seq<char>, i: int)
    requires
        0 <= i,
    ensures
        holes_from(a + b, a.len() + i) == holes_from(b, i),
    decreases b.len() - i,
{
    let s = a + b;
    if i < b.len() {
        lemma_next_brace_shift(a, b, i + 1);
        lemma_next_brace_bounds(b, i + 1);
        let j = next_brace(b, i + 1);
        assert(s[a.len() + i] == b[i]);
        if b[i] == '{' && j < b.len() && b[j] == '}' && j > i + 1 {
            assert(s[a.len() + j] == b[j]);
            assert(s.subrange(a.len() + i, a.len() + j + 1) =~= b.subrange(i, j + 1));
            assert(s.subrange(a.len() + i + 1, a.len() + j) =~= b.subrange(i + 1, j));
            lemma_holes_shift(a, b, j + 1);
        } else {
            if j < b.len() {
                assert(s[a.len() + j] == b[j]);
            }
            lemma_holes_shift(a, b, i + 1);
        }
    }
}

/// A piece without braces in front holds no hole.
proof fn lemma_holes_skip_text(t: Seq<char>, b: Seq<char>, i: int)
    requires
        complete(t),
        0 <= i <= t.len(),
    ensures
        holes_from(t + b, i) == holes_from(t + b, t.len() as int),
    decreases t.len() - i,
{
    if i < t.len() {
        assert((t + b)[i] == t[i]);
        assert(t.contains(t[i]));
        lemma_holes_skip_text(t, b, i + 1);
    }
}

/// No brace up to `m`, a brace at `m`: the first brace from `k` is at `m`.
proof fn lemma_next_brace_at(s: Seq<char>, k: int, m: int)
    requires
        0 <= k <= m < s.len(),
        s[m] == '{' || s[m] == '}',
        forall|x: int| k <= x < m ==> s[x] != '{' && s[x] != '}',
    ensures
        next_brace(s, k) == m,
    decreases m - k,
{
    if k < m {
        lemma_next_brace_at(s, k + 1, m);
    }
}

/// The holes of a pattern are its holes, in order.
pub proof fn lemma_pattern_holes(texts: Seq<Seq<char>>, names: Seq<Seq<char>>)
    requires
        pattern_parts(texts, names),
    ensures
        holes(pattern_text(texts, names)) == hole_list(names),
    decreases names.len(),
{
    let t = texts[0];
    assert(complete(texts[0]));
    if names.len() == 0 {
        lemma_holes_skip_text(t, Seq::empty(), 0);
        assert(t + Seq::<char>::empty() =~= t);
        assert(hole_list(names) =~= Seq::<(Seq<char>, Seq<char>)>::empty());
    } else {
        let n = names[0];
        assert(n.len() > 0 && complete(n));
        lemma_parts_rest(texts, names, Seq::empty());
        let rest = pattern_text(texts.drop_first(), names.drop_first());
        lemma_pattern_holes(texts.drop_first(), names.drop_first());
        let x = hole_text(n) + rest;
        let s = t + x;
        lemma_holes_skip_text(t, x, 0);
        lemma_holes_shift(t, x, 0);
        // the hole at the start of x
        let m: int = n.len() + 1int;
        assert(x[0] == '{');
        assert(x[m] == '}');
        assert forall|y: int| 1 <= y < m implies x[y] != '{' && x[y] != '}' by {
            assert(x[y] == n[y - 1]);
            assert(n.contains(n[y - 1]));
        }
        lemma_next_brace_at(x, 1, m);
        assert(x.subrange(0, m + 1) =~= hole_text(n));
        assert(x.subrange(1, m) =~= n);
        lemma_holes_shift(hole_text(n), rest, 0);
        assert(hole_text(n).len() == m + 1);
        assert(holes_from(x, 0) == seq![(hole_text(n), n)] + holes_from(x, m + 1));
        assert(hole_list(names) =~= seq![(hole_text(n), n)] + hole_list(names.drop_first()));
    }
}

/// Replacing a pattern that starts with `{` leaves a front without `{` as it is.
proof fn lemma_replace_skip(a: Seq<char>, b: Seq<char>, pat: Seq<char>, to: Seq<char>)
    requires
        !a.contains('{'),
        pat.len() > 0,
        pat[0] == '{',
    ensures
        replace_spec(a + b, pat, to) == a + replace_spec(b, pat, to),
    decreases a.len(),
{
    if a.len() == 0 {
        assert(a + b =~= b);
        assert(a + replace_spec(b, pat, to) =~= replace_spec(b, pat, to));
    } else {
        let s = a + b;
        assert(s[0] == a[0]);
        assert(a.contains(a[0]));
        assert(!pat.is_prefix_of(s)) by {
            if pat.is_prefix_of(s) {
                assert(pat[0] == s[0]);
            }
        }
        assert(s.drop_first() =~= a.drop_first() + b);
        assert(!a.drop_first().contains('{')) by {
            assert forall|i: int| 0 <= i < a.drop_first().len() implies a.drop_first()[i] != '{' by {
                assert(a.drop_first()[i] == a[i + 1]);
                assert(a.contains(a[i + 1]));
            }
        }
        lemma_replace_skip(a.drop_first(), b, pat, to);
        assert(seq![a[0]] + (a.drop_first() + replace_spec(b, pat, to)) =~= a + replace_spec(b, pat, to));
    }
}

/// Replacing a hole where it stands.
proof fn lemma_replace_here(pat: Seq<char>, b: Seq<char>, to: Seq<char>)
    requires
        pat.len() > 0,
    ensures
        replace_spec(pat + b, pat, to) == to + replace_spec(b, pat, to),
{
    let s = pat + b;
    assert(pat.is_prefix_of(s)) by {
        assert(s.subrange(0, pat.len() as int) =~= pat);
    }
    assert(s.skip(pat.len() as int) =~= b);
}

/// Replacing one hole passes over another one.
proof fn lemma_replace_other_hole(m: Seq<char>, n: Seq<char>, b: Seq<char>, to: Seq<char>)
    requires
        m.len() > 0,
        complete(m),
        n.len() > 0,
        complete(n),
        m != n,
    ensures
        replace_spec(hole_text(m) + b, hole_text(n), to) == hole_text(m) + replace_spec(b, hole_text(n), to),
{
    let s = hole_text(m) + b;
    let pat = hole_text(n);
    assert(!pat.is_prefix_of(s)) by {
        if pat.is_prefix_of(s) {
            if n.len() < m.len() {
                assert(pat[n.len() + 1int] == '}');
                assert(s[n.len() + 1int] == m[n.len() as int]);
                assert(m.contains(m[n.len() as int]));
            } else if n.len() > m.len() {
                assert(s[m.len() + 1int] == '}');
                assert(pat[m.len() + 1int] == n[m.len() as int]);
                assert(n.contains(n[m.len() as int]));
            } else {
                assert forall|i: int| 0 <= i < n.len() implies n[i] == m[i] by {
                    assert(pat[i + 1] == n[i]);
                    assert(s[i + 1] == m[i]);
                }
                assert(n =~= m);
            }
        }
    }
    assert(s[0] == '{');
    let tail = m + seq!['}'];
    assert(s.drop_first() =~= tail + b);
    assert(!tail.contains('{')) by {
        assert forall|i: int| 0 <= i < tail.len() implies tail[i] != '{' by {
            if i < m.len() {
                assert(tail[i] == m[i]);
                assert(m.contains(m[i]));
            }
        }
    }
    lemma_replace_skip(tail, b, pat, to);
    assert(seq!['{'] + (tail + replace_spec(b, pat, to)) =~= hole_text(m) + replace_spec(b, pat, to));
}

/// Replacing the hole `{n}` by its value fills every hole named `n`.
proof fn lemma_replace_fills(texts: Seq<Seq<char>>, names: Seq<Seq<char>>, kvs: Seq<(String, String)>, done: Set<Seq<char>>, n: Seq<char>)
    requires
        pattern_parts(texts, names),
        values_for(names, kvs),
        n.len() > 0,
        complete(n),
    ensures
        replace_spec(partly_filled(texts, names, kvs, done), hole_text(n), kv_get(kvs, n)->0)
            == partly_filled(texts, names, kvs, done.insert(n)),
    decreases names.len(),
{
    let pat = hole_text(n);
    let v = kv_get(kvs, n)->0;
    let t = texts[0];
    assert(complete(texts[0]));
    assert(pat[0] == '{');
    if names.len() == 0 {
        lemma_replace_skip(t, Seq::empty(), pat, v);
        assert(t + Seq::<char>::empty() =~= t);
        assert(replace_spec(Seq::<char>::empty(), pat, v) =~= Seq::<char>::empty());
        assert(t + Seq::<char>::empty() =~= t);
    } else {
        let n0 = names[0];
        assert(n0.len() > 0 && complete(n0));
        assert(kv_get(kvs, names[0]) is Some && complete(kv_get(kvs, names[0])->0));
        lemma_parts_rest(texts, names, kvs);
        let rest = partly_filled(texts.drop_first(), names.drop_first(), kvs, done);
        let rest2 = partly_filled(texts.drop_first(), names.drop_first(), kvs, done.insert(n));
        lemma_replace_fills(texts.drop_first(), names.drop_first(), kvs, done, n);
        let piece = if done.contains(n0) { kv_get(kvs, n0)->0 } else { hole_text(n0) };
        lemma_replace_skip(t, piece + rest, pat, v);
        if done.contains(n0) {
            lemma_replace_skip(piece, rest, pat, v);
        } else if n0 == n {
            lemma_replace_here(pat, rest, v);
        } else {
            lemma_replace_other_hole(n0, n, rest, v);
        }
    }
}

/// With every hole named in `done`, the pattern is filled.
proof fn lemma_all_filled(texts: Seq<Seq<char>>, names: Seq<Seq<char>>, kvs: Seq<(String, String)>, done: Set<Seq<char>>)
    requires
        texts.len() == names.len() + 1,
        forall|i: int| 0 <= i < names.len() ==> done.contains(#[trigger] names[i]),
    ensures
        partly_filled(texts, names, kvs, done) == filled_text(texts, names, kvs),
    decreases names.len(),
{
    if names.len() > 0 {
        assert(done.contains(names[0]));
        assert forall|i: int| 0 <= i < names.drop_first().len() implies done.contains(#[trigger] names.drop_first()[i]) by {
            assert(names.drop_first()[i] == names[i + 1]);
        }
        lemma_all_filled(texts.drop_first(), names.drop_first(), kvs, done);
    }
}

/// With no hole named in `done`, nothing is filled.
proof fn lemma_none_filled(texts: Seq<Seq<char>>, names: Seq<Seq<char>>, kvs: Seq<(String, String)>)
    requires
        texts.len() == names.len() + 1,
    ensures
        partly_filled(texts, names, kvs, Set::empty()) == pattern_text(texts, names),
    decreases names.len(),
{
    if names.len() > 0 {
        lemma_none_filled(texts.drop_first(), names.drop_first(), kvs);
    }
}

/// A filled pattern holds no brace.
proof fn lemma_filled_complete(texts: Seq<Seq<char>>, names: Seq<Seq<char>>, kvs: Seq<(String, String)>)
    requires
        pattern_parts(texts, names),
        values_for(names, kvs),
    ensures
        complete(filled_text(texts, names, kvs)),
    decreases names.len(),
{
    assert(complete(texts[0]));
    if names.len() > 0 {
        lemma_parts_rest(texts, names, kvs);
        lemma_filled_complete(texts.drop_first(), names.drop_first(), kvs);
        assert(kv_get(kvs, names[0]) is Some && complete(kv_get(kvs, names[0])->0));
        lemma_complete_concat(kv_get(kvs, names[0])->0, filled_text(texts.drop_first(), names.drop_first(), kvs));
        lemma_complete_concat(texts[0], kv_get(kvs, names[0])->0 + filled_text(texts.drop_first(), names.drop_first(), kvs));
    }
}

/// The names of the first `j` holes.
spec fn filled_names(names: Seq<Seq<char>>, j: int) -> Set<Seq<char>> {
    Set::new(|x: Seq<char>| exists|i: int| 0 <= i < j && names[i] == x)
}

/// Filling the first `j` holes fills every hole named like one of them.
proof fn lemma_substitute_prefix(
    texts: Seq<Seq<char>>,
    names: Seq<Seq<char>>,
    replace: Seq<(String, String)>,
    kvs: Seq<(String, String)>,
    j: int,
)
    requires
        pattern_parts(texts, names),
        values_for(names, kvs),
        pairs_view(replace) == hole_list(names),
        0 <= j <= names.len(),
    ensures
        substitute(pattern_text(texts, names), replace.take(j), kvs)
            == partly_filled(texts, names, kvs, filled_names(names, j)),
    decreases j,
{
    let p = pattern_text(texts, names);
    assert(replace.len() == names.len()) by {
        assert(pairs_view(replace).len() == replace.len());
    }
    if j == 0 {
        lemma_none_filled(texts, names, kvs);
        assert(replace.take(0) =~= Seq::<(String, String)>::empty());
        assert(filled_names(names, 0) =~= Set::<Seq<char>>::empty());
    } else {
        let k = j - 1;
        lemma_substitute_prefix(texts, names, replace, kvs, k);
        assert(filled_names(names, j) =~= filled_names(names, k).insert(names[k]));
        assert(replace.take(j).drop_last() =~= replace.take(k));
        assert(replace.take(j).last() == replace[k]);
        assert(pairs_view(replace)[k] == (replace[k].0@, replace[k].1@));
        assert(hole_list(names)[k] == (hole_text(names[k]), names[k]));
        assert(names[k].len() > 0 && complete(names[k]));
        assert(kv_get(kvs, names[k]) is Some);
        lemma_replace_fills(texts, names, kvs, filled_names(names, k), names[k]);
    }
}

/// Filling the holes of a pattern replaces every one of them: where the
/// pattern is text pieces without braces with holes between them, the holes
/// to fill are the pattern's own (as `pattern_holes` lists them), and each
/// hole's name has an extracted value without braces, the filled permission
/// is the pattern with each hole replaced by its value, and holds no brace.
pub proof fn law_fill_every_hole(
    texts: Seq<Seq<char>>,
    names: Seq<Seq<char>>,
    replace: Seq<(String, String)>,
    kvs: Seq<(String, String)>,
)
    requires
        pattern_parts(texts, names),
        values_for(names, kvs),
        pairs_view(replace) == holes(pattern_text(texts, names)),
    ensures
        holes(pattern_text(texts, names)) == hole_list(names),
        substitute(pattern_text(texts, names), replace, kvs) == filled_text(texts, names, kvs),
        complete(substitute(pattern_text(texts, names), replace, kvs)),
{
    lemma_pattern_holes(texts, names);
    let p = pattern_text(texts, names);
    assert(replace.len() == names.len()) by {
        assert(pairs_view(replace).len() == replace.len());
    }
    let n = names.len() as int;
    lemma_substitute_prefix(texts, names, replace, kvs, n);
    assert(replace.take(n) =~= replace);
    lemma_all_filled(texts, names, kvs, filled_names(names, n));
    lemma_filled_complete(texts, names, kvs);
}

} // verus!
