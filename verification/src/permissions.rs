//! The permission rule tree: rules keyed by permission path, looked up with
//! `?` (exactly one segment) and `*` (one or more segments) wildcards.

use vstd::prelude::*;
use vstd::string::*;
use crate::path::{PermissionPath, path_parts, segments_of};

verus! {

/// How specific the rule was that decided a lookup:
/// `Wildcard` (a `*` took part) < `Any` (a `?` took part) < `Exact`.
#[derive(Clone, Copy, Debug, PartialEq, Eq, Structural)]
pub enum MatchType {
    Wildcard,
    Any,
    Exact,
}

impl MatchType {
    /// The order of specificity: `Wildcard` 0, `Any` 1, `Exact` 2.
    pub open spec fn rank(self) -> int {
        match self {
            MatchType::Wildcard => 0,
            MatchType::Any => 1,
            MatchType::Exact => 2,
        }
    }

    /// The specificity of this match as a number (see `rank`).
    pub fn level(&self) -> (r: u8)
        ensures
            r == self.rank(),
    {
        match self {
            MatchType::Wildcard => 0,
            MatchType::Any => 1,
            MatchType::Exact => 2,
        }
    }
}

/// A set of rules: each permission path that carries a rule, and whether
/// the rule allows it.
pub type Rules = Map<Seq<Seq<char>>, bool>;

/// The rules below the segment `k`, with `k` taken off their paths.
pub open spec fn sub_rules(m: Rules, k: Seq<char>) -> Rules {
    Map::new(|q: Seq<Seq<char>>| m.contains_key(seq![k] + q), |q: Seq<Seq<char>>| m[seq![k] + q])
}

/// The rule set holds at least one rule.
pub open spec fn has_rules(m: Rules) -> bool {
    exists|q: Seq<Seq<char>>| m.contains_key(q)
}

/// The segment `?`, which stands for exactly one segment.
pub open spec fn any_segment() -> Seq<char> {
    seq!['?']
}

/// The segment `*`, which stands for one or more segments.
pub open spec fn star_segment() -> Seq<char> {
    seq!['*']
}

/// A result found through a `?`: an exact match counts as `Any`.
pub open spec fn through_any(r: Option<(bool, MatchType)>) -> Option<(bool, MatchType)> {
    match r {
        Some((b, MatchType::Exact)) => Some((b, MatchType::Any)),
        _ => r,
    }
}

/// A result found through a `*` counts as `Wildcard`.
pub open spec fn through_star(r: Option<(bool, MatchType)>) -> Option<(bool, MatchType)> {
    match r {
        Some((b, _)) => Some((b, MatchType::Wildcard)),
        None => None,
    }
}

/// The rule that decides `p` in `m`, and how it matched. At each segment the
/// exact segment is tried first, then `?`, then `*` covering one segment,
/// two segments, and so on; the first that decides wins.
pub open spec fn resolve(m: Rules, p: Seq<Seq<char>>) -> Option<(bool, MatchType)>
    decreases p.len(), 0nat, 0nat,
{
    if p.len() == 0 {
        if m.contains_key(p) {
            Some((m[p], MatchType::Exact))
        } else {
            None
        }
    } else {
        let rest = p.drop_first();
        let exact = resolve(sub_rules(m, p[0]), rest);
        if exact is Some {
            exact
        } else {
            let any = through_any(resolve(sub_rules(m, any_segment()), rest));
            if any is Some {
                any
            } else {
                through_star(resolve_star(sub_rules(m, star_segment()), rest, 0))
            }
        }
    }
}

/// Below a `*` that took the current segment: the first of
/// `rest.skip(from)`, `rest.skip(from + 1)`, ... up to the empty rest that
/// `m` decides.
pub open spec fn resolve_star(m: Rules, rest: Seq<Seq<char>>, from: nat) -> Option<(bool, MatchType)>
    decreases rest.len(), 1nat, rest.len() + 1 - from,
{
    if from > rest.len() {
        None
    } else {
        let r = resolve(m, rest.skip(from as int));
        if r is Some {
            r
        } else {
            resolve_star(m, rest, from + 1)
        }
    }
}

/// A rule set with no rules decides nothing.
pub proof fn lemma_resolve_empty(p: Seq<Seq<char>>)
    ensures
        resolve(Map::empty(), p) is None,
    decreases p.len(), 0nat, 0nat,
{
    if p.len() > 0 {
        let rest = p.drop_first();
        assert(sub_rules(Map::empty(), p[0]) =~= Map::empty());
        assert(sub_rules(Map::empty(), any_segment()) =~= Map::empty());
        assert(sub_rules(Map::empty(), star_segment()) =~= Map::empty());
        lemma_resolve_empty(rest);
        lemma_resolve_star_empty(rest, 0);
    }
}

/// A rule set with no rules decides nothing below a `*` either.
pub proof fn lemma_resolve_star_empty(rest: Seq<Seq<char>>, from: nat)
    ensures
        resolve_star(Map::empty(), rest, from) is None,
    decreases rest.len(), 1nat, rest.len() + 1 - from,
{
    if from <= rest.len() {
        lemma_resolve_empty(rest.skip(from as int));
        lemma_resolve_star_empty(rest, from + 1);
    }
}

/// A node of the rule tree: an optional rule for the path that leads here,
/// and the child nodes, each under one segment.
#[derive(Debug)]
pub struct PermissionRuleNode {
    children: Vec<(String, PermissionRuleNode)>,
    enabled: Option<bool>,
}

/// The position of the last child of `ch` under segment `k`, or -1.
pub closed spec fn child_pos(ch: Seq<(String, PermissionRuleNode)>, k: Seq<char>) -> int
    decreases ch.len(),
{
    if ch.len() == 0 {
        -1
    } else if ch.last().0@ == k {
        ch.len() - 1
    } else {
        child_pos(ch.drop_last(), k)
    }
}

/// The rule stored at path `q` below `node`, if any.
pub closed spec fn entry(node: PermissionRuleNode, q: Seq<Seq<char>>) -> Option<bool>
    decreases q.len(),
{
    if q.len() == 0 {
        node.enabled
    } else {
        let c = child_pos(node.children@, q[0]);
        if c < 0 {
            None
        } else {
            entry(node.children@[c].1, q.drop_first())
        }
    }
}

impl View for PermissionRuleNode {
    type V = Rules;

    /// The rules that the tree holds.
    closed spec fn view(&self) -> Rules {
        Map::new(|q: Seq<Seq<char>>| entry(*self, q) is Some, |q: Seq<Seq<char>>| entry(*self, q)->0)
    }
}

proof fn lemma_child_pos(ch: Seq<(String, PermissionRuleNode)>, k: Seq<char>)
    ensures
        -1 <= child_pos(ch, k) < ch.len(),
        child_pos(ch, k) >= 0 ==> ch[child_pos(ch, k)].0@ == k,
        child_pos(ch, k) < 0 ==> forall|j: int| 0 <= j < ch.len() ==> (#[trigger] ch[j]).0@ != k,
        forall|j: int| child_pos(ch, k) < j < ch.len() ==> (#[trigger] ch[j]).0@ != k,
    decreases ch.len(),
{
    if ch.len() > 0 && ch.last().0@ != k {
        let d = ch.drop_last();
        lemma_child_pos(d, k);
        assert forall|j: int| child_pos(ch, k) < j < ch.len() implies (#[trigger] ch[j]).0@ != k by {
            if j < ch.len() - 1 {
                assert(ch[j] == d[j]);
            }
        }
    }
}

/// The rules under segment `k` of a node are those of its child under `k`,
/// or none where there is no such child.
proof fn lemma_view_child(node: PermissionRuleNode, k: Seq<char>)
    ensures
        child_pos(node.children@, k) >= 0 ==> sub_rules(node@, k) == node.children@[child_pos(node.children@, k)].1@,
        child_pos(node.children@, k) < 0 ==> sub_rules(node@, k) == Map::<Seq<Seq<char>>, bool>::empty(),
{
    let c = child_pos(node.children@, k);
    assert forall|q: Seq<Seq<char>>| #[trigger] entry(node, seq![k] + q) == (if c < 0 { None } else { entry(node.children@[c].1, q) }) by {
        assert((seq![k] + q).drop_first() =~= q);
        assert((seq![k] + q)[0] == k);
    }
    if c >= 0 {
        assert(sub_rules(node@, k) =~= node.children@[c].1@);
    } else {
        assert(sub_rules(node@, k) =~= Map::<Seq<Seq<char>>, bool>::empty());
    }
}

/// Two rule sets that agree on the root rule and below every segment are equal.
pub proof fn lemma_rules_ext(m1: Rules, m2: Rules)
    requires
        m1.contains_key(Seq::empty()) == m2.contains_key(Seq::empty()),
        m1.contains_key(Seq::empty()) ==> m1[Seq::empty()] == m2[Seq::empty()],
        forall|k: Seq<char>| #[trigger] sub_rules(m1, k) == sub_rules(m2, k),
    ensures
        m1 == m2,
{
    assert forall|q: Seq<Seq<char>>| #[trigger] m1.dom().contains(q) == m2.dom().contains(q)
        && (m1.dom().contains(q) ==> m1[q] == m2[q]) by {
        if q.len() == 0 {
            assert(q =~= Seq::<Seq<char>>::empty());
        } else {
            let k = q[0];
            let t = q.drop_first();
            assert(q =~= seq![k] + t);
            assert(sub_rules(m1, k) == sub_rules(m2, k));
            assert(sub_rules(m1, k).contains_key(t) == m1.contains_key(seq![k] + t));
            assert(sub_rules(m2, k).contains_key(t) == m2.contains_key(seq![k] + t));
            if m1.contains_key(q) {
                assert(sub_rules(m1, k)[t] == m1[seq![k] + t]);
                assert(sub_rules(m2, k)[t] == m2[seq![k] + t]);
            }
        }
    }
    assert(m1.dom() =~= m2.dom());
    assert(m1 =~= m2);
}

/// Inserting a rule at a path below segment `p[0]` changes only the rules below `p[0]`.
pub proof fn lemma_sub_insert(m: Rules, p: Seq<Seq<char>>, b: bool, k: Seq<char>)
    requires
        p.len() > 0,
    ensures
        k == p[0] ==> sub_rules(m.insert(p, b), k) == sub_rules(m, k).insert(p.drop_first(), b),
        k != p[0] ==> sub_rules(m.insert(p, b), k) == sub_rules(m, k),
{
    assert(p =~= seq![p[0]] + p.drop_first());
    assert forall|q: Seq<Seq<char>>| (seq![k] + q == p) == (k == p[0] && q == p.drop_first()) by {
        if seq![k] + q == p {
            assert((seq![k] + q)[0] == k);
            assert((seq![k] + q).drop_first() =~= q);
        }
    }
    if k == p[0] {
        assert(sub_rules(m.insert(p, b), k) =~= sub_rules(m, k).insert(p.drop_first(), b));
    } else {
        assert(sub_rules(m.insert(p, b), k) =~= sub_rules(m, k));
    }
}

/// The root rule of a tree is the rule of its root node.
proof fn lemma_view_root(node: PermissionRuleNode)
    ensures
        node@.contains_key(Seq::empty()) == (node.enabled is Some),
        node.enabled is Some ==> node@[Seq::empty()] == node.enabled->0,
{
    assert(entry(node, Seq::empty()) == node.enabled);
}

/// With at most one child per segment, the child under `k` is found at any
/// position whose segment is `k`.
proof fn lemma_child_pos_distinct(ch: Seq<(String, PermissionRuleNode)>, k: Seq<char>, j: int)
    requires
        0 <= j < ch.len(),
        ch[j].0@ == k,
        forall|a: int, b: int| 0 <= a < b < ch.len() ==> (#[trigger] ch[a]).0@ != (#[trigger] ch[b]).0@,
    ensures
        child_pos(ch, k) == j,
{
    lemma_child_pos(ch, k);
    let c = child_pos(ch, k);
    if c != j {
        if c < j {
            assert(ch[c].0@ != ch[j].0@);
        }
    }
}

/// Every segment has at most one child of `node`.
pub closed spec fn distinct_children(node: PermissionRuleNode) -> bool {
    forall|a: int, b: int|
        0 <= a < b < node.children@.len() ==> (#[trigger] node.children@[a]).0@ != (#[trigger] node.children@[b]).0@
}

/// Replacing the child at position `c` by `x` changes the rules below its
/// segment to those of `x` and keeps every other segment's rules.
proof fn lemma_update_child(old: PermissionRuleNode, fin: PermissionRuleNode, c: int, x: PermissionRuleNode)
    requires
        distinct_children(old),
        0 <= c < old.children@.len(),
        fin.children@ == old.children@.update(c, (old.children@[c].0, x)),
    ensures
        distinct_children(fin),
        forall|k: Seq<char>| #[trigger] sub_rules(fin@, k) == (if k == old.children@[c].0@ { x@ } else { sub_rules(old@, k) }),
        forall|i: int| 0 <= i < fin.children@.len() && i != c ==> fin.children@[i] == old.children@[i],
{
    let key = old.children@[c].0@;
    assert forall|a: int, b: int| 0 <= a < b < fin.children@.len() implies
        (#[trigger] fin.children@[a]).0@ != (#[trigger] fin.children@[b]).0@ by {
        assert(fin.children@[a].0 == old.children@[a].0);
        assert(fin.children@[b].0 == old.children@[b].0);
    }
    assert forall|k: Seq<char>| #[trigger] sub_rules(fin@, k) == (if k == key { x@ } else { sub_rules(old@, k) }) by {
        lemma_view_child(fin, k);
        lemma_view_child(old, k);
        lemma_child_pos(fin.children@, k);
        lemma_child_pos(old.children@, k);
        if k == key {
            lemma_child_pos_distinct(fin.children@, k, c);
        } else {
            let f = child_pos(fin.children@, k);
            let o = child_pos(old.children@, k);
            if f >= 0 {
                assert(fin.children@[f] == old.children@[f]);
                lemma_child_pos_distinct(old.children@, k, f);
            } else if o >= 0 {
                assert(fin.children@[o] == old.children@[o]);
            }
        }
    }
}

/// Adding a child with no rules under a segment that had no child keeps the rules.
proof fn lemma_push_fresh(old: PermissionRuleNode, fin: PermissionRuleNode, key: String, x: PermissionRuleNode)
    requires
        distinct_children(old),
        child_pos(old.children@, key@) < 0,
        x@ == Map::<Seq<Seq<char>>, bool>::empty(),
        fin.children@ == old.children@.push((key, x)),
        fin.enabled == old.enabled,
    ensures
        distinct_children(fin),
        fin@ == old@,
        child_pos(fin.children@, key@) == old.children@.len(),
{
    lemma_child_pos(old.children@, key@);
    assert forall|a: int, b: int| 0 <= a < b < fin.children@.len() implies
        (#[trigger] fin.children@[a]).0@ != (#[trigger] fin.children@[b]).0@ by {
        assert(fin.children@[a] == old.children@[a]);
        if b < old.children@.len() {
            assert(fin.children@[b] == old.children@[b]);
        }
    }
    lemma_child_pos_distinct(fin.children@, key@, old.children@.len() as int);
    assert forall|k: Seq<char>| #[trigger] sub_rules(fin@, k) == sub_rules(old@, k) by {
        lemma_view_child(fin, k);
        lemma_view_child(old, k);
        lemma_child_pos(fin.children@, k);
        lemma_child_pos(old.children@, k);
        if k != key@ {
            let f = child_pos(fin.children@, k);
            let o = child_pos(old.children@, k);
            if f >= 0 {
                assert(f < old.children@.len());
                assert(fin.children@[f] == old.children@[f]);
                lemma_child_pos_distinct(old.children@, k, f);
            } else if o >= 0 {
                assert(fin.children@[o] == old.children@[o]);
            }
        }
    }
    lemma_view_root(fin);
    lemma_view_root(old);
    lemma_rules_ext(fin@, old@);
}

/// Dropping the child at position `c` drops the rules below its segment.
proof fn lemma_remove_child(old: PermissionRuleNode, fin: PermissionRuleNode, c: int)
    requires
        distinct_children(old),
        0 <= c < old.children@.len(),
        fin.children@ == old.children@.remove(c),
    ensures
        distinct_children(fin),
        forall|k: Seq<char>| #[trigger] sub_rules(fin@, k) == (if k == old.children@[c].0@ {
            Map::<Seq<Seq<char>>, bool>::empty() } else { sub_rules(old@, k) }),
        forall|i: int| 0 <= i < fin.children@.len() ==> #[trigger] fin.children@[i] == old.children@[if i < c { i } else { i + 1 }],
{
    let key = old.children@[c].0@;
    assert forall|i: int| 0 <= i < fin.children@.len() implies #[trigger] fin.children@[i] == old.children@[if i < c { i } else { i + 1 }] by {}
    assert forall|a: int, b: int| 0 <= a < b < fin.children@.len() implies
        (#[trigger] fin.children@[a]).0@ != (#[trigger] fin.children@[b]).0@ by {
        assert(fin.children@[a] == old.children@[if a < c { a } else { a + 1 }]);
        assert(fin.children@[b] == old.children@[if b < c { b } else { b + 1 }]);
    }
    assert forall|k: Seq<char>| #[trigger] sub_rules(fin@, k) == (if k == key {
        Map::<Seq<Seq<char>>, bool>::empty() } else { sub_rules(old@, k) }) by {
        lemma_view_child(fin, k);
        lemma_view_child(old, k);
        lemma_child_pos(fin.children@, k);
        lemma_child_pos(old.children@, k);
        let f = child_pos(fin.children@, k);
        let o = child_pos(old.children@, k);
        if k == key {
            if f >= 0 {
                let src = if f < c { f } else { f + 1 };
                assert(fin.children@[f] == old.children@[src]);
                assert(old.children@[src].0@ == old.children@[c].0@);
            }
        } else {
            if f >= 0 {
                let src = if f < c { f } else { f + 1 };
                assert(fin.children@[f] == old.children@[src]);
                lemma_child_pos_distinct(old.children@, k, src);
            } else if o >= 0 {
                assert(o != c);
                let dst = if o < c { o } else { o - 1 };
                assert(fin.children@[dst] == old.children@[o]);
            }
        }
    }
}

/// A well-formed tree with a child holds a rule.
proof fn lemma_children_has_rules(node: PermissionRuleNode)
    requires
        node.wf(),
        node.children@.len() > 0,
    ensures
        has_rules(node@),
{
    let k0 = node.children@[0].0@;
    let c0 = node.children@[0].1;
    assert(has_rules(c0@));
    let q = choose|q: Seq<Seq<char>>| c0@.contains_key(q);
    lemma_child_pos_distinct(node.children@, k0, 0);
    lemma_view_child(node, k0);
    assert(sub_rules(node@, k0).contains_key(q));
    assert(node@.contains_key(seq![k0] + q));
}

/// Union of rule sets, taken below a segment.
pub proof fn lemma_sub_union(a: Rules, b: Rules, k: Seq<char>)
    ensures
        sub_rules(a.union_prefer_right(b), k) == sub_rules(a, k).union_prefer_right(sub_rules(b, k)),
{
    assert(sub_rules(a.union_prefer_right(b), k) =~= sub_rules(a, k).union_prefer_right(sub_rules(b, k)));
}

/// Removal of a set of paths, taken below a segment.
pub proof fn lemma_sub_remove_keys(a: Rules, s: Set<Seq<Seq<char>>>, k: Seq<char>)
    ensures
        sub_rules(a.remove_keys(s), k) == sub_rules(a, k).remove_keys(Set::new(|t: Seq<Seq<char>>| s.contains(seq![k] + t))),
{
    assert(sub_rules(a.remove_keys(s), k) =~= sub_rules(a, k).remove_keys(Set::new(|t: Seq<Seq<char>>| s.contains(seq![k] + t))));
}

/// Whether removing `p` below `node` leaves `node` without children (the
/// tree drops a child node that this holds for).
pub closed spec fn prunes(node: PermissionRuleNode, p: Seq<Seq<char>>) -> bool
    decreases p.len(),
{
    if p.len() == 0 {
        node.children@.len() == 0
    } else {
        let c = child_pos(node.children@, p[0]);
        c >= 0 && prunes(node.children@[c].1, p.drop_first()) && node.children@.len() == 1
    }
}

/// Whether removing `p` below `node` drops the rule at `q`: `q` lies below a
/// child node that the removal drops.
pub closed spec fn cut(node: PermissionRuleNode, p: Seq<Seq<char>>, q: Seq<Seq<char>>) -> bool
    decreases p.len(),
{
    if p.len() == 0 || q.len() == 0 || q[0] != p[0] {
        false
    } else {
        let c = child_pos(node.children@, p[0]);
        c >= 0 && (prunes(node.children@[c].1, p.drop_first()) || cut(node.children@[c].1, p.drop_first(), q.drop_first()))
    }
}

/// `q` is a prefix of `p`.
pub open spec fn is_prefix(q: Seq<Seq<char>>, p: Seq<Seq<char>>) -> bool {
    q.len() <= p.len() && q == p.take(q.len() as int)
}

/// No rule of `m` lies below a segment: only the root rule, if any.
pub open spec fn childless(m: Rules) -> bool {
    forall|q: Seq<Seq<char>>| #[trigger] m.contains_key(q) ==> q.len() == 0
}

/// Every rule of `m` other than the root rule lies below segment `k`.
pub open spec fn only_below(m: Rules, k: Seq<char>) -> bool {
    forall|q: Seq<Seq<char>>| #[trigger] m.contains_key(q) && q.len() > 0 ==> q[0] == k
}

/// Whether removing `p` from the rules `m` leaves no rule below a segment,
/// so that the tree node holding `m` is dropped too: the rules at and below
/// `p` are only the rule at `p`, and every node on the way has that one branch.
pub open spec fn prunes_rules(m: Rules, p: Seq<Seq<char>>) -> bool
    decreases p.len(),
{
    if p.len() == 0 {
        childless(m)
    } else {
        has_rules(sub_rules(m, p[0])) && prunes_rules(sub_rules(m, p[0]), p.drop_first()) && only_below(m, p[0])
    }
}

/// Whether removing `p` from the rules `m` drops the rule at `q`: `q` lies
/// below the first node on the way to `p` that is dropped.
pub open spec fn cut_rules(m: Rules, p: Seq<Seq<char>>, q: Seq<Seq<char>>) -> bool
    decreases p.len(),
{
    if p.len() == 0 || q.len() == 0 || q[0] != p[0] || !has_rules(sub_rules(m, p[0])) {
        false
    } else {
        prunes_rules(sub_rules(m, p[0]), p.drop_first()) || cut_rules(sub_rules(m, p[0]), p.drop_first(), q.drop_first())
    }
}

/// The rules left after removing `p` from `m`. The node at `p` goes if it
/// has no children, and with it every node on the way up that is then left
/// without children, rules and all; the root stays.
pub open spec fn remove_rules(m: Rules, p: Seq<Seq<char>>) -> Rules {
    m.remove_keys(Set::new(|q: Seq<Seq<char>>| cut_rules(m, p, q)))
}

/// In a well-formed tree, a node has a child under `k` exactly when some
/// rule lies below `k`.
proof fn lemma_child_iff_rules(node: PermissionRuleNode, k: Seq<char>)
    requires
        node.wf(),
    ensures
        (child_pos(node.children@, k) >= 0) == has_rules(sub_rules(node@, k)),
{
    lemma_view_child(node, k);
    lemma_child_pos(node.children@, k);
    if child_pos(node.children@, k) < 0 {
        assert(!has_rules(Map::<Seq<Seq<char>>, bool>::empty()));
    }
}

/// In a well-formed tree, whether removal drops a node depends on its rules only.
proof fn lemma_prunes_rules(node: PermissionRuleNode, p: Seq<Seq<char>>)
    requires
        node.wf(),
    ensures
        prunes(node, p) == prunes_rules(node@, p),
    decreases p.len(),
{
    if p.len() == 0 {
        if node.children@.len() > 0 {
            let k0 = node.children@[0].0@;
            let c0 = node.children@[0].1;
            let q = choose|q: Seq<Seq<char>>| c0@.contains_key(q);
            lemma_child_pos_distinct(node.children@, k0, 0);
            lemma_view_child(node, k0);
            assert(sub_rules(node@, k0).contains_key(q));
            assert(node@.contains_key(seq![k0] + q));
        } else {
            assert forall|q: Seq<Seq<char>>| #[trigger] node@.contains_key(q) implies q.len() == 0 by {
                if q.len() > 0 {
                    assert(child_pos(node.children@, q[0]) == -1);
                }
            }
        }
    } else {
        let k = p[0];
        lemma_child_iff_rules(node, k);
        let c = child_pos(node.children@, k);
        lemma_child_pos(node.children@, k);
        if c >= 0 {
            let child = node.children@[c].1;
            assert(child.wf());
            lemma_view_child(node, k);
            lemma_prunes_rules(child, p.drop_first());
            lemma_child_pos(node.children@, k);
            if node.children@.len() == 1 {
                assert forall|q: Seq<Seq<char>>| #[trigger] node@.contains_key(q) && q.len() > 0 implies q[0] == k by {
                    lemma_child_pos(node.children@, q[0]);
                }
            } else {
                let d = if c == 0 { 1int } else { 0int };
                let kd = node.children@[d].0@;
                let cd = node.children@[d].1;
                assert(kd != k);
                let q = choose|q: Seq<Seq<char>>| cd@.contains_key(q);
                lemma_child_pos_distinct(node.children@, kd, d);
                lemma_view_child(node, kd);
                assert(sub_rules(node@, kd).contains_key(q));
                assert(node@.contains_key(seq![kd] + q));
                assert((seq![kd] + q)[0] == kd);
                assert(!only_below(node@, k));
            }
        }
    }
}

/// In a well-formed tree, which rules removal drops depends on the rules only.
proof fn lemma_cut_rules(node: PermissionRuleNode, p: Seq<Seq<char>>, q: Seq<Seq<char>>)
    requires
        node.wf(),
    ensures
        cut(node, p, q) == cut_rules(node@, p, q),
    decreases p.len(),
{
    if p.len() > 0 && q.len() > 0 && q[0] == p[0] {
        let k = p[0];
        lemma_child_iff_rules(node, k);
        let c = child_pos(node.children@, k);
        lemma_child_pos(node.children@, k);
        if c >= 0 {
            let child = node.children@[c].1;
            assert(child.wf());
            lemma_view_child(node, k);
            lemma_prunes_rules(child, p.drop_first());
            lemma_cut_rules(child, p.drop_first(), q.drop_first());
        }
    }
}

proof fn lemma_prunes_rules_prefix(m: Rules, p: Seq<Seq<char>>, q: Seq<Seq<char>>)
    requires
        prunes_rules(m, p),
        m.contains_key(q),
    ensures
        is_prefix(q, p),
    decreases p.len(),
{
    if q.len() == 0 {
        assert(q =~= p.take(0));
    } else if p.len() > 0 {
        let k = p[0];
        assert(q[0] == k);
        let t = q.drop_first();
        assert(q =~= seq![k] + t);
        assert(sub_rules(m, k).contains_key(t));
        lemma_prunes_rules_prefix(sub_rules(m, k), p.drop_first(), t);
        assert(q =~= p.take(q.len() as int)) by {
            assert forall|j: int| 0 <= j < q.len() implies q[j] == p[j] by {
                if j > 0 {
                    assert(t[j - 1] == p.drop_first().take(t.len() as int)[j - 1]);
                }
            }
        }
    }
}

proof fn lemma_cut_rules_prefix(m: Rules, p: Seq<Seq<char>>, q: Seq<Seq<char>>)
    requires
        cut_rules(m, p, q),
        m.contains_key(q),
    ensures
        is_prefix(q, p),
    decreases p.len(),
{
    let k = p[0];
    let t = q.drop_first();
    assert(q =~= seq![k] + t);
    assert(sub_rules(m, k).contains_key(t));
    if prunes_rules(sub_rules(m, k), p.drop_first()) {
        lemma_prunes_rules_prefix(sub_rules(m, k), p.drop_first(), t);
    } else {
        lemma_cut_rules_prefix(sub_rules(m, k), p.drop_first(), t);
    }
    assert(q =~= p.take(q.len() as int)) by {
        assert forall|j: int| 0 <= j < q.len() implies q[j] == p[j] by {
            if j > 0 {
                assert(t[j - 1] == p.drop_first().take(t.len() as int)[j - 1]);
            }
        }
    }
}

/// Removing a path keeps every other rule as it was, and the only rules it
/// drops are at `p` or at prefixes of `p`.
pub proof fn law_remove_drops_only_prefixes(m: Rules, p: Seq<Seq<char>>, q: Seq<Seq<char>>)
    requires
        m.contains_key(q),
    ensures
        remove_rules(m, p).contains_key(q) ==> remove_rules(m, p)[q] == m[q],
        !remove_rules(m, p).contains_key(q) ==> is_prefix(q, p),
{
    if !remove_rules(m, p).contains_key(q) {
        assert(cut_rules(m, p, q));
        lemma_cut_rules_prefix(m, p, q);
    }
}

/// Removing the path of a rule that nothing lies below drops that rule.
pub proof fn law_remove_drops_leaf(m: Rules, p: Seq<Seq<char>>)
    requires
        p.len() > 0,
        m.contains_key(p),
        forall|q: Seq<Seq<char>>| #[trigger] m.contains_key(q) && is_prefix(p, q) ==> q == p,
    ensures
        !remove_rules(m, p).contains_key(p),
    decreases p.len(),
{
    let k = p[0];
    let rest = p.drop_first();
    let sub = sub_rules(m, k);
    assert(p =~= seq![k] + rest);
    assert(sub.contains_key(rest));
    if rest.len() == 0 {
        assert forall|q: Seq<Seq<char>>| #[trigger] sub.contains_key(q) implies q.len() == 0 by {
            assert(m.contains_key(seq![k] + q));
            assert(is_prefix(p, seq![k] + q)) by {
                assert(p =~= (seq![k] + q).take(1));
            }
        }
        assert(prunes_rules(sub, rest));
    } else {
        assert forall|q: Seq<Seq<char>>| #[trigger] sub.contains_key(q) && is_prefix(rest, q) implies q == rest by {
            assert(m.contains_key(seq![k] + q));
            assert(is_prefix(p, seq![k] + q)) by {
                assert(p =~= (seq![k] + q).take(p.len() as int));
            }
            assert(seq![k] + q == p);
            assert(q =~= (seq![k] + q).drop_first());
        }
        law_remove_drops_leaf(sub, rest);
        assert(cut_rules(sub, rest, rest));
    }
    assert(cut_rules(m, p, p));
}

/// Reading back a written rule: after `set(p, b)` the rule that decides `p`
/// is the one just written, matched exactly, whatever other rules say.
pub proof fn law_get_after_set(m: Rules, p: Seq<Seq<char>>, b: bool)
    ensures
        resolve(m.insert(p, b), p) == Some((b, MatchType::Exact)),
    decreases p.len(),
{
    if p.len() == 0 {
        assert(m.insert(p, b).contains_key(p));
    } else {
        lemma_sub_insert(m, p, b, p[0]);
        law_get_after_set(sub_rules(m, p[0]), p.drop_first(), b);
    }
}

/// Whether the rule path `q` matches the permission path `p`: a plain
/// segment matches an equal segment, `?` exactly one segment and `*` one or
/// more segments (it takes one, then either stops or goes on).
pub open spec fn rule_matches(q: Seq<Seq<char>>, p: Seq<Seq<char>>) -> bool
    decreases q.len(), p.len(),
{
    if q.len() == 0 {
        p.len() == 0
    } else if p.len() == 0 {
        false
    } else if q[0] == any_segment() {
        rule_matches(q.drop_first(), p.drop_first())
    } else if q[0] == star_segment() {
        rule_matches(q.drop_first(), p.drop_first()) || rule_matches(q, p.drop_first())
    } else {
        p[0] == q[0] && rule_matches(q.drop_first(), p.drop_first())
    }
}

/// A rule path that starts with `*` matches `p` exactly when the rest of it
/// matches what is left of `p` after one or more segments.
pub proof fn lemma_star_matches(q: Seq<Seq<char>>, p: Seq<Seq<char>>)
    requires
        q.len() > 0,
        q[0] == star_segment(),
    ensures
        rule_matches(q, p) <==> exists|j: int| 1 <= j <= p.len() && #[trigger] rule_matches(q.drop_first(), p.skip(j)),
    decreases p.len(),
{
    assert(q[0] != any_segment()) by {
        assert(star_segment()[0] != any_segment()[0]);
    }
    if p.len() > 0 {
        let rest = p.drop_first();
        lemma_star_matches(q, rest);
        assert(p.skip(1) =~= rest);
        if rule_matches(q, p) {
            if rule_matches(q.drop_first(), rest) {
                assert(rule_matches(q.drop_first(), p.skip(1)));
            } else {
                let j = choose|j: int| 1 <= j <= rest.len() && #[trigger] rule_matches(q.drop_first(), rest.skip(j));
                assert(rest.skip(j) =~= p.skip(j + 1));
                assert(rule_matches(q.drop_first(), p.skip(j + 1)));
            }
        }
        if exists|j: int| 1 <= j <= p.len() && #[trigger] rule_matches(q.drop_first(), p.skip(j)) {
            let j = choose|j: int| 1 <= j <= p.len() && #[trigger] rule_matches(q.drop_first(), p.skip(j));
            if j > 1 {
                assert(rest.skip(j - 1) =~= p.skip(j));
                assert(rule_matches(q.drop_first(), rest.skip(j - 1)));
            }
        }
    }
}

/// Some rule of `m` matches the permission path `p`.
pub open spec fn some_rule_matches(m: Rules, p: Seq<Seq<char>>) -> bool {
    exists|q: Seq<Seq<char>>| m.contains_key(q) && #[trigger] rule_matches(q, p)
}

/// A lookup decides `p` exactly when some rule matches `p`.
proof fn lemma_resolve_matches(m: Rules, p: Seq<Seq<char>>)
    ensures
        resolve(m, p) is Some <==> some_rule_matches(m, p),
    decreases p.len(), 0nat, 0nat,
{
    if p.len() == 0 {
        if some_rule_matches(m, p) {
            let q = choose|q: Seq<Seq<char>>| m.contains_key(q) && #[trigger] rule_matches(q, p);
            assert(q.len() == 0);
            assert(q =~= p);
        }
        if resolve(m, p) is Some {
            assert(rule_matches(p, p));
        }
    } else {
        let rest = p.drop_first();
        let me = sub_rules(m, p[0]);
        let ma = sub_rules(m, any_segment());
        let ms = sub_rules(m, star_segment());
        lemma_resolve_matches(me, rest);
        lemma_resolve_matches(ma, rest);
        lemma_resolve_star_matches(ms, rest, 0);
        if resolve(me, rest) is Some {
            let q2 = choose|q: Seq<Seq<char>>| me.contains_key(q) && #[trigger] rule_matches(q, rest);
            let q = seq![p[0]] + q2;
            assert(q.drop_first() =~= q2);
            assert(q[0] == p[0]);
            assert(rule_matches(q, p));
            assert(m.contains_key(q));
        } else if resolve(ma, rest) is Some {
            let q2 = choose|q: Seq<Seq<char>>| ma.contains_key(q) && #[trigger] rule_matches(q, rest);
            let q = seq![any_segment()] + q2;
            assert(q.drop_first() =~= q2);
            assert(q[0] == any_segment());
            assert(rule_matches(q, p));
            assert(m.contains_key(q));
        } else if resolve_star(ms, rest, 0) is Some {
            let j = choose|j: int| 0 <= j <= rest.len() && #[trigger] some_rule_matches(ms, rest.skip(j));
            let q2 = choose|q: Seq<Seq<char>>| ms.contains_key(q) && #[trigger] rule_matches(q, rest.skip(j));
            let q = seq![star_segment()] + q2;
            assert(q.drop_first() =~= q2);
            assert(q[0] == star_segment());
            assert(p.skip(j + 1) =~= rest.skip(j));
            assert(rule_matches(q.drop_first(), p.skip(j + 1)));
            lemma_star_matches(q, p);
            assert(rule_matches(q, p));
            assert(m.contains_key(q));
        }
        if some_rule_matches(m, p) {
            let q = choose|q: Seq<Seq<char>>| m.contains_key(q) && #[trigger] rule_matches(q, p);
            assert(q.len() > 0);
            let q2 = q.drop_first();
            assert(q =~= seq![q[0]] + q2);
            if q[0] == any_segment() {
                assert(ma.contains_key(q2));
                assert(rule_matches(q2, rest));
            } else if q[0] == star_segment() {
                lemma_star_matches(q, p);
                let j = choose|j: int| 1 <= j <= p.len() && #[trigger] rule_matches(q2, p.skip(j));
                assert(p.skip(j) =~= rest.skip(j - 1));
                assert(ms.contains_key(q2));
                assert(some_rule_matches(ms, rest.skip(j - 1)));
            } else {
                assert(me.contains_key(q2));
                assert(rule_matches(q2, rest));
            }
        }
    }
}

/// Below a `*`, a lookup from `from` on decides exactly when some rule
/// matches one of `rest.skip(from)`, `rest.skip(from + 1)`, ..., the empty rest.
proof fn lemma_resolve_star_matches(m: Rules, rest: Seq<Seq<char>>, from: nat)
    ensures
        resolve_star(m, rest, from) is Some
            <==> exists|j: int| from <= j <= rest.len() && #[trigger] some_rule_matches(m, rest.skip(j)),
    decreases rest.len(), 1nat, rest.len() + 1 - from,
{
    if from <= rest.len() {
        lemma_resolve_matches(m, rest.skip(from as int));
        lemma_resolve_star_matches(m, rest, from + 1);
        if exists|j: int| from <= j <= rest.len() && #[trigger] some_rule_matches(m, rest.skip(j)) {
            let j = choose|j: int| from <= j <= rest.len() && #[trigger] some_rule_matches(m, rest.skip(j));
            if j != from {
                assert(from + 1 <= j <= rest.len() && some_rule_matches(m, rest.skip(j)));
            }
        }
    }
}

/// A rule stored at `p` itself decides `p`, exactly.
proof fn lemma_resolve_exact(m: Rules, p: Seq<Seq<char>>)
    requires
        m.contains_key(p),
    ensures
        resolve(m, p) == Some((m[p], MatchType::Exact)),
    decreases p.len(),
{
    if p.len() > 0 {
        let rest = p.drop_first();
        assert(seq![p[0]] + rest =~= p);
        lemma_resolve_exact(sub_rules(m, p[0]), rest);
    }
}

/// Below a `*`, from `from` on: where `m` decides none of `rest.skip(i)` for
/// `from <= i < j` and decides `rest.skip(j)`, that decision is the result.
proof fn lemma_resolve_star_first(m: Rules, rest: Seq<Seq<char>>, from: nat, j: int)
    requires
        from <= j <= rest.len(),
        resolve(m, rest.skip(j)) is Some,
        forall|i: int| from <= i < j ==> resolve(m, #[trigger] rest.skip(i)) is None,
    ensures
        resolve_star(m, rest, from) == resolve(m, rest.skip(j)),
    decreases j - from,
{
    if from < j {
        assert(resolve(m, rest.skip(from as int)) is None);
        lemma_resolve_star_first(m, rest, from + 1, j);
    }
}

/// Below a `*`, from `from` on: where `m` decides none of `rest.skip(i)`,
/// there is no result.
proof fn lemma_resolve_star_none(m: Rules, rest: Seq<Seq<char>>, from: nat)
    requires
        forall|i: int| from <= i <= rest.len() ==> resolve(m, #[trigger] rest.skip(i)) is None,
    ensures
        resolve_star(m, rest, from) is None,
    decreases rest.len() + 1 - from,
{
    if from <= rest.len() {
        assert(resolve(m, rest.skip(from as int)) is None);
        lemma_resolve_star_none(m, rest, from + 1);
    }
}

/// Below a `*`, the fewest covered segments win. Where neither the rules
/// under `p[0]` nor those under `?` decide the rest of `p`, the rules under
/// `*` are tried with `*` covering one segment of `p`, then two, and so on:
/// the first covering `j + 1` segments after which they decide gives the
/// result, as a `Wildcard` match. (With `[*]` allowing and `[*, x]`
/// denying, `[a, x]` is denied.)
pub proof fn law_star_fewest_segments(m: Rules, p: Seq<Seq<char>>, j: int)
    requires
        p.len() > 0,
        resolve(sub_rules(m, p[0]), p.drop_first()) is None,
        resolve(sub_rules(m, any_segment()), p.drop_first()) is None,
        0 <= j < p.len(),
        resolve(sub_rules(m, star_segment()), p.skip(j + 1)) is Some,
        forall|i: int| 0 <= i < j ==> resolve(sub_rules(m, star_segment()), #[trigger] p.skip(i + 1)) is None,
    ensures
        resolve(m, p) == through_star(resolve(sub_rules(m, star_segment()), p.skip(j + 1))),
{
    let rest = p.drop_first();
    let ms = sub_rules(m, star_segment());
    assert forall|i: int| 0 <= i < j implies resolve(ms, #[trigger] rest.skip(i)) is None by {
        assert(rest.skip(i) =~= p.skip(i + 1));
    }
    assert(rest.skip(j) =~= p.skip(j + 1));
    lemma_resolve_star_first(ms, rest, 0, j);
}

/// Below a `*` nothing decides where the rules under `*` decide nothing
/// after one, two, ... or all the segments of `p`; then, where neither the
/// rules under `p[0]` nor those under `?` decide, nothing does.
pub proof fn law_star_none(m: Rules, p: Seq<Seq<char>>)
    requires
        p.len() > 0,
        resolve(sub_rules(m, p[0]), p.drop_first()) is None,
        resolve(sub_rules(m, any_segment()), p.drop_first()) is None,
        forall|i: int| 1 <= i <= p.len() ==> resolve(sub_rules(m, star_segment()), #[trigger] p.skip(i)) is None,
    ensures
        resolve(m, p) is None,
{
    let rest = p.drop_first();
    let ms = sub_rules(m, star_segment());
    assert forall|i: int| 0 <= i <= rest.len() implies resolve(ms, #[trigger] rest.skip(i)) is None by {
        assert(rest.skip(i) =~= p.skip(i + 1));
    }
    lemma_resolve_star_none(ms, rest, 0);
}

/// Lookup and matching: a lookup finds a rule for `p` exactly when some
/// stored rule matches `p` (a plain segment matching an equal segment, `?`
/// one segment, `*` one or more), and a rule stored at `p` itself is the one
/// that decides it, matched exactly.
pub proof fn law_resolve_matches(m: Rules, p: Seq<Seq<char>>)
    ensures
        resolve(m, p) is Some <==> some_rule_matches(m, p),
        m.contains_key(p) ==> resolve(m, p) == Some((m[p], MatchType::Exact)),
{
    lemma_resolve_matches(m, p);
    if m.contains_key(p) {
        lemma_resolve_exact(m, p);
    }
}

/// The text of a rule's value as a last record segment: `true` or `false`.
pub open spec fn bool_text(b: bool) -> Seq<char> {
    if b { "true"@ } else { "false"@ }
}

/// The rule that a record stands for: a record is a rule's path followed by
/// its value, `true` or `false`; anything else stands for no rule.
pub open spec fn rule_of_record(r: Seq<Seq<char>>) -> Option<(Seq<Seq<char>>, bool)> {
    if r.len() >= 1 && r.last() == bool_text(true) {
        Some((r.drop_last(), true))
    } else if r.len() >= 1 && r.last() == bool_text(false) {
        Some((r.drop_last(), false))
    } else {
        None
    }
}

/// Records read back as rules: the record of the rule `(p, b)` stands for
/// that rule.
pub proof fn law_rule_of_record(p: Seq<Seq<char>>, b: bool)
    ensures
        rule_of_record(p.push(bool_text(b))) == Some((p, b)),
{
    reveal_strlit("true");
    reveal_strlit("false");
    assert(p.push(bool_text(b)).drop_last() =~= p);
    assert(bool_text(true) != bool_text(false)) by {
        assert(bool_text(true).len() != bool_text(false).len());
    }
}

/// The rule that `record` stands for (see `rule_of_record`).
pub fn record_to_rule(record: PermissionPath) -> (r: Option<PermissionRule>)
    ensures
        match r {
            Some((p, b)) => rule_of_record(record@) == Some((p@, b)),
            None => rule_of_record(record@) is None,
        },
{
    let ghost whole = record@;
    let mut segments = record.into_vec();
    match segments.pop() {
        None => {
            assert(whole.len() == 0);
            None
        },
        Some(last) => {
            let ghost rest = segments@;
            assert(segments_of(rest) =~= whole.drop_last());
            assert(last@ == whole.last());
            let yes = String::from_str("true");
            let no = String::from_str("false");
            proof {
                reveal_strlit("true");
                reveal_strlit("false");
            }
            assert(yes@ == bool_text(true));
            assert(no@ == bool_text(false));
            if last == yes {
                Some((PermissionPath::from_vec(segments), true))
            } else if last == no {
                Some((PermissionPath::from_vec(segments), false))
            } else {
                None
            }
        },
    }
}

/// The records of the tree below `node`, in tree order: first the node's
/// own rule as `[value]`, then each child's records, in child order, with
/// the child's segment in front.
closed spec fn records_of(node: PermissionRuleNode) -> Seq<Seq<Seq<char>>>
    decreases node, node.children@.len() + 1,
{
    let own = match node.enabled {
        Some(b) => seq![seq![bool_text(b)]],
        None => Seq::empty(),
    };
    own + children_records(node, node.children@.len() as int)
}

/// The records of the first `i` children of `node`, each with the child's
/// segment in front.
closed spec fn children_records(node: PermissionRuleNode, i: int) -> Seq<Seq<Seq<char>>>
    decreases node, i,
{
    if i <= 0 || i > node.children@.len() {
        Seq::empty()
    } else {
        let key = node.children@[i - 1].0@;
        children_records(node, i - 1) + records_of(node.children@[i - 1].1).map_values(
            |r: Seq<Seq<char>>| seq![key] + r,
        )
    }
}

/// `r` is the record of a rule of `m`: the rule's path followed by its value.
pub open spec fn is_record(m: Rules, r: Seq<Seq<char>>) -> bool {
    &&& r.len() >= 1
    &&& m.contains_key(r.drop_last())
    &&& r.last() == bool_text(m[r.drop_last()])
}

/// Each record below `node` is the record of one of its rules.
proof fn lemma_records_sound(node: PermissionRuleNode)
    requires
        node.wf(),
    ensures
        forall|r: Seq<Seq<char>>| records_of(node).contains(r) ==> #[trigger] is_record(node@, r),
    decreases node, node.children@.len() + 1,
{
    let own: Seq<Seq<Seq<char>>> = match node.enabled {
        Some(b) => seq![seq![bool_text(b)]],
        None => Seq::empty(),
    };
    lemma_children_sound(node, node.children@.len() as int);
    lemma_view_root(node);
    let kids = children_records(node, node.children@.len() as int);
    assert(records_of(node) == own + kids);
    assert forall|r: Seq<Seq<char>>| records_of(node).contains(r) implies #[trigger] is_record(node@, r) by {
        let k = choose|k: int| 0 <= k < records_of(node).len() && records_of(node)[k] == r;
        if k < own.len() {
            assert(r.drop_last() =~= Seq::<Seq<char>>::empty());
        } else {
            assert(kids[k - own.len()] == r);
            assert(kids.contains(r));
        }
    }
}

/// Each record of the first `i` children of `node`, with the child's
/// segment in front, is the record of one of the node's rules.
proof fn lemma_children_sound(node: PermissionRuleNode, i: int)
    requires
        node.wf(),
        0 <= i <= node.children@.len(),
    ensures
        forall|r: Seq<Seq<char>>| children_records(node, i).contains(r) ==> #[trigger] is_record(node@, r),
    decreases node, i,
{
    if i > 0 {
        lemma_children_sound(node, i - 1);
        let key = node.children@[i - 1].0@;
        let child = node.children@[i - 1].1;
        assert(decreases_to!(node => child)) by {
            assert(decreases_to!(node => node.children));
            assert(decreases_to!(node.children => node.children@));
            assert(decreases_to!(node.children@ => node.children@[i - 1]));
            assert(decreases_to!(node.children@[i - 1] => node.children@[i - 1].1));
        }
        lemma_records_sound(child);
        lemma_child_pos_distinct(node.children@, key, i - 1);
        lemma_view_child(node, key);
        let prev = children_records(node, i - 1);
        let mapped = records_of(child).map_values(|r: Seq<Seq<char>>| seq![key] + r);
        assert(children_records(node, i) == prev + mapped);
        assert forall|r: Seq<Seq<char>>| children_records(node, i).contains(r) implies #[trigger] is_record(node@, r) by {
            let k = choose|k: int| 0 <= k < children_records(node, i).len() && children_records(node, i)[k] == r;
            if k < prev.len() {
                assert(prev[k] == r);
                assert(prev.contains(r));
            } else {
                let r2 = records_of(child)[k - prev.len()];
                assert(records_of(child).contains(r2));
                assert(is_record(child@, r2));
                assert(r == seq![key] + r2);
                assert(r.drop_last() =~= seq![key] + r2.drop_last());
                assert(sub_rules(node@, key).contains_key(r2.drop_last()));
            }
        }
    }
}

/// Each rule of `node` has its record among the records below `node`.
proof fn lemma_records_complete(node: PermissionRuleNode)
    requires
        node.wf(),
    ensures
        forall|p: Seq<Seq<char>>| node@.contains_key(p) ==> records_of(node).contains(#[trigger] p.push(bool_text(node@[p]))),
    decreases node, node.children@.len() + 1,
{
    let own: Seq<Seq<Seq<char>>> = match node.enabled {
        Some(b) => seq![seq![bool_text(b)]],
        None => Seq::empty(),
    };
    let n = node.children@.len() as int;
    lemma_children_complete(node, n);
    lemma_view_root(node);
    let kids = children_records(node, n);
    assert(records_of(node) == own + kids);
    assert forall|p: Seq<Seq<char>>| node@.contains_key(p) implies records_of(node).contains(#[trigger] p.push(bool_text(node@[p]))) by {
        if p.len() == 0 {
            assert(p =~= Seq::<Seq<char>>::empty());
            assert(p.push(bool_text(node@[p])) =~= seq![bool_text(node@[p])]);
            assert(records_of(node)[0] == p.push(bool_text(node@[p])));
        } else {
            let key = p[0];
            let q = p.drop_first();
            assert(p =~= seq![key] + q);
            lemma_view_child(node, key);
            lemma_child_pos(node.children@, key);
            let c = child_pos(node.children@, key);
            assert(sub_rules(node@, key).contains_key(q));
            assert(c >= 0);
            let child = node.children@[c].1;
            assert(child@.contains_key(q));
            assert(child@[q] == node@[p]);
            assert(p.push(bool_text(node@[p])) =~= seq![key] + q.push(bool_text(child@[q])));
            assert(kids.contains(seq![node.children@[c].0@] + q.push(bool_text(child@[q]))));
            let k = choose|k: int| 0 <= k < kids.len() && kids[k] == p.push(bool_text(node@[p]));
            assert(records_of(node)[own.len() + k] == p.push(bool_text(node@[p])));
        }
    }
}

/// Each rule of each of the first `i` children of `node` has its record,
/// with the child's segment in front, among the records of those children.
proof fn lemma_children_complete(node: PermissionRuleNode, i: int)
    requires
        node.wf(),
        0 <= i <= node.children@.len(),
    ensures
        forall|j: int, q: Seq<Seq<char>>|
            0 <= j < i && #[trigger] node.children@[j].1@.contains_key(q) ==> children_records(node, i).contains(
                seq![node.children@[j].0@] + q.push(bool_text(node.children@[j].1@[q])),
            ),
    decreases node, i,
{
    if i > 0 {
        lemma_children_complete(node, i - 1);
        let key = node.children@[i - 1].0@;
        let child = node.children@[i - 1].1;
        assert(decreases_to!(node => child)) by {
            assert(decreases_to!(node => node.children));
            assert(decreases_to!(node.children => node.children@));
            assert(decreases_to!(node.children@ => node.children@[i - 1]));
            assert(decreases_to!(node.children@[i - 1] => node.children@[i - 1].1));
        }
        lemma_records_complete(child);
        let prev = children_records(node, i - 1);
        let mapped = records_of(child).map_values(|r: Seq<Seq<char>>| seq![key] + r);
        assert(children_records(node, i) == prev + mapped);
        assert forall|j: int, q: Seq<Seq<char>>|
            0 <= j < i && #[trigger] node.children@[j].1@.contains_key(q) implies children_records(node, i).contains(
                seq![node.children@[j].0@] + q.push(bool_text(node.children@[j].1@[q])),
            ) by {
            let target = seq![node.children@[j].0@] + q.push(bool_text(node.children@[j].1@[q]));
            if j < i - 1 {
                let k = choose|k: int| 0 <= k < prev.len() && prev[k] == target;
                assert(children_records(node, i)[k] == target);
            } else {
                let r2 = q.push(bool_text(child@[q]));
                let k = choose|k: int| 0 <= k < records_of(child).len() && records_of(child)[k] == r2;
                assert(mapped[k] == target);
                assert(children_records(node, i)[prev.len() + k] == target);
            }
        }
    }
}

/// The records below `node` are distinct, and each has at least one segment.
proof fn lemma_records_distinct(node: PermissionRuleNode)
    requires
        node.wf(),
    ensures
        records_of(node).no_duplicates(),
        forall|r: Seq<Seq<char>>| records_of(node).contains(r) ==> r.len() >= 1,
    decreases node, node.children@.len() + 1,
{
    let own: Seq<Seq<Seq<char>>> = match node.enabled {
        Some(b) => seq![seq![bool_text(b)]],
        None => Seq::empty(),
    };
    let n = node.children@.len() as int;
    lemma_children_distinct(node, n);
    let kids = children_records(node, n);
    let all = records_of(node);
    assert(all == own + kids);
    assert forall|a: int, b: int| 0 <= a < all.len() && 0 <= b < all.len() && a != b implies all[a] != all[b] by {
        if a < own.len() && b >= own.len() {
            assert(kids.contains(all[b]));
        } else if b < own.len() && a >= own.len() {
            assert(kids.contains(all[a]));
        } else if a >= own.len() && b >= own.len() {
            assert(kids[a - own.len()] == all[a]);
            assert(kids[b - own.len()] == all[b]);
        }
    }
    assert forall|r: Seq<Seq<char>>| all.contains(r) implies r.len() >= 1 by {
        let k = choose|k: int| 0 <= k < all.len() && all[k] == r;
        if k >= own.len() {
            assert(kids[k - own.len()] == r);
            assert(kids.contains(r));
        }
    }
}

/// The records of the first `i` children of `node` are distinct, each has at
/// least two segments, and each starts with the segment of one of those children.
proof fn lemma_children_distinct(node: PermissionRuleNode, i: int)
    requires
        node.wf(),
        0 <= i <= node.children@.len(),
    ensures
        children_records(node, i).no_duplicates(),
        forall|r: Seq<Seq<char>>| children_records(node, i).contains(r) ==> r.len() >= 2
            && exists|j: int| 0 <= j < i && r[0] == (#[trigger] node.children@[j]).0@,
    decreases node, i,
{
    if i > 0 {
        lemma_children_distinct(node, i - 1);
        let key = node.children@[i - 1].0@;
        let child = node.children@[i - 1].1;
        assert(decreases_to!(node => child)) by {
            assert(decreases_to!(node => node.children));
            assert(decreases_to!(node.children => node.children@));
            assert(decreases_to!(node.children@ => node.children@[i - 1]));
            assert(decreases_to!(node.children@[i - 1] => node.children@[i - 1].1));
        }
        lemma_records_distinct(child);
        let prev = children_records(node, i - 1);
        let rc = records_of(child);
        let mapped = rc.map_values(|r: Seq<Seq<char>>| seq![key] + r);
        let all = children_records(node, i);
        assert(all == prev + mapped);
        assert forall|a: int| 0 <= a < mapped.len() implies (#[trigger] mapped[a]).len() >= 2 && mapped[a][0] == key by {
            assert(rc.contains(rc[a]));
            assert(mapped[a] == seq![key] + rc[a]);
        }
        assert forall|a: int| 0 <= a < prev.len() implies (#[trigger] prev[a])[0] != key by {
            assert(prev.contains(prev[a]));
            let j = choose|j: int| 0 <= j < i - 1 && prev[a][0] == (#[trigger] node.children@[j]).0@;
            assert(node.children@[j].0@ != node.children@[i - 1].0@);
        }
        assert forall|a: int, b: int| 0 <= a < all.len() && 0 <= b < all.len() && a != b implies all[a] != all[b] by {
            if a < prev.len() && b < prev.len() {
            } else if a >= prev.len() && b >= prev.len() {
                let x = a - prev.len();
                let y = b - prev.len();
                assert(mapped[x] == seq![key] + rc[x]);
                assert(mapped[y] == seq![key] + rc[y]);
                if mapped[x] == mapped[y] {
                    assert(rc[x] =~= mapped[x].drop_first());
                    assert(rc[y] =~= mapped[y].drop_first());
                }
            } else if a < prev.len() {
                assert(all[b] == mapped[b - prev.len()]);
                assert(all[b][0] == key);
                assert(all[a][0] != key);
            } else {
                assert(all[a] == mapped[a - prev.len()]);
                assert(all[a][0] == key);
                assert(all[b][0] != key);
            }
        }
        assert forall|r: Seq<Seq<char>>| all.contains(r) implies r.len() >= 2
            && exists|j: int| 0 <= j < i && r[0] == (#[trigger] node.children@[j]).0@ by {
            let k = choose|k: int| 0 <= k < all.len() && all[k] == r;
            if k < prev.len() {
                assert(prev.contains(r));
                let j = choose|j: int| 0 <= j < i - 1 && r[0] == (#[trigger] node.children@[j]).0@;
                assert(0 <= j < i);
            } else {
                assert(mapped[k - prev.len()] == r);
                assert(r[0] == node.children@[i - 1].0@);
            }
        }
    }
}

impl PermissionRuleNode {
    /// Every rule of the tree as one path: the rule's path followed by its
    /// value; the node's own rule first, then each child's records, in
    /// child order, with the child's segment in front.
    pub closed spec fn records(self) -> Seq<Seq<Seq<char>>> {
        records_of(self)
    }


    /// The records are exactly the rules: each record is a rule's path
    /// followed by its value, `true` or `false`, each rule has its record,
    /// and no record repeats.
    pub proof fn law_records_are_rules(self)
        requires
            self.wf(),
        ensures
            forall|r: Seq<Seq<char>>| self.records().contains(r) ==> #[trigger] is_record(self@, r),
            forall|p: Seq<Seq<char>>| self@.contains_key(p) ==> self.records().contains(#[trigger] p.push(bool_text(self@[p]))),
            self.records().no_duplicates(),
    {
        lemma_records_sound(self);
        lemma_records_complete(self);
        lemma_records_distinct(self);
    }

    /// The paths whose rules `remove(p)` drops from this tree.
    pub closed spec fn removed_by(self, p: Seq<Seq<char>>) -> Set<Seq<Seq<char>>> {
        Set::new(|q: Seq<Seq<char>>| cut(self, p, q))
    }

    /// A tree with no rules.
    pub fn new() -> (r: Self)
        ensures
            r@ == Map::<Seq<Seq<char>>, bool>::empty(),
            r.wf(),
    {
        let r = PermissionRuleNode { children: Vec::new(), enabled: None };
        assert forall|q: Seq<Seq<char>>| entry(r, q) is None by {
            if q.len() > 0 {
                assert(child_pos(r.children@, q[0]) == -1);
            }
        }
        assert(r@ =~= Map::<Seq<Seq<char>>, bool>::empty());
        r
    }

    /// Every node of the tree has at most one child under each segment.
    pub closed spec fn wf(self) -> bool
        decreases self,
    {
        &&& distinct_children(self)
        &&& forall|i: int| 0 <= i < self.children@.len() ==> (#[trigger] self.children@[i]).1.wf() && has_rules(self.children@[i].1@)
    }

    /// The rule that decides `segments_of(parts).skip(i)` (see `resolve`).
    fn get_at(&self, parts: &Vec<String>, i: usize, any: &String, star: &String) -> (r: Option<(bool, MatchType)>)
        requires
            i <= parts@.len(),
            any@ == any_segment(),
            star@ == star_segment(),
        ensures
            r == resolve(self@, segments_of(parts@).skip(i as int)),
        decreases parts@.len() - i,
    {
        let ghost p = segments_of(parts@).skip(i as int);
        if i == parts.len() {
            assert(p =~= Seq::<Seq<char>>::empty());
            assert(entry(*self, p) == self.enabled);
            return match self.enabled {
                Some(b) => Some((b, MatchType::Exact)),
                None => None,
            };
        }
        let ghost rest = p.drop_first();
        assert(rest =~= segments_of(parts@).skip(i + 1));
        assert(p[0] == parts@[i as int]@);
        proof {
            lemma_view_child(*self, p[0]);
            lemma_view_child(*self, any_segment());
            lemma_view_child(*self, star_segment());
            lemma_resolve_empty(rest);
            lemma_resolve_star_empty(rest, 0);
        }
        let exact = match self.find_child(&parts[i]) {
            Some(c) => self.children[c].1.get_at(parts, i + 1, any, star),
            None => None,
        };
        if exact.is_some() {
            return exact;
        }
        let through = match self.find_child(any) {
            Some(c) => self.children[c].1.get_at(parts, i + 1, any, star),
            None => None,
        };
        match through {
            Some((b, MatchType::Exact)) => {
                return Some((b, MatchType::Any));
            },
            Some(found) => {
                return Some(found);
            },
            None => {},
        }
        match self.find_child(star) {
            None => None,
            Some(c) => {
                let child = &self.children[c].1;
                let mut j = i + 1;
                loop
                    invariant
                        i + 1 <= j <= parts@.len(),
                        any@ == any_segment(),
                        star@ == star_segment(),
                        rest == segments_of(parts@).skip(i + 1),
                        p == segments_of(parts@).skip(i as int),
                        rest == p.drop_first(),
                        i < parts@.len(),
                        (c as int) < self.children@.len(),
                        *child == self.children@[c as int].1,
                        c as int == child_pos(self.children@, star_segment()),
                        resolve(self@, p) == through_star(resolve_star(child@, rest, (j - i - 1) as nat)),
                    decreases parts@.len() - j,
                {
                    let r = child.get_at(parts, j, any, star);
                    assert(rest.skip(j - i - 1) =~= segments_of(parts@).skip(j as int));
                    let ghost k = (j - i - 1) as nat;
                    assert(resolve_star(child@, rest, k) == (if r is Some { r } else { resolve_star(child@, rest, k + 1) }));
                    if let Some((b, _)) = r {
                        return Some((b, MatchType::Wildcard));
                    }
                    if j == parts.len() {
                        assert(resolve_star(child@, rest, k + 1) is None);
                        return None;
                    }
                    j = j + 1;
                }
            },
        }
    }

    /// The rule that decides `path`, and how specific it was (see `resolve`).
    pub fn get_match(&self, path: &PermissionPath) -> (r: Option<(bool, MatchType)>)
        ensures
            r == resolve(self@, path@),
    {
        let parts = path.duplicate().into_vec();
        let any = String::from_str("?");
        let star = String::from_str("*");
        proof {
            reveal_strlit("?");
            reveal_strlit("*");
        }
        assert(any@ =~= any_segment());
        assert(star@ =~= star_segment());
        assert(segments_of(parts@).skip(0) =~= segments_of(parts@));
        self.get_at(&parts, 0, &any, &star)
    }

    /// Whether the rule that decides `path` allows it (see `resolve`). There
    /// is one exactly when some stored rule matches `path`, and a rule stored
    /// at `path` itself is the one that decides it.
    pub fn get(&self, path: &PermissionPath) -> (r: Option<bool>)
        ensures
            r == match resolve(self@, path@) {
                Some((b, _)) => Some(b),
                None => None,
            },
            r is Some <==> some_rule_matches(self@, path@),
            self@.contains_key(path@) ==> r == Some(self@[path@]),
    {
        proof {
            law_resolve_matches(self@, path@);
        }
        match self.get_match(path) {
            Some((b, _)) => Some(b),
            None => None,
        }
    }

    /// Removes the rule node at `segments_of(parts).skip(i)` if it has no
    /// children, then every node on the way up that is left without children;
    /// tells whether this node is left without children.
    fn remove_at(&mut self, parts: &Vec<String>, i: usize) -> (emptied: bool)
        requires
            i <= parts@.len(),
            old(self).wf(),
        ensures
            final(self).wf(),
            emptied == prunes(*old(self), segments_of(parts@).skip(i as int)),
            final(self)@ == old(self)@.remove_keys(old(self).removed_by(segments_of(parts@).skip(i as int))),
            final(self).enabled == old(self).enabled,
            has_rules(old(self)@) && !emptied ==> has_rules(final(self)@),
        decreases parts@.len() - i,
    {
        let ghost p = segments_of(parts@).skip(i as int);
        let ghost old_self = *self;
        proof {
            lemma_view_root(old_self);
        }
        if i == parts.len() {
            assert(p.len() == 0);
            assert(old_self.removed_by(p) =~= Set::<Seq<Seq<char>>>::empty());
            assert(old_self@.remove_keys(old_self.removed_by(p)) =~= old_self@);
            return self.children.len() == 0;
        }
        let ghost key = parts@[i as int]@;
        let ghost rest = p.drop_first();
        assert(p[0] == key);
        assert(rest =~= segments_of(parts@).skip(i + 1));
        match self.find_child(&parts[i]) {
            None => {
                proof {
                    lemma_child_pos(old_self.children@, key);
                    assert(old_self.removed_by(p) =~= Set::<Seq<Seq<char>>>::empty());
                    assert(old_self@.remove_keys(old_self.removed_by(p)) =~= old_self@);
                }
                false
            },
            Some(c) => {
                let ghost old_child = old_self.children@[c as int].1;
                let ghost removed = old_self.removed_by(p);
                assert(old_child.wf());
                let pruned = self.children[c].1.remove_at(parts, i + 1);
                let ghost mid = *self;
                let ghost new_child = mid.children@[c as int].1;
                proof {
                    assert(mid.children@ == old_self.children@.update(c as int, (old_self.children@[c as int].0, new_child)));
                    lemma_update_child(old_self, mid, c as int, new_child);
                    lemma_child_pos(old_self.children@, key);
                }
                if pruned {
                    self.children.remove(c);
                    proof {
                        lemma_remove_child(mid, *self, c as int);
                        assert(mid.children@[c as int].0@ == key);
                    }
                }
                proof {
                    let fin = *self;
                    assert forall|a: int| 0 <= a < fin.children@.len() implies (#[trigger] fin.children@[a]).1.wf()
                        && has_rules(fin.children@[a].1@) by {
                        if pruned {
                            let src = if a < c { a } else { a + 1 };
                            assert(fin.children@[a] == mid.children@[src]);
                            if src != c {
                                assert(mid.children@[src] == old_self.children@[src]);
                            }
                        } else if a != c {
                            assert(fin.children@[a] == old_self.children@[a]);
                        }
                    }
                    lemma_view_root(fin);
                    let target = old_self@.remove_keys(removed);
                    assert forall|k: Seq<char>| #[trigger] sub_rules(fin@, k) == sub_rules(target, k) by {
                        lemma_sub_remove_keys(old_self@, removed, k);
                        lemma_view_child(old_self, k);
                        let ks = Set::new(|t: Seq<Seq<char>>| removed.contains(seq![k] + t));
                        assert forall|t: Seq<Seq<char>>| #[trigger] ks.contains(t) == cut(old_self, p, seq![k] + t) by {
                            assert((seq![k] + t).drop_first() =~= t);
                            assert((seq![k] + t)[0] == k);
                        }
                        if k == key {
                            if pruned {
                                assert(sub_rules(old_self@, k).remove_keys(ks) =~= Map::<Seq<Seq<char>>, bool>::empty());
                            } else {
                                assert forall|t: Seq<Seq<char>>| #[trigger] ks.contains(t) == old_child.removed_by(rest).contains(t) by {
                                    assert((seq![k] + t).drop_first() =~= t);
                                    assert((seq![k] + t)[0] == k);
                                    assert(cut(old_self, p, seq![k] + t) == cut(old_child, rest, t));
                                }
                                assert(ks =~= old_child.removed_by(rest));
                            }
                        } else {
                            assert(ks =~= Set::<Seq<Seq<char>>>::empty());
                            assert(sub_rules(old_self@, k).remove_keys(ks) =~= sub_rules(old_self@, k));
                        }
                    }
                    assert(!cut(old_self, p, Seq::empty()));
                    lemma_rules_ext(fin@, target);
                    assert(fin.wf());
                    if fin.children@.len() > 0 {
                        lemma_children_has_rules(fin);
                    }
                }
                self.children.len() == 0
            },
        }
    }

    /// Removes the rule node at `path` if it has no children, then every
    /// node on the way up that is left without children; the root stays.
    pub fn remove(&mut self, path: &PermissionPath)
        requires
            old(self).wf(),
        ensures
            final(self).wf(),
            final(self)@ == remove_rules(old(self)@, path@),
    {
        let ghost old_self = *self;
        let parts = path.duplicate().into_vec();
        assert(segments_of(parts@).skip(0) =~= path@);
        self.remove_at(&parts, 0);
        proof {
            assert forall|q: Seq<Seq<char>>| old_self.removed_by(path@).contains(q) == cut_rules(old_self@, path@, q) by {
                lemma_cut_rules(old_self, path@, q);
            }
            assert(old_self.removed_by(path@) =~= Set::new(|q: Seq<Seq<char>>| cut_rules(old_self@, path@, q)));
        }
    }

    /// Whether this tree and `other` hold the same rules.
    pub fn same_rules(&self, other: &Self) -> (r: bool)
        requires
            self.wf(),
            other.wf(),
        ensures
            r == (self@ == other@),
        decreases self,
    {
        proof {
            lemma_view_root(*self);
            lemma_view_root(*other);
        }
        let same_root = match (self.enabled, other.enabled) {
            (None, None) => true,
            (Some(a), Some(b)) => a == b,
            _ => false,
        };
        if !same_root {
            return false;
        }
        let mut i: usize = 0;
        while i < self.children.len()
            invariant
                self.wf(),
                other.wf(),
                i <= self.children@.len(),
                forall|j: int| 0 <= j < i ==> sub_rules(self@, (#[trigger] self.children@[j]).0@) == sub_rules(other@, self.children@[j].0@),
            decreases self.children@.len() - i,
        {
            let key = &self.children[i].0;
            let ghost k = key@;
            proof {
                lemma_child_pos_distinct(self.children@, k, i as int);
                lemma_view_child(*self, k);
                lemma_view_child(*other, k);
            }
            match other.find_child(key) {
                None => {
                    proof {
                        let child = self.children@[i as int].1;
                        assert(has_rules(child@));
                        let q = choose|q: Seq<Seq<char>>| child@.contains_key(q);
                        assert(sub_rules(self@, k).contains_key(q));
                        assert(!sub_rules(other@, k).contains_key(q));
                    }
                    return false;
                },
                Some(j) => {
                    proof {
                        assert(decreases_to!(*self => self.children@[i as int].1)) by {
                            assert(decreases_to!(*self => self.children));
                            assert(decreases_to!(self.children => self.children@));
                            assert(decreases_to!(self.children@ => self.children@[i as int]));
                            assert(decreases_to!(self.children@[i as int] => self.children@[i as int].1));
                        }
                    }
                    if !self.children[i].1.same_rules(&other.children[j].1) {
                        return false;
                    }
                },
            }
            i = i + 1;
        }
        let mut i: usize = 0;
        while i < other.children.len()
            invariant
                self.wf(),
                other.wf(),
                i <= other.children@.len(),
                forall|j: int| 0 <= j < i ==> child_pos(self.children@, (#[trigger] other.children@[j]).0@) >= 0,
            decreases other.children@.len() - i,
        {
            let key = &other.children[i].0;
            let ghost k = key@;
            match self.find_child(key) {
                None => {
                    proof {
                        lemma_child_pos_distinct(other.children@, k, i as int);
                        lemma_view_child(*self, k);
                        lemma_view_child(*other, k);
                        let child = other.children@[i as int].1;
                        assert(has_rules(child@));
                        let q = choose|q: Seq<Seq<char>>| child@.contains_key(q);
                        assert(sub_rules(other@, k).contains_key(q));
                        assert(!sub_rules(self@, k).contains_key(q));
                    }
                    return false;
                },
                Some(_) => {},
            }
            i = i + 1;
        }
        proof {
            assert forall|k: Seq<char>| #[trigger] sub_rules(self@, k) == sub_rules(other@, k) by {
                lemma_child_pos(self.children@, k);
                lemma_child_pos(other.children@, k);
                lemma_view_child(*self, k);
                lemma_view_child(*other, k);
                let c = child_pos(self.children@, k);
                if c >= 0 {
                    assert(sub_rules(self@, self.children@[c].0@) == sub_rules(other@, self.children@[c].0@));
                } else if child_pos(other.children@, k) >= 0 {
                    let d = child_pos(other.children@, k);
                    assert(child_pos(self.children@, other.children@[d].0@) >= 0);
                }
            }
            lemma_rules_ext(self@, other@);
        }
        true
    }

    /// Takes over every rule of `other`: where both have a rule, `other`'s wins.
    pub fn merge(&mut self, other: Self)
        requires
            old(self).wf(),
            other.wf(),
        ensures
            final(self).wf(),
            final(self)@ == old(self)@.union_prefer_right(other@),
        decreases other,
    {
        let ghost old_self = *self;
        let ghost o = other;
        let PermissionRuleNode { children: other_children, enabled: other_enabled } = other;
        if other_enabled.is_some() {
            self.enabled = other_enabled;
        }
        proof {
            assert forall|k: Seq<char>| #[trigger] sub_rules(self@, k) == sub_rules(old_self@, k) by {
                lemma_view_child(*self, k);
                lemma_view_child(old_self, k);
            }
        }
        let mut pending = other_children;
        assert(pending@ =~= o.children@.take(pending@.len() as int));
        assert forall|k: Seq<char>| #[trigger] sub_rules(self@, k) == (if child_pos(o.children@, k) >= pending@.len() {
            sub_rules(old_self@, k).union_prefer_right(o.children@[child_pos(o.children@, k)].1@)
        } else {
            sub_rules(old_self@, k)
        }) by {
            lemma_child_pos(o.children@, k);
        }
        while pending.len() > 0
            invariant
                self.wf(),
                o == other,
                pending@ == o.children@.take(pending@.len() as int),
                pending@.len() <= o.children@.len(),
                o.wf(),
                self.enabled == (if o.enabled is Some { o.enabled } else { old_self.enabled }),
                forall|k: Seq<char>| #[trigger] sub_rules(self@, k) == (if child_pos(o.children@, k) >= pending@.len() {
                    sub_rules(old_self@, k).union_prefer_right(o.children@[child_pos(o.children@, k)].1@)
                } else {
                    sub_rules(old_self@, k)
                }),
            decreases pending@.len(),
        {
            let ghost j = pending@.len() - 1;
            let (key, child) = pending.pop().unwrap();
            assert(o.children@[j] == (key, child));
            let ghost before = *self;
            proof {
                lemma_child_pos(before.children@, key@);
                lemma_child_pos_distinct(o.children@, key@, j);
                assert(child.wf());
                assert(decreases_to!(o => child)) by {
                    assert(decreases_to!(o => o.children));
                    assert(decreases_to!(o.children => o.children@));
                    assert(decreases_to!(o.children@ => o.children@[j]));
                    assert(decreases_to!(o.children@[j] => o.children@[j].1));
                }
            }
            let c = match self.find_child(&key) {
                Some(c) => c,
                None => {
                    let fresh = PermissionRuleNode::new();
                    self.children.push((key.clone(), fresh));
                    proof {
                        lemma_push_fresh(before, *self, key, fresh);
                    }
                    self.children.len() - 1
                },
            };
            let ghost mid = *self;
            proof {
                lemma_view_child(mid, key@);
                lemma_child_pos(mid.children@, key@);
                assert(mid.children@[c as int].1.wf());
            }
            self.children[c].1.merge(child);
            proof {
                let fin = *self;
                let new_child = fin.children@[c as int].1;
                assert(fin.children@ == mid.children@.update(c as int, (mid.children@[c as int].0, new_child)));
                lemma_update_child(mid, fin, c as int, new_child);
                assert forall|a: int| 0 <= a < fin.children@.len() implies (#[trigger] fin.children@[a]).1.wf()
                    && has_rules(fin.children@[a].1@) by {
                    if a != c {
                        assert(fin.children@[a] == mid.children@[a]);
                    } else {
                        assert(has_rules(child@));
                        let q = choose|q: Seq<Seq<char>>| child@.contains_key(q);
                        assert(new_child@.contains_key(q));
                    }
                }
                assert forall|k: Seq<char>| #[trigger] sub_rules(fin@, k) == (if child_pos(o.children@, k) >= pending@.len() {
                    sub_rules(old_self@, k).union_prefer_right(o.children@[child_pos(o.children@, k)].1@)
                } else {
                    sub_rules(old_self@, k)
                }) by {
                    assert(sub_rules(mid@, k) == sub_rules(before@, k));
                    lemma_child_pos(o.children@, k);
                    if k == key@ {
                        assert(child_pos(o.children@, k) == j);
                    } else {
                        if child_pos(o.children@, k) == j {
                            assert(o.children@[j].0@ == k);
                        }
                    }
                }
            }
        }
        proof {
            let fin = *self;
            let target = old_self@.union_prefer_right(o@);
            lemma_view_root(fin);
            lemma_view_root(old_self);
            lemma_view_root(o);
            assert forall|k: Seq<char>| #[trigger] sub_rules(fin@, k) == sub_rules(target, k) by {
                lemma_sub_union(old_self@, o@, k);
                lemma_view_child(o, k);
                lemma_child_pos(o.children@, k);
                if child_pos(o.children@, k) < 0 {
                    assert(sub_rules(old_self@, k).union_prefer_right(Map::empty()) =~= sub_rules(old_self@, k));
                }
            }
            lemma_rules_ext(fin@, target);
        }
    }

    fn records_vec(&self) -> (r: Vec<Vec<String>>)
        ensures
            r@.map_values(|v: Vec<String>| segments_of(v@)) == records_of(*self),
        decreases self,
    {
        let mut records: Vec<Vec<String>> = Vec::new();
        if let Some(b) = self.enabled {
            let text = if b { String::from_str("true") } else { String::from_str("false") };
            let mut one: Vec<String> = Vec::new();
            one.push(text);
            records.push(one);
            assert(segments_of(one@) =~= seq![bool_text(b)]);
        }
        let ghost own = records@.map_values(|v: Vec<String>| segments_of(v@));
        assert(own =~= records_of(*self).take(own.len() as int)) by {
            assert(children_records(*self, 0) =~= Seq::<Seq<Seq<char>>>::empty());
        }
        let mut i: usize = 0;
        while i < self.children.len()
            invariant
                i <= self.children@.len(),
                records@.map_values(|v: Vec<String>| segments_of(v@)) == own + children_records(*self, i as int),
            decreases self.children@.len() - i,
        {
            let key = &self.children[i].0;
            proof {
                assert(decreases_to!(*self => self.children@[i as int].1)) by {
                    assert(decreases_to!(*self => self.children));
                    assert(decreases_to!(self.children => self.children@));
                    assert(decreases_to!(self.children@ => self.children@[i as int]));
                    assert(decreases_to!(self.children@[i as int] => self.children@[i as int].1));
                }
            }
            let sub = self.children[i].1.records_vec();
            let ghost before = records@.map_values(|v: Vec<String>| segments_of(v@));
            let ghost sub_view = sub@.map_values(|v: Vec<String>| segments_of(v@));
            let mut j: usize = 0;
            while j < sub.len()
                invariant
                    j <= sub@.len(),
                    sub_view == sub@.map_values(|v: Vec<String>| segments_of(v@)),
                    key@ == self.children@[i as int].0@,
                    records@.map_values(|v: Vec<String>| segments_of(v@)) == before + sub_view.take(j as int).map_values(
                        |r: Seq<Seq<char>>| seq![key@] + r),
                decreases sub@.len() - j,
            {
                let mut rec: Vec<String> = Vec::new();
                rec.push(key.clone());
                let mut k: usize = 0;
                while k < sub[j].len()
                    invariant
                        k <= sub@[j as int]@.len(),
                        j < sub@.len(),
                        segments_of(rec@) == seq![key@] + segments_of(sub@[j as int]@).take(k as int),
                    decreases sub@[j as int]@.len() - k,
                {
                    let ghost prev = rec@;
                    let item = sub[j][k].clone();
                    assert(item@ == sub@[j as int]@[k as int]@);
                    rec.push(item);
                    assert(rec@ == prev.push(item));
                    assert(segments_of(rec@) =~= segments_of(prev).push(item@));
                    assert(segments_of(sub@[j as int]@).take(k + 1) =~= segments_of(sub@[j as int]@).take(k as int).push(item@));
                    k = k + 1;
                    assert(segments_of(rec@) =~= seq![key@] + segments_of(sub@[j as int]@).take(k as int));
                }
                assert(segments_of(sub@[j as int]@).take(k as int) =~= segments_of(sub@[j as int]@));
                let ghost prev = records@.map_values(|v: Vec<String>| segments_of(v@));
                records.push(rec);
                j = j + 1;
                assert(records@.map_values(|v: Vec<String>| segments_of(v@)) =~= before + sub_view.take(j as int).map_values(
                    |r: Seq<Seq<char>>| seq![key@] + r)) by {
                    assert(records@.map_values(|v: Vec<String>| segments_of(v@)) =~= prev.push(segments_of(rec@)));
                    assert(sub_view.take(j as int) =~= sub_view.take(j - 1).push(sub_view[j - 1]));
                }
            }
            assert(sub_view.take(j as int) =~= sub_view);
            i = i + 1;
            assert(children_records(*self, i as int) == children_records(*self, i - 1) + records_of(self.children@[i - 1].1).map_values(
                |r: Seq<Seq<char>>| seq![self.children@[i - 1].0@] + r));
            assert(records@.map_values(|v: Vec<String>| segments_of(v@)) =~= own + children_records(*self, i as int));
        }
        assert(records_of(*self) =~= own + children_records(*self, self.children@.len() as int));
        records
    }

    /// Every rule of the tree as one path: the rule's path with its value,
    /// `true` or `false`, as the last segment; in tree order (see `records`).
    pub fn get_records(&self) -> (r: Vec<PermissionPath>)
        ensures
            r@.map_values(|p: PermissionPath| p@) == self.records(),
    {
        let recs = self.records_vec();
        let mut out: Vec<PermissionPath> = Vec::new();
        let mut i: usize = 0;
        while i < recs.len()
            invariant
                i <= recs@.len(),
                out@.map_values(|p: PermissionPath| p@) == recs@.map_values(|v: Vec<String>| segments_of(v@)).take(i as int),
            decreases recs@.len() - i,
        {
            let rec = recs[i].clone();
            assert(segments_of(rec@) == segments_of(recs@[i as int]@)) by {
                assert(rec@ =~= recs@[i as int]@);
            }
            let ghost prev = out@;
            let path = PermissionPath::from_vec(rec);
            out.push(path);
            assert(out@ == prev.push(path));
            assert(out@.map_values(|p: PermissionPath| p@) =~= prev.map_values(|p: PermissionPath| p@).push(path@));
            assert(recs@.map_values(|v: Vec<String>| segments_of(v@)).take(i + 1) =~= recs@.map_values(|v: Vec<String>| segments_of(v@)).take(i as int).push(segments_of(recs@[i as int]@)));
            i = i + 1;
            assert(out@.map_values(|p: PermissionPath| p@) =~= recs@.map_values(|v: Vec<String>| segments_of(v@)).take(i as int));
        }
        assert(recs@.map_values(|v: Vec<String>| segments_of(v@)).take(i as int) =~= recs@.map_values(|v: Vec<String>| segments_of(v@)));
        out
    }

    /// Sets the rule at `segments_of(parts).skip(i)` to `b`.
    fn set_at(&mut self, parts: &Vec<String>, i: usize, b: bool)
        requires
            i <= parts@.len(),
            old(self).wf(),
        ensures
            final(self).wf(),
            final(self)@ == old(self)@.insert(segments_of(parts@).skip(i as int), b),
        decreases parts@.len() - i,
    {
        let ghost p = segments_of(parts@).skip(i as int);
        let ghost old_self = *self;
        if i == parts.len() {
            self.enabled = Some(b);
            proof {
                assert(p =~= Seq::<Seq<char>>::empty());
                lemma_view_root(*self);
                lemma_view_root(old_self);
                assert forall|k: Seq<char>| #[trigger] sub_rules(self@, k) == sub_rules(old_self@.insert(p, b), k) by {
                    lemma_view_child(*self, k);
                    lemma_view_child(old_self, k);
                    assert(sub_rules(old_self@.insert(p, b), k) =~= sub_rules(old_self@, k)) by {
                        assert forall|q: Seq<Seq<char>>| seq![k] + q != p by {
                            assert((seq![k] + q).len() > 0);
                        }
                    }
                }
                lemma_rules_ext(self@, old_self@.insert(p, b));
            }
            return;
        }
        let ghost key = parts@[i as int]@;
        assert(p[0] == key);
        assert(p.drop_first() =~= segments_of(parts@).skip(i + 1));
        proof {
            lemma_child_pos(old_self.children@, key);
        }
        let c = match self.find_child(&parts[i]) {
            Some(c) => c,
            None => {
                let fresh = PermissionRuleNode::new();
                self.children.push((parts[i].clone(), fresh));
                self.children.len() - 1
            },
        };
        let ghost mid = *self;
        let ghost old_child = mid.children@[c as int].1;
        proof {
            assert(mid.children@[c as int].0@ == key);
            assert forall|a: int, bb: int| 0 <= a < bb < mid.children@.len() implies
                (#[trigger] mid.children@[a]).0@ != (#[trigger] mid.children@[bb]).0@ by {
                if bb == old_self.children@.len() {
                    assert(old_self.children@[a] == mid.children@[a]);
                } else {
                    assert(old_self.children@[a] == mid.children@[a]);
                    assert(old_self.children@[bb] == mid.children@[bb]);
                }
            }
            assert(old_child.wf());
            if child_pos(old_self.children@, key) >= 0 {
                lemma_view_child(old_self, key);
            } else {
                lemma_view_child(old_self, key);
            }
            assert(sub_rules(old_self@, key) == old_child@);
        }
        self.children[c].1.set_at(parts, i + 1, b);
        proof {
            let fin = *self;
            let new_child = fin.children@[c as int].1;
            assert(fin.children@ == mid.children@.update(c as int, (mid.children@[c as int].0, new_child)));
            assert forall|a: int, bb: int| 0 <= a < bb < fin.children@.len() implies
                (#[trigger] fin.children@[a]).0@ != (#[trigger] fin.children@[bb]).0@ by {
                assert(fin.children@[a].0 == mid.children@[a].0);
                assert(fin.children@[bb].0 == mid.children@[bb].0);
            }
            assert forall|a: int| 0 <= a < fin.children@.len() implies (#[trigger] fin.children@[a]).1.wf()
                && has_rules(fin.children@[a].1@) by {
                if a != c {
                    assert(fin.children@[a] == mid.children@[a]);
                    if a < old_self.children@.len() {
                        assert(mid.children@[a] == old_self.children@[a]);
                    }
                } else {
                    assert(new_child@.contains_key(p.drop_first()));
                }
            }
            assert(fin.wf());
            lemma_view_root(fin);
            lemma_view_root(old_self);
            assert forall|k: Seq<char>| #[trigger] sub_rules(fin@, k) == sub_rules(old_self@.insert(p, b), k) by {
                lemma_sub_insert(old_self@, p, b, k);
                lemma_view_child(fin, k);
                lemma_view_child(old_self, k);
                lemma_child_pos(fin.children@, k);
                lemma_child_pos(old_self.children@, k);
                if k == key {
                    lemma_child_pos_distinct(fin.children@, k, c as int);
                } else {
                    let f = child_pos(fin.children@, k);
                    let o = child_pos(old_self.children@, k);
                    if f >= 0 {
                        assert(f != c);
                        assert(f < old_self.children@.len());
                        assert(fin.children@[f] == old_self.children@[f]);
                        lemma_child_pos_distinct(old_self.children@, k, f);
                    } else if o >= 0 {
                        assert(o != c);
                        assert(fin.children@[o] == old_self.children@[o]);
                        assert(fin.children@[o].0@ == k);
                    }
                }
            }
            lemma_rules_ext(fin@, old_self@.insert(p, b));
        }
    }

    /// Sets the rule at `path` to `enabled`, creating the nodes on the way.
    pub fn set(&mut self, path: PermissionPath, enabled: bool)
        requires
            old(self).wf(),
        ensures
            final(self).wf(),
            final(self)@ == old(self)@.insert(path@, enabled),
    {
        let ghost pv = path@;
        let parts = path.into_vec();
        assert(segments_of(parts@).skip(0) =~= pv);
        self.set_at(&parts, 0, enabled);
    }

    /// The position of the child under `key`, as `child_pos` gives it.
    fn find_child(&self, key: &String) -> (r: Option<usize>)
        ensures
            match r {
                Some(c) => c == child_pos(self.children@, key@) && c < self.children@.len(),
                None => child_pos(self.children@, key@) < 0,
            },
    {
        proof {
            lemma_child_pos(self.children@, key@);
        }
        let mut i = self.children.len();
        while i > 0
            invariant
                i <= self.children@.len(),
                forall|j: int| i <= j < self.children@.len() ==> (#[trigger] self.children@[j]).0@ != key@,
                -1 <= child_pos(self.children@, key@) < self.children@.len(),
                child_pos(self.children@, key@) >= 0 ==> self.children@[child_pos(self.children@, key@)].0@ == key@,
                forall|j: int| child_pos(self.children@, key@) < j < self.children@.len() ==> (#[trigger] self.children@[j]).0@ != key@,
            decreases i,
        {
            i = i - 1;
            if self.children[i].0 == *key {
                return Some(i);
            }
        }
        None
    }
}


impl Default for PermissionRuleNode {
    /// A tree with no rules.
    fn default() -> (r: Self)
        ensures
            r@ == Map::<Seq<Seq<char>>, bool>::empty(),
            r.wf(),
    {
        PermissionRuleNode::new()
    }
}

/// A rule to set: the path and whether it is allowed.
pub type PermissionRule = (PermissionPath, bool);

/// The paths and values of a list of rules.
pub open spec fn rules_view(v: Seq<PermissionRule>) -> Seq<(Seq<Seq<char>>, bool)> {
    v.map_values(|r: PermissionRule| (r.0@, r.1))
}

/// The paths of a list of permission paths.
pub open spec fn paths_view(v: Seq<PermissionPath>) -> Seq<Seq<Seq<char>>> {
    v.map_values(|p: PermissionPath| p@)
}

/// `m` with each rule of `rules` set in turn.
pub open spec fn set_all(m: Rules, rules: Seq<(Seq<Seq<char>>, bool)>) -> Rules
    decreases rules.len(),
{
    if rules.len() == 0 {
        m
    } else {
        set_all(m, rules.drop_last()).insert(rules.last().0, rules.last().1)
    }
}

/// `m` with each path of `paths` removed in turn (see `remove_rules`).
pub open spec fn remove_all(m: Rules, paths: Seq<Seq<Seq<char>>>) -> Rules
    decreases paths.len(),
{
    if paths.len() == 0 {
        m
    } else {
        remove_rules(remove_all(m, paths.drop_last()), paths.last())
    }
}

/// Removing paths only takes rules away: each rule that stays keeps its value.
proof fn lemma_remove_all_within(m: Rules, ps: Seq<Seq<Seq<char>>>)
    ensures
        forall|q: Seq<Seq<char>>| #[trigger] remove_all(m, ps).contains_key(q)
            ==> m.contains_key(q) && remove_all(m, ps)[q] == m[q],
    decreases ps.len(),
{
    if ps.len() > 0 {
        let r = remove_all(m, ps.drop_last());
        lemma_remove_all_within(m, ps.drop_last());
        let gone = Set::new(|q: Seq<Seq<char>>| cut_rules(r, ps.last(), q));
        assert forall|q: Seq<Seq<char>>| #[trigger] remove_all(m, ps).contains_key(q)
            implies r.contains_key(q) && remove_all(m, ps)[q] == r[q] by {
            assert(remove_all(m, ps) == r.remove_keys(gone));
        }
    }
}

/// Removing a list of paths is removing each of them in turn, in order.
pub proof fn law_remove_all_in_turn(m: Rules, ps: Seq<Seq<Seq<char>>>, p: Seq<Seq<char>>)
    ensures
        remove_all(m, ps.push(p)) == remove_rules(remove_all(m, ps), p),
        remove_all(m, seq![p]) == remove_rules(m, p),
{
    assert(ps.push(p).drop_last() =~= ps);
    assert(seq![p].drop_last() =~= Seq::<Seq<Seq<char>>>::empty());
    assert(remove_all(m, seq![p].drop_last()) == m);
}

/// Removing a list of paths takes rules away and changes none: a rule that
/// stays keeps its value, and a rule that goes lies on the way to (is a
/// prefix of) one of the listed paths.
pub proof fn law_remove_all_only_prefixes(m: Rules, ps: Seq<Seq<Seq<char>>>, q: Seq<Seq<char>>)
    requires
        m.contains_key(q),
    ensures
        remove_all(m, ps).contains_key(q) ==> remove_all(m, ps)[q] == m[q],
        !remove_all(m, ps).contains_key(q) ==> exists|i: int| 0 <= i < ps.len() && is_prefix(q, #[trigger] ps[i]),
    decreases ps.len(),
{
    lemma_remove_all_within(m, ps);
    if ps.len() > 0 {
        let init = ps.drop_last();
        let r = remove_all(m, init);
        law_remove_all_only_prefixes(m, init, q);
        if r.contains_key(q) {
            law_remove_drops_only_prefixes(r, ps.last(), q);
            if !remove_all(m, ps).contains_key(q) {
                assert(is_prefix(q, ps[ps.len() - 1]));
            }
        } else {
            let i = choose|i: int| 0 <= i < init.len() && is_prefix(q, #[trigger] init[i]);
            assert(init[i] == ps[i]);
        }
    }
}

/// Every rule with nothing below it that a list of paths names, at any
/// position of the list, is gone after removing the list.
pub proof fn law_remove_all_drops_leaves(m: Rules, ps: Seq<Seq<Seq<char>>>, i: int)
    requires
        0 <= i < ps.len(),
        ps[i].len() > 0,
        forall|q: Seq<Seq<char>>| #[trigger] m.contains_key(q) && is_prefix(ps[i], q) ==> q == ps[i],
    ensures
        !remove_all(m, ps).contains_key(ps[i]),
    decreases ps.len(),
{
    let init = ps.drop_last();
    let r = remove_all(m, init);
    lemma_remove_all_within(m, init);
    lemma_remove_all_within(m, ps);
    if i == ps.len() - 1 {
        if r.contains_key(ps[i]) {
            assert forall|q: Seq<Seq<char>>| #[trigger] r.contains_key(q) && is_prefix(ps[i], q) implies q == ps[i] by {
                assert(m.contains_key(q));
            }
            law_remove_drops_leaf(r, ps[i]);
        }
    } else {
        assert(init[i] == ps[i]);
        law_remove_all_drops_leaves(m, init, i);
        assert(!r.contains_key(ps[i]));
        if remove_all(m, ps).contains_key(ps[i]) {
            assert(remove_rules(r, ps.last()).contains_key(ps[i]));
        }
    }
}

/// Sets every rule of `perms`, in order, in `tree`.
pub fn set_rules(tree: &mut PermissionRuleNode, perms: &Vec<PermissionRule>)
    requires
        old(tree).wf(),
    ensures
        final(tree).wf(),
        final(tree)@ == set_all(old(tree)@, rules_view(perms@)),
{
    let ghost start = tree@;
    let ghost all = rules_view(perms@);
    let mut i: usize = 0;
    assert(all.take(0) =~= Seq::<(Seq<Seq<char>>, bool)>::empty());
    while i < perms.len()
        invariant
            i <= perms@.len(),
            all == rules_view(perms@),
            tree.wf(),
            tree@ == set_all(start, all.take(i as int)),
        decreases perms@.len() - i,
    {
        let path = perms[i].0.duplicate();
        let b = perms[i].1;
        tree.set(path, b);
        assert(all.take(i + 1).drop_last() =~= all.take(i as int));
        assert(all.take(i + 1).last() == all[i as int]);
        i = i + 1;
    }
    assert(all.take(i as int) =~= all);
}

/// Removes every path of `paths`, in order, from `tree`.
pub fn remove_paths(tree: &mut PermissionRuleNode, paths: &Vec<PermissionPath>)
    requires
        old(tree).wf(),
    ensures
        final(tree).wf(),
        final(tree)@ == remove_all(old(tree)@, paths_view(paths@)),
{
    let ghost start = tree@;
    let ghost all = paths_view(paths@);
    let mut i: usize = 0;
    assert(all.take(0) =~= Seq::<Seq<Seq<char>>>::empty());
    while i < paths.len()
        invariant
            i <= paths@.len(),
            all == paths_view(paths@),
            tree.wf(),
            tree@ == remove_all(start, all.take(i as int)),
        decreases paths@.len() - i,
    {
        tree.remove(&paths[i]);
        assert(all.take(i + 1).drop_last() =~= all.take(i as int));
        assert(all.take(i + 1).last() == all[i as int]);
        i = i + 1;
    }
    assert(all.take(i as int) =~= all);
}

/// A holder of permission rules: a user or a group.
pub trait PermissionInterface: Sized {
    /// The rule tree of the holder.
    spec fn perms(&self) -> PermissionRuleNode;

    /// The holder is well formed.
    spec fn inv(&self) -> bool;

    /// Sets the rule at `path` to `enabled`.
    fn set_perm(&mut self, path: PermissionPath, enabled: bool)
        requires
            old(self).inv(),
        ensures
            final(self).inv(),
            final(self).perms()@ == old(self).perms()@.insert(path@, enabled),
    ;

    /// Sets each rule of `perms`, in order.
    fn set_perms(&mut self, perms: Vec<PermissionRule>)
        requires
            old(self).inv(),
        ensures
            final(self).inv(),
            final(self).perms()@ == set_all(old(self).perms()@, rules_view(perms@)),
    ;

    /// Removes the rule node at `path` (see `remove_rules`).
    fn remove_perm(&mut self, path: &PermissionPath)
        requires
            old(self).inv(),
        ensures
            final(self).inv(),
            final(self).perms()@ == remove_rules(old(self).perms()@, path@),
    ;

    /// Removes each path of `perms`, in order.
    fn remove_perms(&mut self, perms: Vec<PermissionPath>)
        requires
            old(self).inv(),
        ensures
            final(self).inv(),
            final(self).perms()@ == remove_all(old(self).perms()@, paths_view(perms@)),
    ;

    /// The rule that decides `path`, and how it matched.
    fn get_perm(&self, path: &PermissionPath) -> (r: Option<(bool, MatchType)>)
        requires
            self.inv(),
        ensures
            r == resolve(self.perms()@, path@),
    ;

    /// The rule tree.
    fn get_perms(&self) -> (r: &PermissionRuleNode)
        requires
            self.inv(),
        ensures
            *r == self.perms(),
            r.wf(),
    ;

    /// Every rule as one path ending in its value (see `records`).
    fn get_records(&self) -> (r: Vec<PermissionPath>)
        requires
            self.inv(),
        ensures
            paths_view(r@) == self.perms().records(),
    ;

    /// Takes over every rule of `other`; where both have one, `other`'s wins.
    fn merge(&mut self, other: Self)
        requires
            old(self).inv(),
            other.inv(),
        ensures
            final(self).inv(),
            final(self).perms()@ == old(self).perms()@.union_prefer_right(other.perms()@),
    ;
}

} // verus!

