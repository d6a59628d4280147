//! Permission paths: the dotted segments of a permission such as `a.b.c`,
//! held in a `SmallVec` as the rest of the system does.

use vstd::prelude::*;
use vstd::string::*;
use smallvec::SmallVec;
use crate::text::{join_spec, parts_avoid, split_on, join_with, lemma_join_injective};

verus! {

/// A permission path: its segments, e.g. `["a", "b", "c"]` for `a.b.c`.
/// The segments live in a `SmallVec` that Verus does not see into; the
/// functions below say what they hold through `path_parts`.
#[verifier::external_body]
#[derive(Debug, PartialEq, Eq)]
pub struct PermissionPath {
    parts: SmallVec<[String; 6]>,
}

/// The segments that a permission path holds, in order.
pub uninterp spec fn path_parts(p: PermissionPath) -> Seq<Seq<char>>;

/// The characters of each string of `v`, in order.
pub open spec fn segments_of(v: Seq<String>) -> Seq<Seq<char>> {
    v.map_values(|s: String| s@)
}

impl View for PermissionPath {
    type V = Seq<Seq<char>>;

    open spec fn view(&self) -> Seq<Seq<char>> {
        path_parts(*self)
    }
}

/// `SmallVec::from_vec`: a small vector holding the vector's items in the same order.
#[verifier::external_body]
fn parts_from_vec(v: Vec<String>) -> (p: PermissionPath)
    ensures
        path_parts(p) == segments_of(v@),
{
    PermissionPath { parts: SmallVec::from_vec(v) }
}

/// `SmallVec::into_vec`: a vector holding the small vector's items in the same order.
#[verifier::external_body]
fn parts_into_vec(p: PermissionPath) -> (v: Vec<String>)
    ensures
        segments_of(v@) == path_parts(p),
{
    p.parts.into_vec()
}

/// `SmallVec::clone`: a small vector with clones of the items, in the same order.
#[verifier::external_body]
fn parts_clone(p: &PermissionPath) -> (q: PermissionPath)
    ensures
        path_parts(q) == path_parts(*p),
{
    PermissionPath { parts: p.parts.clone() }
}

impl PermissionPath {
    /// The path with the segments of `v`, in order.
    pub fn from_vec(v: Vec<String>) -> (p: PermissionPath)
        ensures
            p@ == segments_of(v@),
    {
        parts_from_vec(v)
    }

    /// The segments of the path, in order.
    pub fn into_vec(self) -> (v: Vec<String>)
        ensures
            segments_of(v@) == self@,
    {
        parts_into_vec(self)
    }

    /// A path with the same segments.
    pub fn duplicate(&self) -> (p: PermissionPath)
        ensures
            p@ == self@,
    {
        parts_clone(self)
    }
}


/// Reading and writing permission paths in their dotted form.
/// The path whose dotted text is `text`: the one list of segments that
/// hold no `.` and, joined with `.`, give `text`.
pub open spec fn path_of(text: Seq<char>) -> Seq<Seq<char>> {
    choose|p: Seq<Seq<char>>| p.len() >= 1 && join_spec(p, seq!['.']) == text && parts_avoid(p, '.')
}

pub trait PermPath: Sized {
    /// The path of the dotted text `path`.
    fn from_str(path: &str) -> Self;

    /// The dotted text of the path.
    fn format(&self) -> String;
}

impl PermPath for PermissionPath {
    /// Splits `path` at every `.`: the segments contain no `.` and, joined
    /// with `.`, give back `path` (so `""` is one empty segment).
    fn from_str(path: &str) -> (p: Self)
        ensures
            p@.len() >= 1,
            join_spec(p@, seq!['.']) == path@,
            parts_avoid(p@, '.'),
            p@ == path_of(path@),
    {
        let parts = split_on(path, '.');
        let p = PermissionPath::from_vec(parts);
        proof {
            let q = path_of(path@);
            assert(p@.len() >= 1 && join_spec(p@, seq!['.']) == path@ && parts_avoid(p@, '.'));
            lemma_join_injective(q, p@, '.');
        }
        p
    }

    /// The segments joined with `.`.
    fn format(&self) -> (s: String)
        ensures
            s@ == join_spec(self@, seq!['.']),
    {
        let parts = self.duplicate().into_vec();
        let dot = String::from_str(".");
        proof {
            reveal_strlit(".");
        }
        assert(dot@ =~= seq!['.']);
        join_with(parts.as_slice(), dot.as_str())
    }
}

/// Parsing what was formatted gives back the path: if `q` is what
/// `from_str` returns for the text that `format` gives for `p`, and `p` has
/// at least one segment and none that holds a `.`, then `q` is `p`.
pub proof fn law_parse_formatted(p: Seq<Seq<char>>, q: Seq<Seq<char>>)
    requires
        p.len() >= 1,
        parts_avoid(p, '.'),
        q.len() >= 1,
        parts_avoid(q, '.'),
        join_spec(q, seq!['.']) == join_spec(p, seq!['.']),
    ensures
        q == p,
{
    lemma_join_injective(q, p, '.');
}

} // verus!

