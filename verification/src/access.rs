//! The decisions of the permission middleware that asks a permission
//! service: which permission a request needs, and what its answer means.

use vstd::prelude::*;
use vstd::string::*;
use crate::text::{replace_spec, replace_all, has_char};
use crate::patterns::{complete, substitute, holes, pairs_view, pattern_holes, fill_holes, ExtractedPathKV, CompletePerm};

verus! {

/// The status answered to a request that lacks a permission.
pub const STATUS_UNAUTHORIZED: u16 = 401;

/// The status answered to a request to a hidden route that lacks a permission.
pub const STATUS_NOT_FOUND: u16 = 404;

/// The reserved hole that stands for the requesting user's identifier.
pub open spec fn from_access() -> Seq<char> {
    seq!['{', 'f', 'r', 'o', 'm', '_', 'a', 'c', 'c', 'e', 's', 's', '}']
}

/// The permission a route needs: a fixed one, or a pattern with holes.
#[derive(Debug)]
pub enum PermissionKind {
    /// A permission without holes.
    NoPat { permission: String },
    /// A permission with holes, and each hole (with its braces) with its name.
    Pattern { incomplete: String, replace: Vec<(String, String)> },
}

/// The permission that `kind` asks of the user `user_id` given the values
/// `kvs` extracted from the path: a fixed one as it is; a pattern with
/// `{from_access}` replaced by the user's identifier (unless it is empty),
/// then each listed hole by its value; none if a hole is left.
pub open spec fn completion(kind: PermissionKind, kvs: Option<&ExtractedPathKV>, user_id: Seq<char>) -> Option<Seq<char>> {
    match kind {
        PermissionKind::NoPat { permission } => Some(permission@),
        PermissionKind::Pattern { incomplete, replace } => {
            let p1 = if user_id.len() != 0 {
                replace_spec(incomplete@, from_access(), user_id)
            } else {
                incomplete@
            };
            let p2 = match kvs {
                Some(kv) => substitute(p1, replace@, kv.0@),
                None => p1,
            };
            if complete(p2) {
                Some(p2)
            } else {
                None
            }
        },
    }
}

impl PermissionKind {
    /// The kind of `permission`: a pattern if it has holes (see `holes`).
    pub fn of(permission: String) -> (r: Self)
        ensures
            holes(permission@).len() == 0 ==> (r matches PermissionKind::NoPat { permission: p } && p@ == permission@),
            holes(permission@).len() != 0 ==> (r matches PermissionKind::Pattern { incomplete, replace } && incomplete@
                == permission@ && pairs_view(replace@) == holes(permission@)),
    {
        let c = pattern_holes(permission.as_str());
        if c.len() == 0 {
            PermissionKind::NoPat { permission }
        } else {
            PermissionKind::Pattern { incomplete: permission, replace: c }
        }
    }

    /// The permission to ask of `user_id` (see `completion`).
    pub fn try_complete(self, kvs: Option<&ExtractedPathKV>, user_id: &str) -> (r: Option<String>)
        ensures
            self is Pattern && r is Some ==> complete(r->Some_0@),
            match r {
                Some(s) => completion(self, kvs, user_id@) == Some(s@),
                None => completion(self, kvs, user_id@) is None,
            },
    {
        match self {
            PermissionKind::NoPat { permission } => Some(permission),
            PermissionKind::Pattern { incomplete, replace } => {
                let mut permission = incomplete.clone();
                if !user_id.is_empty() {
                    let token = "{from_access}";
                    proof {
                        reveal_strlit("{from_access}");
                        assert(token@ =~= from_access());
                    }
                    permission = replace_all(permission.as_str(), token, user_id);
                }
                let permission = fill_holes(permission, &replace, kvs);
                if permission.is_complete() {
                    Some(permission)
                } else {
                    None
                }
            },
        }
    }
}

/// What the middleware does with a request for a permission: the route's
/// permission and the status it answers on failure.
#[derive(Debug)]
pub struct PermissionMiddlewareBundle {
    pub permission: PermissionKind,
    pub on_fail: u16,
}

impl PermissionMiddlewareBundle {
    /// The bundle for `permission`, answering `on_fail` on failure.
    /// A permission definition holds no `*`.
    pub fn new(permission: String, on_fail: u16) -> (r: Self)
        requires
            !permission@.contains('*'),
        ensures
            r.on_fail == on_fail,
            holes(permission@).len() == 0 ==> (r.permission matches PermissionKind::NoPat { permission: p } && p@
                == permission@),
            holes(permission@).len() != 0 ==> (r.permission matches PermissionKind::Pattern { incomplete, replace }
                && incomplete@ == permission@ && pairs_view(replace@) == holes(permission@)),
    {
        PermissionMiddlewareBundle { permission: PermissionKind::of(permission), on_fail }
    }
}

/// Whether a permission definition is refused for holding a wildcard.
pub fn defines_wildcard(permission: &str) -> (r: bool)
    ensures
        r == permission@.contains('*'),
{
    has_char(permission, '*')
}

/// A step of the middleware's handling of a request.
#[derive(Debug, PartialEq, Eq)]
pub enum AccessStep {
    /// Answer with this status.
    Reject { status: u16 },
    /// Ask the permission service whether the user holds the permission.
    Ask { user_uid: String, permission: String },
    /// Hand the request on.
    Pass,
}

/// The first step for a request of `user_uid` (empty for a guest): ask for
/// the completed permission, or reject with `on_fail` if it cannot be completed.
pub fn begin_check(kind: PermissionKind, kvs: Option<&ExtractedPathKV>, user_uid: String, on_fail: u16) -> (r: AccessStep)
    ensures
        match completion(kind, kvs, user_uid@) {
            None => r == (AccessStep::Reject { status: on_fail }),
            Some(p) => r matches AccessStep::Ask { user_uid: u, permission: q } && u@ == user_uid@ && q@ == p,
        },
{
    match kind.try_complete(kvs, user_uid.as_str()) {
        None => AccessStep::Reject { status: on_fail },
        Some(permission) => AccessStep::Ask { user_uid, permission },
    }
}

/// The step after the permission service answered `reply` (none when the
/// call failed): pass only on an allowing answer.
pub fn finish_check(reply: Option<bool>, on_fail: u16) -> (r: AccessStep)
    ensures
        reply == Some(true) ==> r == AccessStep::Pass,
        reply != Some(true) ==> r == (AccessStep::Reject { status: on_fail }),
{
    match reply {
        Some(true) => AccessStep::Pass,
        _ => AccessStep::Reject { status: on_fail },
    }
}

} // verus!
