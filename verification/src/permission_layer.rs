//! The decisions of the permission middleware that keeps permissions in a
//! database: how a route's permission is registered and completed.

use vstd::prelude::*;
use crate::patterns::{complete, substitute, holes, pairs_view, pattern_holes, fill_holes, ExtractedPathKV, CompletePerm};
use crate::access::{STATUS_UNAUTHORIZED, STATUS_NOT_FOUND};

verus! {

/// A route's permission: a fixed one, known by its registered identifier,
/// or a pattern with holes, each hole (with its braces) with its name.
#[derive(Debug)]
pub enum PermissionPattern {
    NoPat { perm_id: i32 },
    Pattern { replace: Vec<(String, String)> },
}

/// A route's permission, how it is filled, and the status answered on failure.
#[derive(Debug)]
pub struct PermissionBundle {
    pub perm: String,
    pub pat: PermissionPattern,
    pub on_fail: u16,
}

/// `perm` with the holes of `replace` filled from `kvs`, if none is left.
pub open spec fn filled(perm: Seq<char>, replace: Seq<(String, String)>, kvs: Option<&ExtractedPathKV>) -> Option<Seq<char>> {
    let p = match kvs {
        Some(kv) => substitute(perm, replace, kv.0@),
        None => perm,
    };
    if complete(p) {
        Some(p)
    } else {
        None
    }
}

impl PermissionBundle {
    /// The bundle of `permission`: a pattern if it has holes, else the fixed
    /// permission registered as `perm_id` (which only then is used). It
    /// answers `401` on failure. A permission definition holds no `*`.
    pub fn new(permission: String, perm_id: i32) -> (r: Self)
        requires
            !permission@.contains('*'),
        ensures
            r.perm@ == permission@,
            r.on_fail == STATUS_UNAUTHORIZED,
            holes(permission@).len() == 0 ==> r.pat == (PermissionPattern::NoPat { perm_id }),
            holes(permission@).len() != 0 ==> (r.pat matches PermissionPattern::Pattern { replace } && pairs_view(replace@)
                == holes(permission@)),
    {
        let c = pattern_holes(permission.as_str());
        let pat = if c.len() == 0 {
            PermissionPattern::NoPat { perm_id }
        } else {
            PermissionPattern::Pattern { replace: c }
        };
        PermissionBundle { perm: permission, pat, on_fail: STATUS_UNAUTHORIZED }
    }

    /// The permission a request asks for: a fixed one as it is; a pattern
    /// filled from `kvs`, unless a hole is left.
    pub fn compute(&self, kvs: Option<&ExtractedPathKV>) -> (r: Option<String>)
        ensures
            match self.pat {
                PermissionPattern::Pattern { replace } => match r {
                    Some(s) => filled(self.perm@, replace@, kvs) == Some(s@),
                    None => filled(self.perm@, replace@, kvs) is None,
                },
                PermissionPattern::NoPat { .. } => r matches Some(s) && s@ == self.perm@,
            },
    {
        match &self.pat {
            PermissionPattern::Pattern { replace } => {
                let permission = fill_holes(self.perm.clone(), replace, kvs);
                if permission.is_complete() {
                    Some(permission)
                } else {
                    None
                }
            },
            PermissionPattern::NoPat { .. } => Some(self.perm.clone()),
        }
    }

    /// A pattern filled from `kvs`, unless a hole is left; none for a fixed permission.
    pub fn try_substitute(&self, kvs: Option<&ExtractedPathKV>) -> (r: Option<String>)
        ensures
            match self.pat {
                PermissionPattern::Pattern { replace } => match r {
                    Some(s) => filled(self.perm@, replace@, kvs) == Some(s@),
                    None => filled(self.perm@, replace@, kvs) is None,
                },
                PermissionPattern::NoPat { .. } => r is None,
            },
    {
        match &self.pat {
            PermissionPattern::Pattern { replace } => {
                let permission = fill_holes(self.perm.clone(), replace, kvs);
                if permission.is_complete() {
                    Some(permission)
                } else {
                    None
                }
            },
            PermissionPattern::NoPat { .. } => None,
        }
    }

    /// The registered identifier of a fixed permission; none for a pattern.
    pub fn non_dynamic(&self) -> (r: Option<i32>)
        ensures
            match self.pat {
                PermissionPattern::NoPat { perm_id } => r == Some(perm_id),
                PermissionPattern::Pattern { .. } => r is None,
            },
    {
        match &self.pat {
            PermissionPattern::NoPat { perm_id } => Some(*perm_id),
            PermissionPattern::Pattern { .. } => None,
        }
    }

    /// Whether a request with a token passes: it never does yet; the answer
    /// is the failure status.
    pub fn try_pass(&self, kvs: Option<&ExtractedPathKV>) -> (r: Result<(), u16>)
        ensures
            r == Err::<(), u16>(self.on_fail),
    {
        Err(self.on_fail)
    }

    /// Whether a request passes: without a token it is answered `401`;
    /// with one, as `try_pass` says.
    pub fn check_request(&self, has_token: bool, kvs: Option<&ExtractedPathKV>) -> (r: Result<(), u16>)
        ensures
            !has_token ==> r == Err::<(), u16>(STATUS_UNAUTHORIZED),
            has_token ==> r == Err::<(), u16>(self.on_fail),
    {
        if !has_token {
            return Err(STATUS_UNAUTHORIZED);
        }
        self.try_pass(kvs)
    }
}

/// The middleware of one route's permission.
#[derive(Debug)]
pub struct PermissionAccessLayer(pub PermissionBundle);

impl PermissionAccessLayer {
    /// The same layer, answering `404` on failure, so that the route looks absent.
    pub fn hidden(self) -> (r: Self)
        ensures
            r.0.on_fail == STATUS_NOT_FOUND,
            r.0.perm == self.0.perm,
            r.0.pat == self.0.pat,
    {
        let mut s = self;
        s.0.on_fail = STATUS_NOT_FOUND;
        s
    }
}

} // verus!
