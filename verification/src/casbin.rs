//! The decisions of the policy-store permission middleware: a route's
//! permission, its holes, and how a request fills them.

use vstd::prelude::*;
use crate::patterns::{complete, substitute, holes, pairs_view, pattern_holes, fill_holes, ExtractedPathKV, CompletePerm};
use crate::permission_layer::filled;
use crate::access::{STATUS_UNAUTHORIZED, STATUS_NOT_FOUND};

verus! {

/// Something that can tell whether it holds a permission.
pub trait PermissionChecker {
    /// Whether `perm` is held.
    fn check(&self, perm: &String) -> bool;
}

/// A route's permission with its holes, and the status answered on failure.
#[derive(Debug)]
pub struct PermissionBundle {
    pub path: String,
    pub pattern: Vec<(String, String)>,
    pub on_fail: u16,
}

impl PermissionBundle {
    /// The bundle of `permission` with its holes (see `holes`), answering
    /// `401` on failure. A permission definition holds no `*`.
    pub fn new(permission: &str) -> (r: Self)
        requires
            !permission@.contains('*'),
        ensures
            r.path@ == permission@,
            pairs_view(r.pattern@) == holes(permission@),
            r.on_fail == STATUS_UNAUTHORIZED,
    {
        let pattern = pattern_holes(permission);
        PermissionBundle { path: permission.to_string(), pattern, on_fail: STATUS_UNAUTHORIZED }
    }

    /// The permission a request asks for: without holes the path as it is;
    /// else the path filled from `kvs`, unless a hole is left.
    pub fn try_substitute(&self, kvs: Option<&ExtractedPathKV>) -> (r: Option<String>)
        ensures
            self.pattern@.len() == 0 ==> (r matches Some(s) && s@ == self.path@),
            self.pattern@.len() != 0 ==> match r {
                Some(s) => filled(self.path@, self.pattern@, kvs) == Some(s@),
                None => filled(self.path@, self.pattern@, kvs) is None,
            },
    {
        if self.pattern.len() == 0 {
            return Some(self.path.clone());
        }
        let permission = fill_holes(self.path.clone(), &self.pattern, kvs);
        if permission.is_complete() {
            Some(permission)
        } else {
            None
        }
    }

    /// Whether the request passes: it never does yet; whether or not the
    /// permission can be completed, the answer is the failure status.
    pub fn try_pass(&self, kvs: Option<&ExtractedPathKV>) -> (r: Result<(), u16>)
        ensures
            r == Err::<(), u16>(self.on_fail),
    {
        match self.try_substitute(kvs) {
            None => Err(self.on_fail),
            Some(_) => Err(self.on_fail),
        }
    }
}

/// The middleware of one route's permission.
#[derive(Debug)]
pub struct PermissionAccessLayer(pub PermissionBundle);

impl PermissionAccessLayer {
    /// The same layer, answering `404` on failure.
    pub fn hidden(self) -> (r: Self)
        ensures
            r.0.on_fail == STATUS_NOT_FOUND,
            r.0.path == self.0.path,
            r.0.pattern == self.0.pattern,
    {
        let mut s = self;
        s.0.on_fail = STATUS_NOT_FOUND;
        s
    }
}

} // verus!
