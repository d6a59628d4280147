use rustperms::access::{
    begin_check, defines_wildcard, finish_check, AccessStep, PermissionKind, PermissionMiddlewareBundle,
    STATUS_NOT_FOUND, STATUS_UNAUTHORIZED,
};
use rustperms::auth::{bearer_token, find_token, query_token, request_token, AuthAccessLayer, AuthDecision};
use rustperms::casbin;
use rustperms::patterns::{pattern_holes, CompletePerm, ExtractedPathKV};
use rustperms::permission_layer::{PermissionAccessLayer, PermissionBundle, PermissionPattern};
use rustperms::request_info::UserInfoExt;
use rustperms::text::replace_all;

fn kv(pairs: &[(&str, &str)]) -> ExtractedPathKV {
    ExtractedPathKV(pairs.iter().map(|(k, v)| (k.to_string(), v.to_string())).collect())
}

fn holes(pairs: &[(&str, &str)]) -> Vec<(String, String)> {
    pairs.iter().map(|(h, n)| (h.to_string(), n.to_string())).collect()
}

#[test]
fn replace_all_like_str_replace() {
    assert_eq!(replace_all("a.{id}.b.{id}", "{id}", "7"), "a.7.b.7");
    assert_eq!(replace_all("aaa", "aa", "b"), "ba");
    assert_eq!(replace_all("abc", "", "x"), "xaxbxcx");
    assert_eq!(replace_all("", "", "x"), "x");
    assert_eq!(replace_all("abc", "z", "x"), "abc");
}

#[test]
fn holes_of_a_pattern() {
    assert_eq!(pattern_holes("vesper.perm.{id}"), holes(&[("{id}", "id")]));
    assert_eq!(pattern_holes("a.{x}.{y}"), holes(&[("{x}", "x"), ("{y}", "y")]));
    assert_eq!(pattern_holes("a.{}.{{b}}.{c"), holes(&[("{b}", "b")]));
    assert!(pattern_holes("plain.perm").is_empty());
}

#[test]
fn completeness_is_the_absence_of_braces() {
    assert!("a.b".to_string().is_complete());
    assert!(!"a.{b".to_string().is_complete());
    assert!(!"a}".to_string().is_complete());
}

#[test]
fn extracted_values_by_name() {
    let k = kv(&[("id", "1"), ("id", "2"), ("x", "3")]);
    assert_eq!(k.get(&"id".to_string()), Some(&"1".to_string()));
    assert_eq!(k.get(&"y".to_string()), None);
}

#[test]
fn try_complete_fills_the_holes() {
    let kind = PermissionKind::of("vesper.perm.{id}".to_string());
    let k = kv(&[("id", "42")]);
    assert_eq!(kind.try_complete(Some(&k), "u1"), Some("vesper.perm.42".to_string()));
    let kind = PermissionKind::of("vesper.perm.{id}".to_string());
    assert_eq!(kind.try_complete(None, "u1"), None);
    let kind = PermissionKind::of("vesper.edit.{from_access}".to_string());
    assert_eq!(kind.try_complete(None, "u1"), Some("vesper.edit.u1".to_string()));
    let kind = PermissionKind::of("vesper.edit.{from_access}".to_string());
    assert_eq!(kind.try_complete(None, ""), None);
    let kind = PermissionKind::of("vesper.plain".to_string());
    assert_eq!(kind.try_complete(None, ""), Some("vesper.plain".to_string()));
}

#[test]
fn middleware_steps() {
    let bundle = PermissionMiddlewareBundle::new("a.{id}".to_string(), STATUS_UNAUTHORIZED);
    let step = begin_check(bundle.permission, None, "u".to_string(), bundle.on_fail);
    assert_eq!(step, AccessStep::Reject { status: 401 });
    let kind = PermissionKind::of("a.{id}".to_string());
    let step = begin_check(kind, Some(&kv(&[("id", "9")])), "u".to_string(), 404);
    assert_eq!(step, AccessStep::Ask { user_uid: "u".to_string(), permission: "a.9".to_string() });
    assert_eq!(finish_check(Some(true), 403), AccessStep::Pass);
    assert_eq!(finish_check(Some(false), 403), AccessStep::Reject { status: 403 });
    assert_eq!(finish_check(None, 403), AccessStep::Reject { status: 403 });
    assert!(defines_wildcard("a.*"));
    assert!(!defines_wildcard("a.b"));
}

#[test]
fn database_layer_bundle() {
    let b = PermissionBundle::new("a.b".to_string(), 12);
    assert_eq!(b.non_dynamic(), Some(12));
    assert_eq!(b.compute(None), Some("a.b".to_string()));
    assert_eq!(b.try_substitute(None), None);
    assert_eq!(b.on_fail, 401);
    let p = PermissionBundle::new("a.{x}".to_string(), 0);
    assert!(matches!(p.pat, PermissionPattern::Pattern { .. }));
    assert_eq!(p.non_dynamic(), None);
    assert_eq!(p.compute(Some(&kv(&[("x", "v")]))), Some("a.v".to_string()));
    assert_eq!(p.try_substitute(Some(&kv(&[("y", "v")]))), None);
    assert_eq!(p.try_pass(None), Err(401));
    assert_eq!(p.check_request(false, None), Err(401));
    let hidden = PermissionAccessLayer(p).hidden();
    assert_eq!(hidden.0.on_fail, STATUS_NOT_FOUND);
    assert_eq!(hidden.0.check_request(true, None), Err(404));
}

#[test]
fn policy_layer_bundle() {
    let b = casbin::PermissionBundle::new("doc.{id}.read");
    assert_eq!(b.pattern, holes(&[("{id}", "id")]));
    assert_eq!(b.try_substitute(Some(&kv(&[("id", "5")]))), Some("doc.5.read".to_string()));
    assert_eq!(b.try_substitute(None), None);
    assert_eq!(b.try_pass(None), Err(401));
    let plain = casbin::PermissionBundle::new("doc.read");
    assert_eq!(plain.try_substitute(None), Some("doc.read".to_string()));
    let hidden = casbin::PermissionAccessLayer(plain).hidden();
    assert_eq!(hidden.0.on_fail, 404);
}

#[test]
fn tokens_of_a_request() {
    assert_eq!(bearer_token(Some("Bearer abc")), Some("abc".to_string()));
    assert_eq!(bearer_token(Some("Basic abc")), None);
    assert_eq!(bearer_token(Some("Bearer")), None);
    assert_eq!(bearer_token(None), None);
    assert_eq!(query_token(Some("a=1&token=abc%20d&token=x")), Some("abc d".to_string()));
    assert_eq!(query_token(Some("a=1&b=2")), None);
    assert_eq!(query_token(None), None);
    assert_eq!(request_token(Some("Bearer h"), Some("token=q")), Some("h".to_string()));
    assert_eq!(request_token(Some("Token h"), Some("token=q+r")), Some("q r".to_string()));
    assert_eq!(find_token(&holes(&[("x", "1"), ("token", "t")])), Some("t".to_string()));
}

#[test]
fn authentication_decisions() {
    let guests = AuthAccessLayer::allow_guests().layer(());
    assert_eq!(guests.decide(true), AuthDecision::Authorized);
    assert_eq!(guests.decide(false), AuthDecision::Guest);
    let strict = AuthAccessLayer::only_authorized().layer(());
    assert_eq!(strict.decide(false), AuthDecision::Reject { status: 401 });
    let default = AuthAccessLayer::default().layer(5u8);
    assert_eq!(default.decide(false), AuthDecision::Reject { status: 401 });
    assert_eq!(*default.service(), 5u8);
}

#[test]
fn user_info_line() {
    let info = UserInfoExt { ip: "1.2.3.4".to_string(), fingerprint: "fp".to_string(), user_agent: "curl".to_string() };
    assert_eq!(info.describe("h"), "1.2.3.4; curl; h");
}
