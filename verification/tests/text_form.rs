use base64::prelude::BASE64_URL_SAFE_NO_PAD;
use base64::Engine;
use rustperms::path::{PermPath, PermissionPath};
use rustperms::permissions::{record_to_rule, PermissionRuleNode};
use rustperms::text_form::{bytes_from_text, text_from_bytes};
use rustperms::users::User;

#[test]
fn text_form_of_bytes() {
    assert_eq!(text_from_bytes(b"hi"), "aGk");
    assert_eq!(text_from_bytes(b"hi?"), "aGk_");
    assert_eq!(text_from_bytes(&[0xfb, 0xff]), "-_8");
    assert_eq!(text_from_bytes(b""), "");
    let data: Vec<u8> = (0..=255u8).collect();
    assert_eq!(text_from_bytes(&data), BASE64_URL_SAFE_NO_PAD.encode(&data));
    assert_eq!(text_from_bytes(&data).len(), 256 / 3 * 4 + 2);
}

#[test]
fn bytes_of_text_form() {
    assert_eq!(bytes_from_text("aGk").unwrap(), b"hi".to_vec());
    assert_eq!(bytes_from_text("-_8").unwrap(), vec![0xfb, 0xff]);
    assert_eq!(bytes_from_text("").unwrap(), Vec::<u8>::new());
    assert!(bytes_from_text("a").is_err());
    assert!(bytes_from_text("aGk=").is_err());
    assert!(bytes_from_text("a+b/").is_err());
    let data: Vec<u8> = (0..=255u8).rev().collect();
    assert_eq!(bytes_from_text(&text_from_bytes(&data)).unwrap(), data);
}

#[test]
fn records_read_back_as_rules() {
    let (p, b) = record_to_rule(PermissionPath::from_str("a.b.true")).unwrap();
    assert_eq!(p, PermissionPath::from_str("a.b"));
    assert!(b);
    let (p, b) = record_to_rule(PermissionPath::from_str("x.false")).unwrap();
    assert_eq!(p, PermissionPath::from_str("x"));
    assert!(!b);
    assert!(record_to_rule(PermissionPath::from_str("a.b")).is_none());
    assert!(record_to_rule(PermissionPath::from_vec(vec![])).is_none());
    let mut tree = PermissionRuleNode::new();
    tree.set(PermissionPath::from_str("a.*"), true);
    tree.set(PermissionPath::from_str("b"), false);
    let mut rules: Vec<(String, bool)> = tree
        .get_records()
        .into_iter()
        .map(|r| {
            let (p, b) = record_to_rule(r).unwrap();
            (p.format(), b)
        })
        .collect();
    rules.sort();
    assert_eq!(rules, vec![("a.*".to_string(), true), ("b".to_string(), false)]);
}

#[test]
fn a_user_shows_its_rule_tree() {
    let mut u = User::new("u".to_string());
    u.add_group("g".to_string());
    rustperms::permissions::PermissionInterface::set_perm(&mut u, PermissionPath::from_str("a.b"), true);
    assert_eq!(u.get_perms().get(&PermissionPath::from_str("a.b")), Some(true));
    assert_eq!(u.get_perms().get(&PermissionPath::from_str("a.c")), None);
}
