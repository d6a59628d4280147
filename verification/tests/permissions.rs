use rustperms::path::{PermPath, PermissionPath};
use rustperms::permissions::{MatchType, PermissionRuleNode};

fn segments(parts: &[&str]) -> PermissionPath {
    PermissionPath::from_vec(parts.iter().map(|s| s.to_string()).collect())
}

#[test]
fn test_perm_path() {
    assert_eq!(PermissionPath::from_str("a.b.c"), segments(&["a", "b", "c"]));
    assert_eq!(PermissionPath::from_str("a.b.c.d"), segments(&["a", "b", "c", "d"]));
    assert_eq!(PermissionPath::from_str("a.b.c.d.e"), segments(&["a", "b", "c", "d", "e"]));
}

#[test]
fn test_perm_path_format() {
    assert_eq!(PermissionPath::from_str("a.b.c").format(), "a.b.c");
    assert_eq!(PermissionPath::from_str("a.b.c.d").format(), "a.b.c.d");
    assert_eq!(PermissionPath::from_str("a.b.c.d.e").format(), "a.b.c.d.e");
}

#[test]
fn test_set() {
    let mut tree = PermissionRuleNode::new();
    let p1 = PermissionPath::from_str("a.b.c");
    tree.set(p1.duplicate(), true);
    assert_eq!(tree.get(&p1), Some(true));
    tree.set(p1.duplicate(), false);
    assert_eq!(tree.get(&p1), Some(false));
}

#[test]
fn test_remove() {
    let mut tree = PermissionRuleNode::new();
    let p1 = PermissionPath::from_str("a.b.c");
    tree.set(p1.duplicate(), true);
    tree.remove(&p1);
    assert_eq!(tree.get(&p1), None);
}

#[test]
fn test_any_at_beginning() {
    let mut tree = PermissionRuleNode::new();
    tree.set(PermissionPath::from_str("?.b.c"), true);
    assert_eq!(tree.get(&PermissionPath::from_str("a.b.c")), Some(true));
    assert_eq!(tree.get(&PermissionPath::from_str("a.a.b.c")), None);
}

#[test]
fn test_any_in_middle() {
    let mut tree = PermissionRuleNode::new();
    tree.set(PermissionPath::from_str("a.?.c"), true);
    assert_eq!(tree.get(&PermissionPath::from_str("a.b.c")), Some(true));
    assert_eq!(tree.get(&PermissionPath::from_str("a.b.b.c")), None);
}

#[test]
fn test_any_at_end() {
    let mut tree = PermissionRuleNode::new();
    tree.set(PermissionPath::from_str("a.b.?"), true);
    assert_eq!(tree.get(&PermissionPath::from_str("a.b.c")), Some(true));
    assert_eq!(tree.get(&PermissionPath::from_str("a.b.c.d")), None);
}

#[test]
fn test_wildcard_root() {
    let mut tree = PermissionRuleNode::new();
    tree.set(PermissionPath::from_str("*"), true);
    assert_eq!(tree.get(&PermissionPath::from_str("x")), Some(true));
    assert_eq!(tree.get(&PermissionPath::from_str("x.y")), Some(true));
    assert_eq!(tree.get(&PermissionPath::from_str("x.y.z")), Some(true));
}

#[test]
fn test_wildcard_at_beginning() {
    let mut tree = PermissionRuleNode::new();
    tree.set(PermissionPath::from_str("*.b.c"), true);
    assert_eq!(tree.get(&PermissionPath::from_str("a.b.c")), Some(true));
    assert_eq!(tree.get(&PermissionPath::from_str("x.y.b.c")), Some(true));
    assert_eq!(tree.get(&PermissionPath::from_str("b.c")), None);
}

#[test]
fn test_wildcard_in_middle() {
    let mut tree = PermissionRuleNode::new();
    tree.set(PermissionPath::from_str("a.*.d"), true);
    assert_eq!(tree.get(&PermissionPath::from_str("a.b.c.d")), Some(true));
    assert_eq!(tree.get(&PermissionPath::from_str("a.b.d")), Some(true));
    assert_eq!(tree.get(&PermissionPath::from_str("a.d")), None);
}

#[test]
fn test_wildcard_at_end() {
    let mut tree = PermissionRuleNode::new();
    tree.set(PermissionPath::from_str("a.b.*"), true);
    assert_eq!(tree.get(&PermissionPath::from_str("a.b.c")), Some(true));
    assert_eq!(tree.get(&PermissionPath::from_str("a.b.c.d")), Some(true));
    assert_eq!(tree.get(&PermissionPath::from_str("a.b")), None);
}

#[test]
fn test_wildcards() {
    let mut tree = PermissionRuleNode::new();
    tree.set(PermissionPath::from_str("a.*.c.?.e"), true);
    assert_eq!(tree.get(&PermissionPath::from_str("a.x.y.c.z.e")), Some(true));
    assert_eq!(tree.get(&PermissionPath::from_str("a.x.c.z.e")), Some(true));
    assert_eq!(tree.get(&PermissionPath::from_str("a.c.z.e")), None);
    assert_eq!(tree.get(&PermissionPath::from_str("a.x.y.c.z.q.e")), None);
}

#[test]
fn test_merge_trees() {
    let mut base = PermissionRuleNode::new();
    let mut other = PermissionRuleNode::new();
    base.set(PermissionPath::from_str("a.b.c"), true);
    other.set(PermissionPath::from_str("a.b.c"), false);
    other.set(PermissionPath::from_str("a.x"), true);
    base.merge(other);
    assert_eq!(base.get(&PermissionPath::from_str("a.b.c")), Some(false));
    assert_eq!(base.get(&PermissionPath::from_str("a.x")), Some(true));
}

#[test]
fn test_merge_nested_wildcards() {
    let mut base = PermissionRuleNode::new();
    let mut other = PermissionRuleNode::new();
    base.set(PermissionPath::from_str("a.*.c"), true);
    other.set(PermissionPath::from_str("a.*.c"), false);
    base.merge(other);
    assert_eq!(base.get(&PermissionPath::from_str("a.b.c")), Some(false));
}

#[test]
fn exact_beats_any_beats_wildcard() {
    let mut tree = PermissionRuleNode::new();
    tree.set(PermissionPath::from_str("a.*"), false);
    tree.set(PermissionPath::from_str("a.?"), true);
    assert_eq!(tree.get_match(&PermissionPath::from_str("a.b")), Some((true, MatchType::Any)));
    tree.set(PermissionPath::from_str("a.b"), false);
    assert_eq!(tree.get_match(&PermissionPath::from_str("a.b")), Some((false, MatchType::Exact)));
    assert_eq!(tree.get_match(&PermissionPath::from_str("a.b.c")), Some((false, MatchType::Wildcard)));
}

#[test]
fn empty_tree_decides_nothing() {
    let tree = PermissionRuleNode::new();
    assert_eq!(tree.get(&PermissionPath::from_str("a")), None);
    assert!(tree.get_records().is_empty());
}

#[test]
fn remove_leaves_inner_nodes() {
    let mut tree = PermissionRuleNode::new();
    tree.set(PermissionPath::from_str("a.b"), true);
    tree.set(PermissionPath::from_str("a.b.c"), true);
    tree.set(PermissionPath::from_str("a.x"), false);
    tree.remove(&PermissionPath::from_str("a.b"));
    assert_eq!(tree.get(&PermissionPath::from_str("a.b")), Some(true));
    assert_eq!(tree.get(&PermissionPath::from_str("a.b.c")), Some(true));
    assert_eq!(tree.get(&PermissionPath::from_str("a.x")), Some(false));
}

#[test]
fn remove_prunes_emptied_ancestors() {
    let mut tree = PermissionRuleNode::new();
    tree.set(PermissionPath::from_str("a"), true);
    tree.set(PermissionPath::from_str("a.b"), true);
    tree.remove(&PermissionPath::from_str("a.b"));
    assert_eq!(tree.get(&PermissionPath::from_str("a.b")), None);
    assert_eq!(tree.get(&PermissionPath::from_str("a")), None);
}

#[test]
fn records_end_in_their_value() {
    let mut tree = PermissionRuleNode::new();
    tree.set(PermissionPath::from_str("a.b"), true);
    let records: Vec<String> = tree.get_records().iter().map(|p| p.format()).collect();
    assert_eq!(records, vec!["a.b.true".to_string()]);
}

#[test]
fn read_after_write_gives_the_write() {
    let mut tree = PermissionRuleNode::new();
    tree.set(PermissionPath::from_str("q.*"), false);
    tree.set(PermissionPath::from_str("q.r"), true);
    assert_eq!(tree.get(&PermissionPath::from_str("q.r")), Some(true));
}

#[test]
fn parse_format_round_trip() {
    let p = segments(&["x", "", "y"]);
    assert_eq!(PermissionPath::from_str(&p.format()), p);
    assert_eq!(PermissionPath::from_str(""), segments(&[""]));
}

#[test]
fn trees_compare_by_their_rules() {
    let mut a = PermissionRuleNode::new();
    let mut b = PermissionRuleNode::new();
    a.set(PermissionPath::from_str("x.y"), true);
    a.set(PermissionPath::from_str("x"), false);
    b.set(PermissionPath::from_str("x"), false);
    b.set(PermissionPath::from_str("x.y"), true);
    assert!(a.same_rules(&b));
    b.set(PermissionPath::from_str("x.z"), true);
    assert!(!a.same_rules(&b));
    assert!(!b.same_rules(&a));
    b.remove(&PermissionPath::from_str("x.z"));
    assert!(a.same_rules(&b));
}

#[test]
fn a_lookup_finds_a_rule_only_where_one_matches() {
    let mut tree = PermissionRuleNode::new();
    tree.set(PermissionPath::from_str("a.*.d"), true);
    tree.set(PermissionPath::from_str("x.?"), false);
    assert_eq!(tree.get(&PermissionPath::from_str("a.b.d")), Some(true));
    assert_eq!(tree.get(&PermissionPath::from_str("a.b.c.d")), Some(true));
    assert_eq!(tree.get(&PermissionPath::from_str("a.d")), None);
    assert_eq!(tree.get(&PermissionPath::from_str("a.b.c")), None);
    assert_eq!(tree.get(&PermissionPath::from_str("x.y")), Some(false));
    assert_eq!(tree.get(&PermissionPath::from_str("x")), None);
    assert_eq!(tree.get(&PermissionPath::from_str("x.y.z")), None);
    tree.set(PermissionPath::from_str("a.b.d"), false);
    assert_eq!(tree.get(&PermissionPath::from_str("a.b.d")), Some(false));
}
