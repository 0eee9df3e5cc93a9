use basileus::perm::Perm;
use std::cmp::Ordering;

fn perm(s: &str) -> Perm {
    Perm::from_str(s)
}

#[test]
fn parse_serialize_roundtrip() {
    let p = perm("read write admin");
    let s = p.to_string();
    let q = Perm::from_str(s.as_str());
    assert!(p.set_eq(&q));
}

#[test]
fn roundtrip_is_set_equality_not_string_equality() {
    // Order and duplicates do not survive, membership does.
    let p = perm("b a a c");
    let q = Perm::from_str(p.to_string().as_str());
    assert!(q.contains("a"));
    assert!(q.contains("b"));
    assert!(q.contains("c"));
    assert!(!q.contains("d"));
    assert!(p.set_eq(&q));
}

#[test]
fn empty_string_parses_to_empty_set() {
    let p = perm("");
    assert!(p.set_eq(&Perm::new()));
    assert!(!p.contains("anything"));
}

#[test]
fn parsing_is_total_over_odd_whitespace() {
    let p = perm("  alpha\t beta\n\r gamma  ");
    assert!(p.contains("alpha"));
    assert!(p.contains("beta"));
    assert!(p.contains("gamma"));
    assert!(p.set_eq(&perm("gamma beta alpha")));
}

#[test]
fn duplicate_tokens_collapse() {
    let p = perm("a a a b");
    assert!(p.set_eq(&perm("a b")));
}

#[test]
fn tokens_are_case_sensitive() {
    let p = perm("Admin");
    assert!(p.contains("Admin"));
    assert!(!p.contains("admin"));
}

#[test]
fn union_grants() {
    let p = perm("a b").union(&perm("b c"));
    assert!(p.set_eq(&perm("a b c")));
}

#[test]
fn union_twice_equals_once() {
    let pre = perm("a b");
    let grant = perm("c");
    let once = pre.union(&grant);
    let twice = once.union(&grant);
    assert!(once.set_eq(&twice));
}

#[test]
fn difference_revokes_and_tolerates_absent() {
    let p = perm("a b").difference(&perm("b c d"));
    assert!(p.set_eq(&perm("a")));
    assert!(!p.contains("b"));
    assert!(!p.contains("c"));
    let again = p.difference(&perm("b c d"));
    assert!(again.set_eq(&p));
}

#[test]
fn intersect_common_permissions() {
    let p = perm("a b c").intersect(&perm("b c d"));
    assert!(p.set_eq(&perm("b c")));
}

#[test]
fn subset_check_is_the_access_decision() {
    let held = perm("read write admin");
    let required = perm("read write");
    assert!(held.superset_of(&required));
    assert!(required.subset_of(&held));
    assert!(!held.superset_of(&perm("read other")));
}

#[test]
fn empty_requirement_always_passes() {
    assert!(perm("").superset_of(&Perm::new()));
    assert!(perm("a").superset_of(&Perm::new()));
}

#[test]
fn partial_cmp_orders_by_inclusion() {
    assert_eq!(perm("a b").partial_cmp(&perm("b a")), Some(Ordering::Equal));
    assert_eq!(perm("a").partial_cmp(&perm("a b")), Some(Ordering::Less));
    assert_eq!(perm("a b").partial_cmp(&perm("a")), Some(Ordering::Greater));
}

#[test]
fn incomparable_sets_have_no_order() {
    // Neither includes the other: the comparison must not invent an order.
    assert_eq!(perm("a").partial_cmp(&perm("b")), None);
    assert_eq!(perm("a c").partial_cmp(&perm("b c")), None);
}

#[test]
fn serialized_form_uses_whitespace_separation() {
    let s = perm("solo").to_string();
    assert_eq!(s, "solo ");
}
