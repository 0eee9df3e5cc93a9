use base64::Engine;
use basileus::token::{TokenManage, TokenModule};

#[test]
fn issue_then_verify_returns_owner() {
    let mut store = TokenModule::new();
    let token = store.issue_token("alice");
    assert_eq!(store.verify_token(token.as_str()), Some(String::from("alice")));
}

#[test]
fn invalidate_makes_token_unknown() {
    let mut store = TokenModule::new();
    let token = store.issue_token("alice");
    store.invalidate_token(token.as_str());
    assert_eq!(store.verify_token(token.as_str()), None);
}

#[test]
fn invalidating_an_absent_token_is_a_noop() {
    let mut store = TokenModule::new();
    let token = store.issue_token("alice");
    store.invalidate_token("no-such-token");
    assert_eq!(store.verify_token(token.as_str()), Some(String::from("alice")));
}

#[test]
fn multiple_tokens_per_user_are_allowed() {
    let mut store = TokenModule::new();
    let t1 = store.issue_token("alice");
    let t2 = store.issue_token("alice");
    assert_ne!(t1, t2);
    assert_eq!(store.verify_token(t1.as_str()), Some(String::from("alice")));
    assert_eq!(store.verify_token(t2.as_str()), Some(String::from("alice")));
}

#[test]
fn invalidate_user_removes_only_that_users_tokens() {
    let mut store = TokenModule::new();
    let ta1 = store.issue_token("alice");
    let ta2 = store.issue_token("alice");
    let tb = store.issue_token("bob");
    store.invalidate_user_token("alice");
    assert_eq!(store.verify_token(ta1.as_str()), None);
    assert_eq!(store.verify_token(ta2.as_str()), None);
    assert_eq!(store.verify_token(tb.as_str()), Some(String::from("bob")));
}

#[test]
fn expire_removes_exactly_the_too_old_entries() {
    let mut store = TokenModule::new();
    let told = store.issue_token_at("alice", 1000);
    let tboundary = store.issue_token_at("bob", 1300);
    let tyoung = store.issue_token_at("carol", 1500);
    store.expire_token_at(300, 1600);
    // age 600 > 300: removed
    assert_eq!(store.verify_token(told.as_str()), None);
    // age 300 == 300: kept (only strictly older entries go)
    assert_eq!(store.verify_token(tboundary.as_str()), Some(String::from("bob")));
    // age 100 <= 300: kept
    assert_eq!(store.verify_token(tyoung.as_str()), Some(String::from("carol")));
}

#[test]
fn expire_with_zero_age_keeps_entries_issued_now() {
    let mut store = TokenModule::new();
    let tnow = store.issue_token_at("alice", 1600);
    let tpast = store.issue_token_at("bob", 1599);
    store.expire_token_at(0, 1600);
    assert_eq!(store.verify_token(tnow.as_str()), Some(String::from("alice")));
    assert_eq!(store.verify_token(tpast.as_str()), None);
}

#[test]
fn expire_keeps_future_stamped_entries() {
    let mut store = TokenModule::new();
    let tfuture = store.issue_token_at("alice", 2000);
    store.expire_token_at(100, 1600);
    assert_eq!(store.verify_token(tfuture.as_str()), Some(String::from("alice")));
}

#[test]
fn tokens_are_base64_of_sixty_four_random_bytes() {
    let mut store = TokenModule::new();
    let token = store.issue_token("alice");
    // 64 bytes encode to 88 base64 characters (padded)
    assert_eq!(token.len(), 88);
    let decoded = base64::prelude::BASE64_STANDARD
        .decode(token.as_bytes())
        .expect("an issued token must be valid base64");
    assert_eq!(decoded.len(), 64);
}

#[test]
fn verify_does_not_consume_the_token() {
    let mut store = TokenModule::new();
    let token = store.issue_token("alice");
    assert_eq!(store.verify_token(token.as_str()), Some(String::from("alice")));
    assert_eq!(store.verify_token(token.as_str()), Some(String::from("alice")));
}
