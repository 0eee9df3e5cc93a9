use base64::prelude::BASE64_URL_SAFE;
use base64::Engine;
use basileus::err::{PkceAuthError, PkceTokenError};
use basileus::pkce::{CodeChallenge, CodeChallengeMethod, Pkce, PkceConfig};
use basileus::{Basileus, Config};
use sha2::{Digest, Sha256};

fn s256_challenge(verifier: &str) -> String {
    BASE64_URL_SAFE.encode(Sha256::digest(verifier))
}

fn engine(allow_plain: bool) -> Basileus {
    let config = Config {
        db: String::from("./test.db"),
        pkce: PkceConfig { allow_plain },
    };
    Basileus::new(config)
}

#[test]
fn method_from_str_accepts_the_two_wire_names() {
    assert_eq!(
        CodeChallengeMethod::from_str("S256"),
        Ok(CodeChallengeMethod::S256)
    );
    assert_eq!(
        CodeChallengeMethod::from_str("plain"),
        Ok(CodeChallengeMethod::Plain)
    );
    assert!(CodeChallengeMethod::from_str("s256").is_err());
    assert!(CodeChallengeMethod::from_str("").is_err());
}

#[test]
fn method_as_str_round_trips() {
    assert_eq!(CodeChallengeMethod::S256.as_str(), "S256");
    assert_eq!(CodeChallengeMethod::Plain.as_str(), "plain");
}

#[test]
fn challenge_verify_matches_real_sha256() {
    let challenge = CodeChallenge::new(s256_challenge("verifier1"));
    assert!(challenge.verify("verifier1"));
    assert!(!challenge.verify("verifier2"));
}

#[test]
fn challenge_verify_is_not_the_identity_transform() {
    // If hashing or encoding handed its input back unchanged, a verifier
    // equal to the stored challenge string would pass; it must not.
    let challenge = CodeChallenge::new(s256_challenge("verifier1"));
    let stored = challenge.challenge.clone();
    assert!(!challenge.verify(stored.as_str()));
}

#[test]
fn plain_challenge_compares_exactly() {
    let challenge = CodeChallenge {
        challenge: String::from("the-secret"),
        method: CodeChallengeMethod::Plain,
    };
    assert!(challenge.verify("the-secret"));
    assert!(!challenge.verify("The-secret"));
}

#[test]
fn pending_window_is_six_hundred_seconds() {
    let challenge = CodeChallenge::new(s256_challenge("v"));
    let pkce = Pkce::new_at(String::from("alice"), challenge, 1000);
    assert!(pkce.valid_at(1000));
    assert!(pkce.valid_at(1600));
    assert!(!pkce.valid_at(1601));
    // a clock that went backwards never expires an entry
    assert!(pkce.valid_at(999));
}

#[test]
fn end_to_end_code_flow() {
    let mut core = engine(false);
    let challenge = CodeChallenge::new(s256_challenge("verifier1"));
    assert_eq!(core.pkce_auth_precheck(&challenge), Ok(()));
    // the host verifies the password out of band, then grants
    let code = core.pkce_auth_grant_at("alice", challenge, 100);
    let token = core
        .pkce_token_req_at(code.as_str(), "verifier1", 200)
        .expect("fresh code and matching verifier must redeem");
    assert_eq!(core.verify_token(token.as_str()), Some(String::from("alice")));
    // the code was consumed atomically: a second redemption finds nothing
    assert_eq!(
        core.pkce_token_req_at(code.as_str(), "verifier1", 201),
        Err(PkceTokenError::InvalidCode)
    );
    // a wrong verifier against a fresh registration is rejected
    let challenge2 = CodeChallenge::new(s256_challenge("verifier1"));
    let code2 = core.pkce_auth_grant_at("alice", challenge2, 300);
    assert_eq!(
        core.pkce_token_req_at(code2.as_str(), "wrongverifier", 301),
        Err(PkceTokenError::InvalidVerifier)
    );
}

#[test]
fn auth_codes_are_deterministic_in_user_and_challenge() {
    let mut core = engine(false);
    let c1 = core.pkce_auth_grant_at("alice", CodeChallenge::new(s256_challenge("v")), 100);
    let c2 = core.pkce_auth_grant_at("alice", CodeChallenge::new(s256_challenge("v")), 400);
    let other = core.pkce_auth_grant_at("bob", CodeChallenge::new(s256_challenge("v")), 100);
    assert_eq!(c1, c2);
    assert_ne!(c1, other);
}

#[test]
fn auth_code_is_the_digest_of_user_and_challenge() {
    let mut core = engine(false);
    let challenge = s256_challenge("verifier1");
    let code = core.pkce_auth_grant_at("alice", CodeChallenge::new(challenge.clone()), 100);
    let expected = BASE64_URL_SAFE.encode(Sha256::digest(format!("alice, S256:{challenge}")));
    assert_eq!(code, expected);
}

#[test]
fn expired_code_fails_and_is_removed() {
    let mut core = engine(false);
    let challenge = CodeChallenge::new(s256_challenge("verifier1"));
    let code = core.pkce_auth_grant_at("alice", challenge, 100);
    // 601 simulated seconds later the window has elapsed
    assert_eq!(
        core.pkce_token_req_at(code.as_str(), "verifier1", 701),
        Err(PkceTokenError::ExpiredCode)
    );
    // the entry is gone: a retry no longer finds it
    assert_eq!(
        core.pkce_token_req_at(code.as_str(), "verifier1", 702),
        Err(PkceTokenError::InvalidCode)
    );
}

#[test]
fn failed_verifier_consumes_the_code() {
    let mut core = engine(false);
    let challenge = CodeChallenge::new(s256_challenge("verifier1"));
    let code = core.pkce_auth_grant_at("alice", challenge, 100);
    assert_eq!(
        core.pkce_token_req_at(code.as_str(), "wrong", 101),
        Err(PkceTokenError::InvalidVerifier)
    );
    assert_eq!(
        core.pkce_token_req_at(code.as_str(), "verifier1", 102),
        Err(PkceTokenError::InvalidCode)
    );
}

#[test]
fn unknown_code_is_invalid() {
    let mut core = engine(false);
    assert_eq!(
        core.pkce_token_req_at("never-issued", "verifier1", 100),
        Err(PkceTokenError::InvalidCode)
    );
}

#[test]
fn disabled_plain_method_is_rejected_before_any_password_check() {
    let core = engine(false);
    let challenge = CodeChallenge {
        challenge: String::from("the-secret"),
        method: CodeChallengeMethod::Plain,
    };
    // the precheck takes no password at all, so no credential is ever
    // consulted for a disallowed method
    assert_eq!(
        core.pkce_auth_precheck(&challenge),
        Err(PkceAuthError::InsecurePlain)
    );
}

#[test]
fn enabled_plain_method_passes_the_precheck_and_redeems() {
    let mut core = engine(true);
    let challenge = CodeChallenge {
        challenge: String::from("the-secret"),
        method: CodeChallengeMethod::Plain,
    };
    assert_eq!(core.pkce_auth_precheck(&challenge), Ok(()));
    let code = core.pkce_auth_grant_at("alice", challenge, 100);
    let token = core
        .pkce_token_req_at(code.as_str(), "the-secret", 101)
        .expect("plain verifier must redeem when enabled");
    assert_eq!(core.verify_token(token.as_str()), Some(String::from("alice")));
}

#[test]
fn s256_passes_the_precheck_regardless_of_configuration() {
    let challenge = CodeChallenge::new(s256_challenge("v"));
    assert_eq!(engine(false).pkce_auth_precheck(&challenge), Ok(()));
    assert_eq!(engine(true).pkce_auth_precheck(&challenge), Ok(()));
}

#[test]
fn config_default_disables_plain() {
    let config = Config::default();
    assert_eq!(config.db, "./basileus.db");
    assert!(!config.pkce.allow_plain);
    assert!(!PkceConfig::default().allow_plain);
}

#[test]
fn registering_the_same_code_overwrites() {
    // same user and challenge yield the same code; the second registration
    // refreshes the entry rather than duplicating it
    let mut core = engine(false);
    let code1 = core.pkce_auth_grant_at("alice", CodeChallenge::new(s256_challenge("v")), 100);
    let code2 = core.pkce_auth_grant_at("alice", CodeChallenge::new(s256_challenge("v")), 800);
    assert_eq!(code1, code2);
    // the refreshed stamp keeps the entry alive past the first window
    let token = core.pkce_token_req_at(code1.as_str(), "v", 900);
    assert!(token.is_ok());
}
