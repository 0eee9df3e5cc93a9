//! An embeddable authorization core: a permission algebra over sets of
//! permission tokens, an in-memory session-token store, and a PKCE-style
//! delegated-authorization exchange.
//!
//! The durable identity/credential store (usernames and password hashes) is
//! an external collaborator; this crate only contains the authorization
//! logic itself.

pub mod err;
pub mod perm;
pub mod pkce;
pub mod strutil;
pub mod token;
pub mod user;

use token::TokenManage;
use vstd::prelude::*;

verus! {

/// Relies on std::time::SystemTime: the system clock read as whole seconds
/// since the Unix epoch (zero should the clock stand before the epoch).
/// Nothing is assumed of the value; callers state what holds of every
/// reading.
#[verifier::external_body]
pub(crate) fn now_secs() -> u64 {
    std::time::SystemTime::now()
        .duration_since(std::time::SystemTime::UNIX_EPOCH)
        .map(|d| d.as_secs())
        .unwrap_or(0)
}

/// Configuration for [`Basileus`].
pub struct Config {
    /// Where the host keeps the durable identity storage.
    pub db: String,
    /// PKCE configuration.
    pub pkce: pkce::PkceConfig,
}

impl Clone for Config {
    fn clone(&self) -> (r: Config)
        ensures
            r.db@ == self.db@,
            r.pkce == self.pkce,
    {
        Config { db: self.db.clone(), pkce: self.pkce }
    }
}

impl Default for Config {
    fn default() -> (r: Config)
        ensures
            r.db@ == "./basileus.db"@,
            r.pkce.allow_plain == false,
    {
        Config { db: String::from_str("./basileus.db"), pkce: pkce::PkceConfig::default() }
    }
}

/// Entry point of the authorization core: the session token store and the
/// PKCE exchange, held as one explicitly constructed instance. The durable
/// identity/credential store stays with the host.
pub struct Basileus {
    /// Configuration.
    pub config: Config,
    token: token::TokenModule,
    pkce: pkce::PkceModule,
}

impl Basileus {
    /// The live sessions: token → (owner, issuance time in seconds).
    pub closed spec fn tokens(&self) -> Map<Seq<char>, (Seq<char>, int)> {
        self.token@
    }

    /// The pending PKCE authorizations: code → pending entry.
    pub closed spec fn pending(&self) -> Map<Seq<char>, pkce::PendingView> {
        self.pkce@
    }

    /// Whether the `plain` challenge method is enabled by configuration.
    pub closed spec fn allow_plain_spec(&self) -> bool {
        self.pkce.spec_config().allow_plain
    }

    /// The internal invariant of both in-memory stores.
    pub closed spec fn wf(&self) -> bool {
        self.token.wf() && self.pkce.wf()
    }

    /// Initializes the core from its configuration: no session is live and
    /// no authorization is pending.
    pub fn new(config: Config) -> (r: Basileus)
        ensures
            r.wf(),
            r.tokens() == Map::<Seq<char>, (Seq<char>, int)>::empty(),
            r.pending() == Map::<Seq<char>, pkce::PendingView>::empty(),
            r.allow_plain_spec() == config.pkce.allow_plain,
    {
        let pkce_module = pkce::PkceModule::new(config.pkce);
        Basileus { config, token: token::TokenModule::new(), pkce: pkce_module }
    }

    /// Issues a new opaque token — 88 characters of standard base64 over 64
    /// random bytes — to `user`, stamped with the clock reading taken during
    /// the call; see [`token::TokenManage::issue_token`].
    pub fn issue_token(&mut self, user: &str) -> (token: String)
        requires
            old(self).wf(),
        ensures
            final(self).wf(),
            final(self).pending() == old(self).pending(),
            final(self).allow_plain_spec() == old(self).allow_plain_spec(),
            token@.len() == 88,
            exists|now: int|
                final(self).tokens() == #[trigger] old(self).tokens().insert(
                    token@,
                    (user@, now),
                ),
    {
        let now = now_secs();
        let token = self.token.issue_token_at(user, now);
        proof {
            assert(self.tokens() == old(self).tokens().insert(token@, (user@, now as int)));
        }
        token
    }

    /// Removes one token; removing an absent token is a no-op.
    pub fn invalidate_token(&mut self, token: &str)
        requires
            old(self).wf(),
        ensures
            final(self).wf(),
            final(self).pending() == old(self).pending(),
            final(self).allow_plain_spec() == old(self).allow_plain_spec(),
            final(self).tokens() == old(self).tokens().remove(token@),
    {
        self.token.invalidate_token(token);
    }

    /// Removes every token owned by `user`.
    pub fn invalidate_user_token(&mut self, user: &str)
        requires
            old(self).wf(),
        ensures
            final(self).wf(),
            final(self).pending() == old(self).pending(),
            final(self).allow_plain_spec() == old(self).allow_plain_spec(),
            final(self).tokens() == token::retain_map(
                old(self).tokens(),
                (|k: Seq<char>, v: (Seq<char>, int)| v.0 != user@),
            ),
    {
        self.token.invalidate_user_token(user);
    }

    /// Removes every token older than `max_age` seconds at the clock
    /// reading taken during the call.
    pub fn expire_token(&mut self, max_age: u64)
        requires
            old(self).wf(),
        ensures
            final(self).wf(),
            final(self).pending() == old(self).pending(),
            final(self).allow_plain_spec() == old(self).allow_plain_spec(),
            exists|now: int|
                final(self).tokens() == #[trigger] token::sweep_result(
                    old(self).tokens(),
                    now,
                    max_age as int,
                ),
    {
        let now = now_secs();
        self.token.expire_token_at(max_age, now);
        proof {
            assert(self.tokens() == token::sweep_result(
                old(self).tokens(),
                now as int,
                max_age as int,
            ));
        }
    }

    /// Removes every token older than `max_age` seconds at time `now`.
    pub fn expire_token_at(&mut self, max_age: u64, now: u64)
        requires
            old(self).wf(),
        ensures
            final(self).wf(),
            final(self).pending() == old(self).pending(),
            final(self).allow_plain_spec() == old(self).allow_plain_spec(),
            final(self).tokens() == token::sweep_result(
                old(self).tokens(),
                now as int,
                max_age as int,
            ),
    {
        self.token.expire_token_at(max_age, now);
    }

    /// Pure lookup of a token's owner; no expiry check happens here.
    pub fn verify_token(&self, token: &str) -> (r: Option<String>)
        requires
            self.wf(),
        ensures
            (r is Some) <==> self.tokens().dom().contains(token@),
            r matches Some(u) ==> u@ == self.tokens()[token@].0,
    {
        self.token.verify_token_lookup(token)
    }
}

} // verus!
