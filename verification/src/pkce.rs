//! The PKCE delegated-authorization exchange (RFC 7636).
//!
//! One flow per pending entry: a password check (done by the host against
//! the external credential store) plus challenge registration creates a
//! time-bounded pending entry; a matching verifier later redeems it —
//! atomically, remove-on-read — for a session token. Every failure is
//! terminal for the attempt.

use crate::err::{PkceAuthError, PkceTokenError};
use crate::now_secs;
use crate::strutil::str_eq;
use base64::prelude::BASE64_URL_SAFE;
use base64::Engine;
use sha2::{Digest, Sha256};
use vstd::prelude::*;

verus! {

/// What SHA-256 yields for the UTF-8 bytes of a character string: a pure
/// function of its input.
pub uninterp spec fn sha256_str_of(s: Seq<char>) -> Seq<u8>;

/// Relies on sha2's Sha256: the digest depends on the input alone and is
/// 32 bytes long.
#[verifier::external_body]
fn sha256_str(s: &str) -> (r: Vec<u8>)
    ensures
        r@ == sha256_str_of(s@),
        r@.len() == 32,
{
    Sha256::digest(s).to_vec()
}

/// What base64url (padded alphabet) encoding yields for given bytes: a
/// pure function of its input.
pub uninterp spec fn b64url_of(bytes: Seq<u8>) -> Seq<char>;

/// Relies on base64's URL-safe engine: the encoding depends on the input
/// bytes alone.
#[verifier::external_body]
fn b64url_encode(bytes: &[u8]) -> (r: String)
    ensures
        r@ == b64url_of(bytes@),
{
    BASE64_URL_SAFE.encode(bytes)
}

/// The PKCE code challenge method, as defined in RFC 7636.
#[derive(Clone, Copy, Debug, Hash, PartialEq, Eq, Structural)]
pub enum CodeChallengeMethod {
    /// SHA-256 transformation: `challenge = base64url(sha256(verifier))`.
    S256,
    /// Plain transformation: `challenge = verifier`. A security-weak mode,
    /// usable only when enabled explicitly.
    Plain,
}

/// The wire name of a challenge method.
pub open spec fn method_name(m: CodeChallengeMethod) -> Seq<char> {
    match m {
        CodeChallengeMethod::S256 => "S256"@,
        CodeChallengeMethod::Plain => "plain"@,
    }
}

impl CodeChallengeMethod {
    /// The method's wire name.
    pub fn as_str(&self) -> (r: &'static str)
        ensures
            r@ == method_name(*self),
    {
        match self {
            CodeChallengeMethod::S256 => "S256",
            CodeChallengeMethod::Plain => "plain",
        }
    }

    /// Parses a wire name; anything but the two defined names is rejected.
    pub fn from_str(s: &str) -> (r: Result<CodeChallengeMethod, String>)
        ensures
            s@ == "S256"@ ==> r == Ok::<CodeChallengeMethod, String>(CodeChallengeMethod::S256),
            s@ == "plain"@ ==> r == Ok::<CodeChallengeMethod, String>(CodeChallengeMethod::Plain),
            s@ != "S256"@ && s@ != "plain"@ ==> r is Err,
    {
        proof {
            reveal_strlit("S256");
            reveal_strlit("plain");
            assert("S256"@.len() == 4);
            assert("plain"@.len() == 5);
        }
        if str_eq(s, "S256") {
            Ok(CodeChallengeMethod::S256)
        } else if str_eq(s, "plain") {
            Ok(CodeChallengeMethod::Plain)
        } else {
            Err(String::from_str("invalid code challenge method, must be either 'S256' or 'plain'"))
        }
    }
}

/// Whether `verifier` proves knowledge of the secret behind a registered
/// challenge, per the challenge's method.
pub open spec fn challenge_matches(
    challenge: Seq<char>,
    method: CodeChallengeMethod,
    verifier: Seq<char>,
) -> bool {
    match method {
        CodeChallengeMethod::S256 => challenge == b64url_of(sha256_str_of(verifier)),
        CodeChallengeMethod::Plain => challenge == verifier,
    }
}

/// A client PKCE code challenge, as defined in RFC 7636.
pub struct CodeChallenge {
    /// The base64url-encoded code challenge.
    pub challenge: String,
    /// The challenge transformation method.
    pub method: CodeChallengeMethod,
}

impl Clone for CodeChallenge {
    fn clone(&self) -> (r: CodeChallenge)
        ensures
            r == *self,
    {
        CodeChallenge { challenge: self.challenge.clone(), method: self.method }
    }
}

impl CodeChallenge {
    /// A challenge over the given base64url-encoded digest, with the S256
    /// method.
    pub fn new(challenge: String) -> (r: CodeChallenge)
        ensures
            r.challenge@ == challenge@,
            r.method == CodeChallengeMethod::S256,
    {
        CodeChallenge { challenge, method: CodeChallengeMethod::S256 }
    }

    /// Checks the verifier against the stored challenge: recompute per the
    /// stored method and compare.
    pub fn verify(&self, code_verifier: &str) -> (r: bool)
        ensures
            r == challenge_matches(self.challenge@, self.method, code_verifier@),
    {
        match self.method {
            CodeChallengeMethod::S256 => {
                let hash = sha256_str(code_verifier);
                let encoded = b64url_encode(hash.as_slice());
                str_eq(self.challenge.as_str(), encoded.as_str())
            },
            CodeChallengeMethod::Plain => str_eq(self.challenge.as_str(), code_verifier),
        }
    }
}

/// The validity window of a pending authorization, in seconds.
pub const PKCE_TTL_SECS: u64 = 600;

/// Whether a pending authorization registered at `begin` is still within
/// its validity window at time `now`.
pub open spec fn pkce_live(begin: int, now: int) -> bool {
    now - begin <= 600
}

/// A pending PKCE authorization: an authenticated user, the challenge the
/// redeeming client must answer, and the registration time.
pub struct Pkce {
    /// The authorized user name.
    pub user: String,
    /// The associated code challenge from the authorization request.
    pub code_challenge: CodeChallenge,
    /// Registration time, in seconds.
    pub begin: u64,
}

impl Pkce {
    /// A pending authorization stamped with the clock reading taken during
    /// the call.
    pub fn new(user: String, code_challenge: CodeChallenge) -> (r: Pkce)
        ensures
            r.user@ == user@,
            r.code_challenge.challenge@ == code_challenge.challenge@,
            r.code_challenge.method == code_challenge.method,
    {
        Pkce { user, code_challenge, begin: now_secs() }
    }

    /// A pending authorization registered at time `now`.
    pub fn new_at(user: String, code_challenge: CodeChallenge, now: u64) -> (r: Pkce)
        ensures
            r.user@ == user@,
            r.code_challenge.challenge@ == code_challenge.challenge@,
            r.code_challenge.method == code_challenge.method,
            r.begin == now,
    {
        Pkce { user, code_challenge, begin: now }
    }

    /// Whether the request is still within its window at time `now`.
    pub fn valid_at(&self, now: u64) -> (r: bool)
        ensures
            r == pkce_live(self.begin as int, now as int),
    {
        now <= self.begin || now - self.begin <= PKCE_TTL_SECS
    }

    /// Whether the request is still within its window at the clock reading
    /// taken during the call. Nothing can be promised of the reading itself;
    /// [`Self::valid_at`] carries the exact contract for a given time.
    pub fn valid(&self) -> (r: bool) {
        let now = now_secs();
        self.valid_at(now)
    }
}

/// PKCE configuration.
#[derive(Clone, Copy, Debug, PartialEq, Eq, Structural)]
pub struct PkceConfig {
    /// Whether to allow the `plain` transformation method for code
    /// challenges. A security weakness; disabled unless asked for.
    pub allow_plain: bool,
}

impl Default for PkceConfig {
    fn default() -> (r: PkceConfig)
        ensures
            r.allow_plain == false,
    {
        PkceConfig { allow_plain: false }
    }
}

/// What a pending entry holds, as plain mathematical values.
pub struct PendingView {
    pub user: Seq<char>,
    pub challenge: Seq<char>,
    pub method: CodeChallengeMethod,
    pub begin: int,
}

/// One pending authorization, keyed by its code.
struct PendingEntry {
    code: String,
    pkce: Pkce,
}

/// The view of one entry.
spec fn entry_view(e: PendingEntry) -> PendingView {
    PendingView {
        user: e.pkce.user@,
        challenge: e.pkce.code_challenge.challenge@,
        method: e.pkce.code_challenge.method,
        begin: e.pkce.begin as int,
    }
}

/// The map denoted by a sequence of pending entries: code → pending
/// authorization. A later entry for the same code shadows an earlier one.
spec fn pending_map(s: Seq<PendingEntry>) -> Map<Seq<char>, PendingView>
    decreases s.len(),
{
    if s.len() == 0 {
        Map::empty()
    } else {
        pending_map(s.drop_last()).insert(s.last().code@, entry_view(s.last()))
    }
}

/// Entry views of a duplicate-free entry sequence agree with the map it
/// denotes, and every key of the map comes from some entry.
proof fn lemma_pending_map(s: Seq<PendingEntry>)
    requires
        forall|i: int, j: int| 0 <= i < j < s.len() ==> s[i].code@ != s[j].code@,
    ensures
        forall|i: int|
            0 <= i < s.len() ==> #[trigger] pending_map(s).dom().contains(s[i].code@)
                && pending_map(s)[s[i].code@] == entry_view(s[i]),
        forall|k: Seq<char>|
            #[trigger] pending_map(s).dom().contains(k) ==> exists|i: int|
                0 <= i < s.len() && s[i].code@ == k,
    decreases s.len(),
{
    if s.len() > 0 {
        let dl = s.drop_last();
        assert forall|i: int, j: int| 0 <= i < j < dl.len() implies dl[i].code@ != dl[j].code@ by {
            assert(dl[i] == s[i]);
            assert(dl[j] == s[j]);
        }
        lemma_pending_map(dl);
        assert forall|i: int|
            0 <= i < s.len() implies #[trigger] pending_map(s).dom().contains(s[i].code@)
            && pending_map(s)[s[i].code@] == entry_view(s[i]) by {
            if i < s.len() - 1 {
                assert(dl[i] == s[i]);
                assert(pending_map(dl).dom().contains(dl[i].code@));
                assert(pending_map(dl)[dl[i].code@] == entry_view(dl[i]));
                assert(s[i].code@ != s[s.len() - 1].code@);
            }
        }
        assert forall|k: Seq<char>| #[trigger] pending_map(s).dom().contains(k) implies exists|
            i: int,
        |
            0 <= i < s.len() && s[i].code@ == k by {
            if k != s.last().code@ {
                assert(pending_map(dl).dom().contains(k));
                let i = choose|i: int| 0 <= i < dl.len() && dl[i].code@ == k;
                assert(dl[i] == s[i]);
                assert(s[i].code@ == k);
            } else {
                assert(s[s.len() - 1].code@ == k);
            }
        }
    }
}

/// The PKCE exchange module: configuration and the pending-authorization
/// map, exclusive access for both registration and redemption.
pub struct PkceModule {
    /// Configuration of the exchange.
    pub config: PkceConfig,
    pending: Vec<PendingEntry>,
}

impl View for PkceModule {
    type V = Map<Seq<char>, PendingView>;

    closed spec fn view(&self) -> Map<Seq<char>, PendingView> {
        pending_map(self.pending@)
    }
}

impl PkceModule {
    /// Well-formedness: no authorization code is stored twice.
    pub closed spec fn wf(&self) -> bool {
        forall|i: int, j: int|
            0 <= i < j < self.pending@.len() ==> self.pending@[i].code@ != self.pending@[j].code@
    }

    /// The configuration the module was created with.
    pub closed spec fn spec_config(&self) -> PkceConfig {
        self.config
    }

    /// Whether the `plain` challenge method is enabled.
    pub fn allow_plain(&self) -> (r: bool)
        ensures
            r == self.spec_config().allow_plain,
    {
        self.config.allow_plain
    }

    /// A fresh module with no pending authorization.
    pub fn new(config: PkceConfig) -> (r: PkceModule)
        ensures
            r.wf(),
            r.spec_config() == config,
            r@ == Map::<Seq<char>, PendingView>::empty(),
    {
        PkceModule { config, pending: Vec::new() }
    }

    /// Removes the entry stored under `code`, if any.
    fn remove_code(&mut self, code: &str)
        requires
            old(self).wf(),
        ensures
            final(self).wf(),
            final(self).config == old(self).config,
            final(self)@ == old(self)@.remove(code@),
    {
        let n = self.pending.len();
        let mut v: Vec<PendingEntry> = Vec::new();
        let mut i: usize = 0;
        while i < n
            invariant
                n == old(self).pending@.len(),
                i <= n,
                self.pending@ == old(self).pending@,
                self.config == old(self).config,
                old(self).wf(),
                forall|k: int, l: int| 0 <= k < l < v@.len() ==> v@[k].code@ != v@[l].code@,
                forall|k: int|
                    0 <= k < v@.len() ==> exists|m: int|
                        0 <= m < i && old(self).pending@[m] == #[trigger] v@[k],
                pending_map(v@) =~= retain_pending(
                    pending_map(old(self).pending@.take(i as int)),
                    code@,
                ),
            decreases n - i,
        {
            let ghost tcur = old(self).pending@.take(i as int);
            let ghost tnext = old(self).pending@.take(i + 1);
            let ghost e = old(self).pending@[i as int];
            let ghost prevv = v@;
            let keep = !str_eq(self.pending[i].code.as_str(), code);
            if keep {
                let ec = PendingEntry {
                    code: self.pending[i].code.clone(),
                    pkce: Pkce {
                        user: self.pending[i].pkce.user.clone(),
                        code_challenge: self.pending[i].pkce.code_challenge.clone(),
                        begin: self.pending[i].pkce.begin,
                    },
                };
                v.push(ec);
                proof {
                    assert forall|k: int, l: int|
                        0 <= k < l < v@.len() implies v@[k].code@ != v@[l].code@ by {
                        if l == v@.len() - 1 {
                            let m = choose|m: int|
                                0 <= m < i && old(self).pending@[m] == prevv[k];
                            assert(old(self).pending@[m].code@ != old(
                                self,
                            ).pending@[i as int].code@);
                        }
                    }
                    assert forall|k: int|
                        0 <= k < v@.len() implies exists|m: int|
                            0 <= m < i + 1 && old(self).pending@[m] == #[trigger] v@[k] by {
                        if k < v@.len() - 1 {
                            let m = choose|m: int|
                                0 <= m < i && old(self).pending@[m] == prevv[k];
                            assert(old(self).pending@[m] == v@[k]);
                        } else {
                            assert(old(self).pending@[i as int] == v@[k]);
                        }
                    }
                    assert(v@.drop_last() =~= prevv);
                    assert(entry_view(v@.last()) == entry_view(e));
                }
            }
            proof {
                assert(tnext.drop_last() =~= tcur);
                assert(tnext.last() == e);
                lemma_pending_map(tcur);
                if !keep {
                    assert(e.code@ == code@);
                }
                assert(pending_map(v@) =~= retain_pending(pending_map(tnext), code@));
            }
            i = i + 1;
        }
        self.pending = v;
        proof {
            assert(old(self).pending@.take(n as int) =~= old(self).pending@);
            assert(final(self)@ =~= old(self)@.remove(code@));
        }
    }

    /// Registers a pending authorization under `code`, overwriting any
    /// prior entry for the same code.
    fn register(&mut self, code: String, pkce: Pkce)
        requires
            old(self).wf(),
        ensures
            final(self).wf(),
            final(self).config == old(self).config,
            final(self)@ == old(self)@.insert(
                code@,
                PendingView {
                    user: pkce.user@,
                    challenge: pkce.code_challenge.challenge@,
                    method: pkce.code_challenge.method,
                    begin: pkce.begin as int,
                },
            ),
    {
        self.remove_code(code.as_str());
        let ghost mid = self.pending@;
        let ghost pv = PendingView {
            user: pkce.user@,
            challenge: pkce.code_challenge.challenge@,
            method: pkce.code_challenge.method,
            begin: pkce.begin as int,
        };
        self.pending.push(PendingEntry { code, pkce });
        proof {
            assert forall|i: int, j: int|
                0 <= i < j < self.pending@.len() implies self.pending@[i].code@
                != self.pending@[j].code@ by {
                if j == self.pending@.len() - 1 {
                    lemma_pending_map(mid);
                    assert(pending_map(mid).dom().contains(mid[i].code@));
                }
            }
            assert(self.pending@.drop_last() =~= mid);
            assert(entry_view(self.pending@.last()) == pv);
            assert(old(self)@.remove(self.pending@.last().code@).insert(
                self.pending@.last().code@,
                pv,
            ) =~= old(self)@.insert(self.pending@.last().code@, pv));
        }
    }

    /// Atomically removes and returns the pending authorization under
    /// `code`: the single find-validate-remove step of redemption.
    fn take_pending(&mut self, code: &str) -> (r: Option<Pkce>)
        requires
            old(self).wf(),
        ensures
            final(self).wf(),
            final(self).config == old(self).config,
            final(self)@ == old(self)@.remove(code@),
            (r is Some) <==> old(self)@.dom().contains(code@),
            r matches Some(p) ==> (PendingView {
                user: p.user@,
                challenge: p.code_challenge.challenge@,
                method: p.code_challenge.method,
                begin: p.begin as int,
            }) == old(self)@[code@],
    {
        proof {
            lemma_pending_map(self.pending@);
        }
        let n = self.pending.len();
        let mut i: usize = 0;
        while i < n
            invariant
                n == self.pending@.len(),
                i <= n,
                self == old(self),
                old(self).wf(),
                forall|k: int| 0 <= k < i ==> self.pending@[k].code@ != code@,
            decreases n - i,
        {
            if str_eq(self.pending[i].code.as_str(), code) {
                let p = Pkce {
                    user: self.pending[i].pkce.user.clone(),
                    code_challenge: self.pending[i].pkce.code_challenge.clone(),
                    begin: self.pending[i].pkce.begin,
                };
                proof {
                    lemma_pending_map(self.pending@);
                    assert(pending_map(self.pending@).dom().contains(
                        self.pending@[i as int].code@,
                    ));
                    assert(old(self)@[code@] == entry_view(self.pending@[i as int]));
                }
                self.remove_code(code);
                return Some(p);
            }
            i = i + 1;
        }
        proof {
            if old(self)@.dom().contains(code@) {
                let k = choose|k: int|
                    0 <= k < self.pending@.len() && self.pending@[k].code@ == code@;
            }
            assert(old(self)@.remove(code@) =~= old(self)@);
        }
        None
    }
}

/// The map with the entry under `code` (if any) removed and everything
/// else kept.
spec fn retain_pending(m: Map<Seq<char>, PendingView>, code: Seq<char>) -> Map<
    Seq<char>,
    PendingView,
> {
    Map::new(|k: Seq<char>| m.dom().contains(k) && k != code, |k: Seq<char>| m[k])
}

/// What an authorization code is computed from: the user identity and the
/// challenge, joined as `"user, method:challenge"`.
pub open spec fn auth_code_input(
    user: Seq<char>,
    method: CodeChallengeMethod,
    challenge: Seq<char>,
) -> Seq<char> {
    user + ", "@ + method_name(method) + ":"@ + challenge
}

/// The authorization code itself: a base64url-encoded digest of the code
/// input — unforgeable to anyone who cannot forge the digest input.
pub open spec fn auth_code_of(
    user: Seq<char>,
    method: CodeChallengeMethod,
    challenge: Seq<char>,
) -> Seq<char> {
    b64url_of(sha256_str_of(auth_code_input(user, method, challenge)))
}

/// What redeeming `code` with `verifier` at time `now` does: an unknown
/// code fails with `InvalidCode`; a known entry past its window fails with
/// `ExpiredCode`; a verifier that does not answer the stored challenge
/// fails with `InvalidVerifier`; otherwise a fresh session token is minted
/// for the entry's user. The sessions change only in the last case.
pub open spec fn token_req_post(
    pre_pending: Map<Seq<char>, PendingView>,
    pre_tokens: Map<Seq<char>, (Seq<char>, int)>,
    post_tokens: Map<Seq<char>, (Seq<char>, int)>,
    r: Result<String, PkceTokenError>,
    code: Seq<char>,
    verifier: Seq<char>,
    now: int,
) -> bool {
    if !pre_pending.dom().contains(code) {
        &&& r == Err::<String, PkceTokenError>(PkceTokenError::InvalidCode)
        &&& post_tokens == pre_tokens
    } else {
        let e = pre_pending[code];
        if !pkce_live(e.begin, now) {
            &&& r == Err::<String, PkceTokenError>(PkceTokenError::ExpiredCode)
            &&& post_tokens == pre_tokens
        } else if !challenge_matches(e.challenge, e.method, verifier) {
            &&& r == Err::<String, PkceTokenError>(PkceTokenError::InvalidVerifier)
            &&& post_tokens == pre_tokens
        } else {
            &&& r is Ok
            &&& (r->Ok_0)@.len() == 88
            &&& post_tokens == pre_tokens.insert((r->Ok_0)@, (e.user, now))
        }
    }
}

impl crate::Basileus {
    /// First step of an authorization request: a challenge naming the
    /// `plain` method while that mode is disabled is rejected with
    /// `InsecurePlain` — before any password check happens, so the
    /// disabled code path leaks no timing signal about valid usernames.
    pub fn pkce_auth_precheck(&self, code_challenge: &CodeChallenge) -> (r: Result<
        (),
        PkceAuthError,
    >)
        ensures
            r == (if code_challenge.method is Plain && !self.allow_plain_spec() {
                Err::<(), PkceAuthError>(PkceAuthError::InsecurePlain)
            } else {
                Ok::<(), PkceAuthError>(())
            }),
    {
        if code_challenge.method == CodeChallengeMethod::Plain && !self.pkce.allow_plain() {
            Err(PkceAuthError::InsecurePlain)
        } else {
            Ok(())
        }
    }

    /// Registers a pending authorization, at time `now`, for a user whose
    /// password the host has already verified, and returns the
    /// authorization code: the digest of user and challenge, overwriting
    /// any prior entry under the same code.
    pub fn pkce_auth_grant_at(&mut self, user: &str, code_challenge: CodeChallenge, now: u64) -> (code:
        String)
        requires
            old(self).wf(),
            code_challenge.method is Plain ==> old(self).allow_plain_spec(),
        ensures
            final(self).wf(),
            final(self).tokens() == old(self).tokens(),
            final(self).allow_plain_spec() == old(self).allow_plain_spec(),
            code@ == auth_code_of(user@, code_challenge.method, code_challenge.challenge@),
            final(self).pending() == old(self).pending().insert(
                code@,
                (PendingView {
                    user: user@,
                    challenge: code_challenge.challenge@,
                    method: code_challenge.method,
                    begin: now as int,
                }),
            ),
    {
        let mut input = String::from_str(user);
        input.append(", ");
        input.append(code_challenge.method.as_str());
        input.append(":");
        input.append(code_challenge.challenge.as_str());
        proof {
            assert(input@ =~= auth_code_input(
                user@,
                code_challenge.method,
                code_challenge.challenge@,
            ));
        }
        let digest = sha256_str(input.as_str());
        let code = b64url_encode(digest.as_slice());
        let pkce = Pkce::new_at(String::from_str(user), code_challenge, now);
        self.pkce.register(code.clone(), pkce);
        code
    }

    /// Registers a pending authorization stamped with the clock reading
    /// taken during the call; see [`Self::pkce_auth_grant_at`].
    pub fn pkce_auth_grant(&mut self, user: &str, code_challenge: CodeChallenge) -> (code: String)
        requires
            old(self).wf(),
            code_challenge.method is Plain ==> old(self).allow_plain_spec(),
        ensures
            final(self).wf(),
            final(self).tokens() == old(self).tokens(),
            final(self).allow_plain_spec() == old(self).allow_plain_spec(),
            code@ == auth_code_of(user@, code_challenge.method, code_challenge.challenge@),
            exists|now: int|
                final(self).pending() == #[trigger] old(self).pending().insert(
                    code@,
                    (PendingView {
                        user: user@,
                        challenge: code_challenge.challenge@,
                        method: code_challenge.method,
                        begin: now,
                    }),
                ),
    {
        let now = now_secs();
        let ghost method = code_challenge.method;
        let ghost challenge = code_challenge.challenge@;
        let code = self.pkce_auth_grant_at(user, code_challenge, now);
        proof {
            assert(self.pending() == old(self).pending().insert(
                code@,
                (PendingView { user: user@, challenge, method, begin: now as int }),
            ));
        }
        code
    }

    /// Handles an access token request at time `now`: atomically removes
    /// the pending entry under `code` (whatever then happens, the code is
    /// spent), checks the validity window and the verifier, and on success
    /// mints a session token for the originally authenticated user.
    pub fn pkce_token_req_at(&mut self, code: &str, code_verifier: &str, now: u64) -> (r: Result<
        String,
        PkceTokenError,
    >)
        requires
            old(self).wf(),
        ensures
            final(self).wf(),
            final(self).allow_plain_spec() == old(self).allow_plain_spec(),
            final(self).pending() == old(self).pending().remove(code@),
            token_req_post(
                old(self).pending(),
                old(self).tokens(),
                final(self).tokens(),
                r,
                code@,
                code_verifier@,
                now as int,
            ),
    {
        let taken = self.pkce.take_pending(code);
        match taken {
            None => Err(PkceTokenError::InvalidCode),
            Some(p) => {
                if !p.valid_at(now) {
                    Err(PkceTokenError::ExpiredCode)
                } else if !p.code_challenge.verify(code_verifier) {
                    Err(PkceTokenError::InvalidVerifier)
                } else {
                    let token = self.token.issue_token_at(p.user.as_str(), now);
                    Ok(token)
                }
            },
        }
    }

    /// Handles an access token request at the clock reading taken during
    /// the call; see [`Self::pkce_token_req_at`].
    pub fn pkce_token_req(&mut self, code: &str, code_verifier: &str) -> (r: Result<
        String,
        PkceTokenError,
    >)
        requires
            old(self).wf(),
        ensures
            final(self).wf(),
            final(self).allow_plain_spec() == old(self).allow_plain_spec(),
            final(self).pending() == old(self).pending().remove(code@),
            exists|now: int|
                #[trigger] token_req_post(
                    old(self).pending(),
                    old(self).tokens(),
                    final(self).tokens(),
                    r,
                    code@,
                    code_verifier@,
                    now,
                ),
    {
        let now = now_secs();
        let r = self.pkce_token_req_at(code, code_verifier, now);
        proof {
            assert(token_req_post(
                old(self).pending(),
                old(self).tokens(),
                self.tokens(),
                r,
                code@,
                code_verifier@,
                now as int,
            ));
        }
        r
    }
}

} // verus!
