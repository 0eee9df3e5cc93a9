//! The in-memory session token store.
//!
//! Opaque bearer tokens map to their owning user and an issuance timestamp
//! (in seconds). Tokens stay valid until explicitly invalidated or removed
//! by a caller-driven expiry sweep; entries live only in process memory.

use crate::now_secs;
use crate::strutil::str_eq;
use base64::prelude::BASE64_STANDARD;
use base64::Engine;
use vstd::prelude::*;

verus! {

/// Relies on getrandom::fill, which fills the whole buffer from the
/// platform's cryptographically secure source; nothing is assumed of the
/// bytes beyond their number.
#[verifier::external_body]
fn rand_buf() -> (r: Vec<u8>)
    ensures
        r@.len() == 64,
{
    let mut buf = [0u8; 64];
    getrandom::fill(&mut buf).unwrap();
    buf.to_vec()
}

/// Relies on base64's standard engine: encoding emits four characters for
/// every three input bytes, padded.
#[verifier::external_body]
fn b64_encode(bytes: &[u8]) -> (r: String)
    ensures
        r@.len() == 4 * ((bytes@.len() + 2) / 3),
{
    BASE64_STANDARD.encode(bytes)
}

/// One live session entry.
struct TokenEntry {
    token: String,
    user: String,
    issued_at: u64,
}

/// The map denoted by a sequence of session entries: token → (owner,
/// issuance time). A later entry for the same token shadows an earlier one.
spec fn entries_map(s: Seq<TokenEntry>) -> Map<Seq<char>, (Seq<char>, int)>
    decreases s.len(),
{
    if s.len() == 0 {
        Map::empty()
    } else {
        entries_map(s.drop_last()).insert(
            s.last().token@,
            (s.last().user@, s.last().issued_at as int),
        )
    }
}

/// Entry views of a duplicate-free entry sequence agree with the map it
/// denotes, and every key of the map comes from some entry.
proof fn lemma_entries_map(s: Seq<TokenEntry>)
    requires
        forall|i: int, j: int| 0 <= i < j < s.len() ==> s[i].token@ != s[j].token@,
    ensures
        forall|i: int|
            0 <= i < s.len() ==> #[trigger] entries_map(s).dom().contains(s[i].token@)
                && entries_map(s)[s[i].token@] == (s[i].user@, s[i].issued_at as int),
        forall|k: Seq<char>|
            #[trigger] entries_map(s).dom().contains(k) ==> exists|i: int|
                0 <= i < s.len() && s[i].token@ == k,
    decreases s.len(),
{
    if s.len() > 0 {
        let dl = s.drop_last();
        assert forall|i: int, j: int|
            0 <= i < j < dl.len() implies dl[i].token@ != dl[j].token@ by {
            assert(dl[i] == s[i]);
            assert(dl[j] == s[j]);
        }
        lemma_entries_map(dl);
        assert forall|i: int|
            0 <= i < s.len() implies #[trigger] entries_map(s).dom().contains(s[i].token@)
            && entries_map(s)[s[i].token@] == (s[i].user@, s[i].issued_at as int) by {
            if i < s.len() - 1 {
                assert(dl[i] == s[i]);
                assert(entries_map(dl).dom().contains(dl[i].token@));
                assert(entries_map(dl)[dl[i].token@] == (dl[i].user@, dl[i].issued_at as int));
                assert(s[i].token@ != s[s.len() - 1].token@);
            }
        }
        assert forall|k: Seq<char>| #[trigger] entries_map(s).dom().contains(k) implies exists|
            i: int,
        |
            0 <= i < s.len() && s[i].token@ == k by {
            if k != s.last().token@ {
                assert(entries_map(dl).dom().contains(k));
                let i = choose|i: int| 0 <= i < dl.len() && dl[i].token@ == k;
                assert(dl[i] == s[i]);
                assert(s[i].token@ == k);
            } else {
                assert(s[s.len() - 1].token@ == k);
            }
        }
    }
}

/// The restriction of a session map to the entries satisfying `f` (a
/// predicate over key and value), everything else removed.
pub open spec fn retain_map(
    m: Map<Seq<char>, (Seq<char>, int)>,
    f: spec_fn(Seq<char>, (Seq<char>, int)) -> bool,
) -> Map<Seq<char>, (Seq<char>, int)> {
    Map::new(|k: Seq<char>| m.dom().contains(k) && f(k, m[k]), |k: Seq<char>| m[k])
}

/// Whether a session issued at `issued_at` has, at time `now`, outlived a
/// maximum age of `max_age` seconds. Entries stamped in the future have
/// age zero and never count as expired.
pub open spec fn session_expired(issued_at: int, now: int, max_age: int) -> bool {
    now - issued_at > max_age
}

/// The sessions surviving an expiry sweep at time `now` with maximum age
/// `max_age`: exactly those not yet expired, kept unchanged.
pub open spec fn sweep_result(
    m: Map<Seq<char>, (Seq<char>, int)>,
    now: int,
    max_age: int,
) -> Map<Seq<char>, (Seq<char>, int)> {
    retain_map(m, (|k: Seq<char>, v: (Seq<char>, int)| !session_expired(v.1, now, max_age)))
}

/// The session token store.
pub struct TokenModule {
    store: Vec<TokenEntry>,
}

impl View for TokenModule {
    type V = Map<Seq<char>, (Seq<char>, int)>;

    closed spec fn view(&self) -> Map<Seq<char>, (Seq<char>, int)> {
        entries_map(self.store@)
    }
}

impl TokenModule {
    /// Well-formedness: no token string is stored twice.
    pub closed spec fn wf(&self) -> bool {
        forall|i: int, j: int|
            0 <= i < j < self.store@.len() ==> self.store@[i].token@ != self.store@[j].token@
    }

    /// An empty store: no session is live.
    pub fn new() -> (r: TokenModule)
        ensures
            r.wf(),
            r@ == Map::<Seq<char>, (Seq<char>, int)>::empty(),
    {
        TokenModule { store: Vec::new() }
    }

    /// Records a session `(user, now)` under a fresh high-entropy token —
    /// the standard base64 encoding of 64 random bytes, 88 characters — and
    /// returns the token. A colliding token silently overwrites the older
    /// session.
    pub fn issue_token_at(&mut self, user: &str, now: u64) -> (token: String)
        requires
            old(self).wf(),
        ensures
            final(self).wf(),
            final(self)@ == old(self)@.insert(token@, (user@, now as int)),
            token@.len() == 88,
    {
        let buf = rand_buf();
        let token = b64_encode(buf.as_slice());
        self.remove_entry(token.as_str());
        let ghost mid = self.store@;
        self.store.push(
            TokenEntry { token: token.clone(), user: String::from_str(user), issued_at: now },
        );
        proof {
            assert forall|i: int, j: int|
                0 <= i < j < self.store@.len() implies self.store@[i].token@
                != self.store@[j].token@ by {
                if j == self.store@.len() - 1 {
                    lemma_entries_map(mid);
                    assert(entries_map(mid).dom().contains(mid[i].token@));
                }
            }
            assert(self.store@.drop_last() =~= mid);
            assert(old(self)@.remove(token@).insert(token@, (user@, now as int)) =~= old(
                self,
            )@.insert(token@, (user@, now as int)));
        }
        token
    }

    /// Removes the entry stored under `token`, if any; private workhorse of
    /// invalidation.
    fn remove_entry(&mut self, token: &str)
        requires
            old(self).wf(),
        ensures
            final(self).wf(),
            final(self)@ == old(self)@.remove(token@),
    {
        let n = self.store.len();
        let mut v: Vec<TokenEntry> = Vec::new();
        let mut i: usize = 0;
        while i < n
            invariant
                n == old(self).store@.len(),
                i <= n,
                self.store@ == old(self).store@,
                old(self).wf(),
                forall|k: int, l: int| 0 <= k < l < v@.len() ==> v@[k].token@ != v@[l].token@,
                forall|k: int|
                    0 <= k < v@.len() ==> exists|m: int|
                        0 <= m < i && old(self).store@[m] == #[trigger] v@[k],
                entries_map(v@) =~= retain_map(
                    entries_map(old(self).store@.take(i as int)),
                    (|k: Seq<char>, val: (Seq<char>, int)| k != token@),
                ),
            decreases n - i,
        {
            let ghost tcur = old(self).store@.take(i as int);
            let ghost tnext = old(self).store@.take(i + 1);
            let ghost e = old(self).store@[i as int];
            let ghost prevv = v@;
            let keep = !str_eq(self.store[i].token.as_str(), token);
            if keep {
                let ec = TokenEntry {
                    token: self.store[i].token.clone(),
                    user: self.store[i].user.clone(),
                    issued_at: self.store[i].issued_at,
                };
                v.push(ec);
                proof {
                    assert forall|k: int, l: int|
                        0 <= k < l < v@.len() implies v@[k].token@ != v@[l].token@ by {
                        if l == v@.len() - 1 {
                            let m = choose|m: int|
                                0 <= m < i && old(self).store@[m] == prevv[k];
                            assert(old(self).store@[m].token@ != old(
                                self,
                            ).store@[i as int].token@);
                        }
                    }
                    assert forall|k: int|
                        0 <= k < v@.len() implies exists|m: int|
                            0 <= m < i + 1 && old(self).store@[m] == #[trigger] v@[k] by {
                        if k < v@.len() - 1 {
                            let m = choose|m: int|
                                0 <= m < i && old(self).store@[m] == prevv[k];
                            assert(old(self).store@[m] == v@[k]);
                        } else {
                            assert(old(self).store@[i as int] == v@[k]);
                        }
                    }
                    assert(v@.drop_last() =~= prevv);
                }
            }
            proof {
                assert(tnext.drop_last() =~= tcur);
                assert(tnext.last() == e);
                lemma_entries_map(tcur);
                assert forall|ii: int, jj: int|
                    0 <= ii < jj < tcur.len() implies tcur[ii].token@ != tcur[jj].token@ by {}
                if !keep {
                    assert(e.token@ == token@);
                }
                assert(entries_map(v@) =~= retain_map(
                    entries_map(tnext),
                    (|k: Seq<char>, val: (Seq<char>, int)| k != token@),
                ));
            }
            i = i + 1;
        }
        self.store = v;
        proof {
            assert(old(self).store@.take(n as int) =~= old(self).store@);
            assert(final(self)@ =~= old(self)@.remove(token@));
        }
    }

    /// Removes every session owned by `user`, leaving all others unchanged.
    fn remove_user_entries(&mut self, user: &str)
        requires
            old(self).wf(),
        ensures
            final(self).wf(),
            final(self)@ == retain_map(
                old(self)@,
                (|k: Seq<char>, v: (Seq<char>, int)| v.0 != user@),
            ),
    {
        let n = self.store.len();
        let mut v: Vec<TokenEntry> = Vec::new();
        let mut i: usize = 0;
        while i < n
            invariant
                n == old(self).store@.len(),
                i <= n,
                self.store@ == old(self).store@,
                old(self).wf(),
                forall|k: int, l: int| 0 <= k < l < v@.len() ==> v@[k].token@ != v@[l].token@,
                forall|k: int|
                    0 <= k < v@.len() ==> exists|m: int|
                        0 <= m < i && old(self).store@[m] == #[trigger] v@[k],
                entries_map(v@) =~= retain_map(
                    entries_map(old(self).store@.take(i as int)),
                    (|k: Seq<char>, val: (Seq<char>, int)| val.0 != user@),
                ),
            decreases n - i,
        {
            let ghost tcur = old(self).store@.take(i as int);
            let ghost tnext = old(self).store@.take(i + 1);
            let ghost e = old(self).store@[i as int];
            let ghost prevv = v@;
            let keep = !str_eq(self.store[i].user.as_str(), user);
            if keep {
                let ec = TokenEntry {
                    token: self.store[i].token.clone(),
                    user: self.store[i].user.clone(),
                    issued_at: self.store[i].issued_at,
                };
                v.push(ec);
                proof {
                    assert forall|k: int, l: int|
                        0 <= k < l < v@.len() implies v@[k].token@ != v@[l].token@ by {
                        if l == v@.len() - 1 {
                            let m = choose|m: int|
                                0 <= m < i && old(self).store@[m] == prevv[k];
                            assert(old(self).store@[m].token@ != old(
                                self,
                            ).store@[i as int].token@);
                        }
                    }
                    assert forall|k: int|
                        0 <= k < v@.len() implies exists|m: int|
                            0 <= m < i + 1 && old(self).store@[m] == #[trigger] v@[k] by {
                        if k < v@.len() - 1 {
                            let m = choose|m: int|
                                0 <= m < i && old(self).store@[m] == prevv[k];
                            assert(old(self).store@[m] == v@[k]);
                        } else {
                            assert(old(self).store@[i as int] == v@[k]);
                        }
                    }
                    assert(v@.drop_last() =~= prevv);
                }
            }
            proof {
                assert(tnext.drop_last() =~= tcur);
                assert(tnext.last() == e);
                lemma_entries_map(tcur);
                if !keep {
                    assert(e.user@ == user@);
                }
                assert(entries_map(v@) =~= retain_map(
                    entries_map(tnext),
                    (|k: Seq<char>, val: (Seq<char>, int)| val.0 != user@),
                ));
            }
            i = i + 1;
        }
        self.store = v;
        proof {
            assert(old(self).store@.take(n as int) =~= old(self).store@);
        }
    }

    /// Removes exactly the sessions whose age at time `now` exceeds
    /// `max_age` seconds, keeping every younger (or future-stamped) session
    /// unchanged.
    pub fn expire_token_at(&mut self, max_age: u64, now: u64)
        requires
            old(self).wf(),
        ensures
            final(self).wf(),
            final(self)@ == sweep_result(old(self)@, now as int, max_age as int),
    {
        let n = self.store.len();
        let mut v: Vec<TokenEntry> = Vec::new();
        let mut i: usize = 0;
        while i < n
            invariant
                n == old(self).store@.len(),
                i <= n,
                self.store@ == old(self).store@,
                old(self).wf(),
                forall|k: int, l: int| 0 <= k < l < v@.len() ==> v@[k].token@ != v@[l].token@,
                forall|k: int|
                    0 <= k < v@.len() ==> exists|m: int|
                        0 <= m < i && old(self).store@[m] == #[trigger] v@[k],
                entries_map(v@) =~= retain_map(
                    entries_map(old(self).store@.take(i as int)),
                    (|k: Seq<char>, val: (Seq<char>, int)|
                        !session_expired(val.1, now as int, max_age as int)),
                ),
            decreases n - i,
        {
            let ghost tcur = old(self).store@.take(i as int);
            let ghost tnext = old(self).store@.take(i + 1);
            let ghost e = old(self).store@[i as int];
            let ghost prevv = v@;
            let issued = self.store[i].issued_at;
            let keep = issued > now || now - issued <= max_age;
            if keep {
                let ec = TokenEntry {
                    token: self.store[i].token.clone(),
                    user: self.store[i].user.clone(),
                    issued_at: issued,
                };
                v.push(ec);
                proof {
                    assert forall|k: int, l: int|
                        0 <= k < l < v@.len() implies v@[k].token@ != v@[l].token@ by {
                        if l == v@.len() - 1 {
                            let m = choose|m: int|
                                0 <= m < i && old(self).store@[m] == prevv[k];
                            assert(old(self).store@[m].token@ != old(
                                self,
                            ).store@[i as int].token@);
                        }
                    }
                    assert forall|k: int|
                        0 <= k < v@.len() implies exists|m: int|
                            0 <= m < i + 1 && old(self).store@[m] == #[trigger] v@[k] by {
                        if k < v@.len() - 1 {
                            let m = choose|m: int|
                                0 <= m < i && old(self).store@[m] == prevv[k];
                            assert(old(self).store@[m] == v@[k]);
                        } else {
                            assert(old(self).store@[i as int] == v@[k]);
                        }
                    }
                    assert(v@.drop_last() =~= prevv);
                }
            }
            proof {
                assert(tnext.drop_last() =~= tcur);
                assert(tnext.last() == e);
                lemma_entries_map(tcur);
                assert(keep == !session_expired(e.issued_at as int, now as int, max_age as int));
                assert(entries_map(v@) =~= retain_map(
                    entries_map(tnext),
                    (|k: Seq<char>, val: (Seq<char>, int)|
                        !session_expired(val.1, now as int, max_age as int)),
                ));
            }
            i = i + 1;
        }
        self.store = v;
        proof {
            assert(old(self).store@.take(n as int) =~= old(self).store@);
        }
    }

    /// Looks the token up without mutating anything: its owner if the
    /// session is live, `None` otherwise. No expiry check happens here;
    /// only the explicit sweep enforces ages.
    pub fn verify_token_lookup(&self, token: &str) -> (r: Option<String>)
        requires
            self.wf(),
        ensures
            r is Some <==> self@.dom().contains(token@),
            r matches Some(u) ==> u@ == self@[token@].0,
    {
        proof {
            lemma_entries_map(self.store@);
        }
        let n = self.store.len();
        let mut i: usize = 0;
        while i < n
            invariant
                n == self.store@.len(),
                self.wf(),
                i <= n,
                forall|k: int| 0 <= k < i ==> self.store@[k].token@ != token@,
            decreases n - i,
        {
            if str_eq(self.store[i].token.as_str(), token) {
                proof {
                    lemma_entries_map(self.store@);
                    assert(entries_map(self.store@).dom().contains(self.store@[i as int].token@));
                }
                return Some(self.store[i].user.clone());
            }
            i = i + 1;
        }
        proof {
            lemma_entries_map(self.store@);
            if self@.dom().contains(token@) {
                let k = choose|k: int|
                    0 <= k < self.store@.len() && self.store@[k].token@ == token@;
            }
        }
        None
    }
}

/// Session token management, independent of how the user authenticated.
pub trait TokenManage: Sized {
    /// The live sessions: token → (owner, issuance time in seconds).
    spec fn tokens(&self) -> Map<Seq<char>, (Seq<char>, int)>;

    /// The store's internal invariant.
    spec fn tokens_wf(&self) -> bool;

    /// Issues a new opaque token to `user`, stamped with the clock reading
    /// taken during the call. Always succeeds; callers are expected to have
    /// authenticated the user already.
    fn issue_token(&mut self, user: &str) -> (token: String)
        requires
            old(self).tokens_wf(),
        ensures
            final(self).tokens_wf(),
            token@.len() == 88,
            exists|now: int|
                final(self).tokens() == #[trigger] old(self).tokens().insert(
                    token@,
                    (user@, now),
                ),
    ;

    /// Removes one token; removing an absent token is a no-op, not an
    /// error.
    fn invalidate_token(&mut self, token: &str)
        requires
            old(self).tokens_wf(),
        ensures
            final(self).tokens_wf(),
            final(self).tokens() == old(self).tokens().remove(token@),
    ;

    /// Removes every token owned by `user`.
    fn invalidate_user_token(&mut self, user: &str)
        requires
            old(self).tokens_wf(),
        ensures
            final(self).tokens_wf(),
            final(self).tokens() == retain_map(
                old(self).tokens(),
                (|k: Seq<char>, v: (Seq<char>, int)| v.0 != user@),
            ),
    ;

    /// Removes every token whose age, at the clock reading taken during
    /// the call, exceeds `max_age` seconds.
    fn expire_token(&mut self, max_age: u64)
        requires
            old(self).tokens_wf(),
        ensures
            final(self).tokens_wf(),
            exists|now: int|
                final(self).tokens() == #[trigger] sweep_result(
                    old(self).tokens(),
                    now,
                    max_age as int,
                ),
    ;

    /// Pure lookup: the owner of a live token, `None` for an unknown one.
    fn verify_token(&self, token: &str) -> (r: Option<String>)
        requires
            self.tokens_wf(),
        ensures
            r is Some <==> self.tokens().dom().contains(token@),
            r matches Some(u) ==> u@ == self.tokens()[token@].0,
    ;
}

impl TokenManage for TokenModule {
    open spec fn tokens(&self) -> Map<Seq<char>, (Seq<char>, int)> {
        self.view()
    }

    open spec fn tokens_wf(&self) -> bool {
        self.wf()
    }

    fn issue_token(&mut self, user: &str) -> (token: String) {
        let now = now_secs();
        let token = self.issue_token_at(user, now);
        proof {
            assert(self.tokens() == old(self).tokens().insert(token@, (user@, now as int)));
        }
        token
    }

    fn invalidate_token(&mut self, token: &str) {
        self.remove_entry(token);
    }

    fn invalidate_user_token(&mut self, user: &str) {
        self.remove_user_entries(user);
    }

    fn expire_token(&mut self, max_age: u64) {
        let now = now_secs();
        self.expire_token_at(max_age, now);
        proof {
            assert(self.tokens() == sweep_result(old(self).tokens(), now as int, max_age as int));
        }
    }

    fn verify_token(&self, token: &str) -> (r: Option<String>) {
        self.verify_token_lookup(token)
    }
}

/// A token just issued verifies to its owner, and an invalidated token no
/// longer verifies at all.
pub proof fn lemma_issue_verify(
    m: Map<Seq<char>, (Seq<char>, int)>,
    token: Seq<char>,
    user: Seq<char>,
    now: int,
)
    ensures
        m.insert(token, (user, now)).dom().contains(token),
        m.insert(token, (user, now))[token].0 == user,
        !m.insert(token, (user, now)).remove(token).dom().contains(token),
        !m.remove(token).dom().contains(token),
{
}

/// The expiry sweep removes exactly the entries whose age exceeds the
/// maximum — none younger, none older spared — and leaves the survivors'
/// records unchanged.
pub proof fn lemma_expire_exact(
    m: Map<Seq<char>, (Seq<char>, int)>,
    r: Map<Seq<char>, (Seq<char>, int)>,
    now: int,
    max_age: int,
)
    requires
        r == sweep_result(m, now, max_age),
    ensures
        forall|k: Seq<char>|
            #[trigger] r.dom().contains(k) <==> m.dom().contains(k) && !session_expired(
                m[k].1,
                now,
                max_age,
            ),
        forall|k: Seq<char>| #[trigger] r.dom().contains(k) ==> r[k] == m[k],
{
}

} // verus!
