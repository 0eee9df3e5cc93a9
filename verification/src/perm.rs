//! The permission algebra.
//!
//! A permission set is a set of permission tokens: non-empty strings free of
//! whitespace. Sets of permissions form a partial order under subset
//! inclusion; two sets neither of which includes the other are incomparable.
//! A permission set serializes to a whitespace-separated token string and
//! parses back from any string at all (parsing is total).

use crate::strutil::str_eq;
use vstd::prelude::*;
use vstd::string::StrSliceExecFns;

verus! {

/// A whitespace character: one of the characters with the Unicode
/// `White_Space` property, the separators when parsing a token string.
pub open spec fn is_space_char(c: char) -> bool {
    let u = c as u32;
    ||| u == 0x20
    ||| (0x09 <= u && u <= 0x0d)
    ||| u == 0x85
    ||| u == 0xa0
    ||| u == 0x1680
    ||| (0x2000 <= u && u <= 0x200a)
    ||| u == 0x2028
    ||| u == 0x2029
    ||| u == 0x202f
    ||| u == 0x205f
    ||| u == 0x3000
}

/// Runtime test matching [`is_space_char`].
pub fn is_space(c: char) -> (r: bool)
    ensures
        r == is_space_char(c),
{
    let u = c as u32;
    u == 0x20 || (0x09 <= u && u <= 0x0d) || u == 0x85 || u == 0xa0 || u == 0x1680 || (0x2000 <= u
        && u <= 0x200a) || u == 0x2028 || u == 0x2029 || u == 0x202f || u == 0x205f || u == 0x3000
}

/// A well-formed permission token: non-empty and free of whitespace.
pub open spec fn valid_token(t: Seq<char>) -> bool {
    &&& t.len() > 0
    &&& forall|i: int| 0 <= i < t.len() ==> !is_space_char(#[trigger] t[i])
}

/// Length of the leading run of non-whitespace characters.
pub open spec fn token_len(s: Seq<char>) -> nat
    decreases s.len(),
{
    if s.len() == 0 || is_space_char(s[0]) {
        0
    } else {
        (token_len(s.drop_first()) + 1) as nat
    }
}

pub proof fn lemma_token_len_le(s: Seq<char>)
    ensures
        token_len(s) <= s.len(),
    decreases s.len(),
{
    if s.len() != 0 && !is_space_char(s[0]) {
        lemma_token_len_le(s.drop_first());
    }
}

/// The sequence of whitespace-separated tokens of a string, in order, with
/// duplicates kept.
pub open spec fn tokens_of(s: Seq<char>) -> Seq<Seq<char>>
    decreases s.len(),
    via tokens_of_decreases
{
    if s.len() == 0 {
        Seq::empty()
    } else if is_space_char(s[0]) {
        tokens_of(s.drop_first())
    } else {
        seq![s.take(token_len(s) as int)] + tokens_of(s.skip(token_len(s) as int))
    }
}

#[via_fn]
proof fn tokens_of_decreases(s: Seq<char>) {
    lemma_token_len_le(s);
}

/// What a permission string denotes: the set of its whitespace-separated
/// tokens. Total over every input; the empty string denotes the empty set.
pub open spec fn parse_perm(s: Seq<char>) -> Set<Seq<char>> {
    tokens_of(s).to_set()
}

/// The canonical serialization of a token sequence: each token followed by a
/// single space.
pub open spec fn join_tokens(ts: Seq<Seq<char>>) -> Seq<char>
    decreases ts.len(),
{
    if ts.len() == 0 {
        Seq::empty()
    } else {
        ts[0] + seq![' '] + join_tokens(ts.drop_first())
    }
}

/// The leading token run ends exactly at the first whitespace character (or
/// at the end of the string).
pub proof fn lemma_token_len_exact(s: Seq<char>, k: int)
    requires
        0 <= k <= s.len(),
        forall|m: int| 0 <= m < k ==> !is_space_char(#[trigger] s[m]),
        k == s.len() || is_space_char(s[k]),
    ensures
        token_len(s) == k,
    decreases k,
{
    if k > 0 {
        let t = s.drop_first();
        assert forall|m: int| 0 <= m < k - 1 implies !is_space_char(#[trigger] t[m]) by {
            assert(t[m] == s[m + 1]);
        }
        if k - 1 < t.len() {
            assert(t[k - 1] == s[k]);
        }
        lemma_token_len_exact(t, k - 1);
    }
}

/// Prepending one element to a sequence inserts it into the sequence's set.
proof fn lemma_to_set_cons(t: Seq<char>, rest: Seq<Seq<char>>)
    ensures
        (seq![t] + rest).to_set() =~= rest.to_set().insert(t),
{
    let c = seq![t] + rest;
    assert forall|x: Seq<char>| c.to_set().contains(x) implies rest.to_set().insert(t).contains(
        x,
    ) by {
        let i = choose|i: int| 0 <= i < c.len() && c[i] == x;
        if i > 0 {
            assert(rest[i - 1] == x);
            assert(rest.contains(x));
        }
    }
    assert forall|x: Seq<char>| rest.to_set().insert(t).contains(x) implies c.to_set().contains(
        x,
    ) by {
        if x == t {
            assert(c[0] == x);
        } else {
            let i = choose|i: int| 0 <= i < rest.len() && rest[i] == x;
            assert(c[i + 1] == x);
        }
    }
}

/// Appending one token to the sequence appends it, and a space, to the
/// serialization.
proof fn lemma_join_push(ts: Seq<Seq<char>>, t: Seq<char>)
    ensures
        join_tokens(ts.push(t)) == join_tokens(ts) + t + seq![' '],
    decreases ts.len(),
{
    let l = ts.push(t);
    if ts.len() == 0 {
        assert(l[0] == t);
        assert(l.drop_first() =~= Seq::<Seq<char>>::empty());
        assert(join_tokens(l) == l[0] + seq![' '] + join_tokens(l.drop_first()));
        assert(join_tokens(l) =~= join_tokens(ts) + t + seq![' ']);
    } else {
        assert(l.drop_first() =~= ts.drop_first().push(t));
        lemma_join_push(ts.drop_first(), t);
        assert(l[0] == ts[0]);
        assert(join_tokens(l) == l[0] + seq![' '] + join_tokens(l.drop_first()));
        assert(join_tokens(ts) == ts[0] + seq![' '] + join_tokens(ts.drop_first()));
        assert(join_tokens(l) =~= join_tokens(ts) + t + seq![' ']);
    }
}

/// Parsing recovers a serialized token sequence exactly, provided every
/// token is well-formed.
pub proof fn lemma_tokens_of_join(ts: Seq<Seq<char>>)
    requires
        forall|i: int| 0 <= i < ts.len() ==> valid_token(#[trigger] ts[i]),
    ensures
        tokens_of(join_tokens(ts)) == ts,
    decreases ts.len(),
{
    if ts.len() > 0 {
        let t0 = ts[0];
        let rest = ts.drop_first();
        let j = join_tokens(ts);
        let n = t0.len() as int;
        assert(j == t0 + seq![' '] + join_tokens(rest));
        assert forall|m: int| 0 <= m < n implies !is_space_char(#[trigger] j[m]) by {
            assert(j[m] == t0[m]);
        }
        assert(j[n] == ' ');
        lemma_token_len_exact(j, n);
        assert(!is_space_char(j[0]));
        assert(j.take(n) =~= t0);
        let tail = j.skip(n);
        assert(tail =~= seq![' '] + join_tokens(rest));
        assert(is_space_char(tail[0]));
        assert(tail.drop_first() =~= join_tokens(rest));
        lemma_tokens_of_join(rest);
        assert(tokens_of(j) == seq![j.take(token_len(j) as int)] + tokens_of(
            j.skip(token_len(j) as int),
        ));
        assert(j.skip(token_len(j) as int) == tail);
        assert(tokens_of(tail) == tokens_of(tail.drop_first()));
        assert(tokens_of(tail.drop_first()) == rest);
        assert(tokens_of(j) =~~= seq![t0] + rest);
        assert(seq![t0] + rest =~~= ts);
    }
}

/// The set of token views held in a vector of token strings.
pub open spec fn toks_set(ts: Seq<String>) -> Set<Seq<char>> {
    Set::new(|t: Seq<char>| exists|i: int| 0 <= i < ts.len() && ts[i]@ == t)
}

/// Denotes a permission level: a set of permission tokens.
pub struct Perm {
    tokens: Vec<String>,
}

impl View for Perm {
    type V = Set<Seq<char>>;

    closed spec fn view(&self) -> Set<Seq<char>> {
        toks_set(self.tokens@)
    }
}

impl Perm {
    /// Well-formedness: every stored token is non-empty and whitespace-free,
    /// and no token is stored twice.
    pub closed spec fn wf(&self) -> bool {
        &&& forall|i: int| 0 <= i < self.tokens@.len() ==> valid_token(#[trigger] self.tokens@[i]@)
        &&& forall|i: int, j: int|
            0 <= i < j < self.tokens@.len() ==> self.tokens@[i]@ != self.tokens@[j]@
    }

    /// The empty permission set.
    pub fn new() -> (p: Perm)
        ensures
            p@ == Set::<Seq<char>>::empty(),
            p.wf(),
    {
        let p = Perm { tokens: Vec::new() };
        proof {
            assert(p@ =~= Set::<Seq<char>>::empty());
        }
        p
    }

    /// Whether `t` is a member of this permission set.
    pub fn contains(&self, t: &str) -> (r: bool)
        ensures
            r == self@.contains(t@),
    {
        let n = self.tokens.len();
        let mut i: usize = 0;
        while i < n
            invariant
                n == self.tokens@.len(),
                i <= n,
                forall|k: int| 0 <= k < i ==> self.tokens@[k]@ != t@,
            decreases n - i,
        {
            if str_eq(self.tokens[i].as_str(), t) {
                return true;
            }
            i = i + 1;
        }
        false
    }

    /// Adds one token, keeping the set well-formed (no duplicate storage).
    fn insert_token(&mut self, t: String)
        requires
            old(self).wf(),
            valid_token(t@),
        ensures
            final(self).wf(),
            final(self)@ == old(self)@.insert(t@),
    {
        let present = self.contains(t.as_str());
        if !present {
            let ghost prev = self.tokens@;
            self.tokens.push(t);
            proof {
                assert forall|x: Seq<char>| self@.contains(x) implies old(
                    self,
                )@.insert(t@).contains(x) by {
                    let i = choose|i: int| 0 <= i < self.tokens@.len() && self.tokens@[i]@ == x;
                    if i < prev.len() {
                        assert(prev[i]@ == x);
                    }
                }
                assert forall|x: Seq<char>| old(self)@.insert(t@).contains(x) implies self@.contains(
                    x,
                ) by {
                    if x == t@ {
                        assert(self.tokens@[prev.len() as int]@ == x);
                    } else {
                        let i = choose|i: int| 0 <= i < prev.len() && prev[i]@ == x;
                        assert(self.tokens@[i]@ == x);
                    }
                }
                assert(self@ =~= old(self)@.insert(t@));
            }
        } else {
            proof {
                assert(self@ =~= old(self)@.insert(t@));
            }
        }
    }
}

impl Clone for Perm {
    fn clone(&self) -> (r: Perm)
        ensures
            r@ == self@,
            self.wf() ==> r.wf(),
    {
        let n = self.tokens.len();
        let mut v: Vec<String> = Vec::new();
        let mut i: usize = 0;
        while i < n
            invariant
                n == self.tokens@.len(),
                i <= n,
                v@.len() == i,
                forall|k: int| 0 <= k < i ==> v@[k]@ == self.tokens@[k]@,
            decreases n - i,
        {
            v.push(self.tokens[i].clone());
            i = i + 1;
        }
        let r = Perm { tokens: v };
        proof {
            assert forall|x: Seq<char>| r@.contains(x) implies self@.contains(x) by {
                let k = choose|k: int| 0 <= k < r.tokens@.len() && r.tokens@[k]@ == x;
                assert(self.tokens@[k]@ == x);
            }
            assert forall|x: Seq<char>| self@.contains(x) implies r@.contains(x) by {
                let k = choose|k: int| 0 <= k < self.tokens@.len() && self.tokens@[k]@ == x;
                assert(r.tokens@[k]@ == x);
            }
            assert(r@ =~= self@);
        }
        r
    }
}

impl Perm {
    /// The union of two permission sets: everything held by either
    /// (granting).
    pub fn union(&self, other: &Perm) -> (r: Perm)
        requires
            self.wf(),
            other.wf(),
        ensures
            r.wf(),
            r@ == self@.union(other@),
    {
        let mut r = self.clone();
        let n = other.tokens.len();
        let mut i: usize = 0;
        while i < n
            invariant
                n == other.tokens@.len(),
                i <= n,
                r.wf(),
                other.wf(),
                r@ =~= self@.union(toks_set(other.tokens@.take(i as int))),
            decreases n - i,
        {
            let ghost tcur = other.tokens@.take(i as int);
            let ghost tnext = other.tokens@.take(i + 1);
            r.insert_token(other.tokens[i].clone());
            proof {
                assert forall|x: Seq<char>| toks_set(tnext).contains(x) implies toks_set(
                    tcur,
                ).insert(other.tokens@[i as int]@).contains(x) by {
                    let k = choose|k: int| 0 <= k < tnext.len() && tnext[k]@ == x;
                    if k < i {
                        assert(tcur[k]@ == x);
                    }
                }
                assert forall|x: Seq<char>|
                    toks_set(tcur).insert(other.tokens@[i as int]@).contains(x) implies toks_set(
                    tnext,
                ).contains(x) by {
                    if x == other.tokens@[i as int]@ {
                        assert(tnext[i as int]@ == x);
                    } else {
                        let k = choose|k: int| 0 <= k < tcur.len() && tcur[k]@ == x;
                        assert(tnext[k]@ == x);
                    }
                }
                assert(toks_set(tnext) =~= toks_set(tcur).insert(other.tokens@[i as int]@));
                assert(r@ =~= self@.union(toks_set(tnext)));
            }
            i = i + 1;
        }
        proof {
            assert(other.tokens@.take(n as int) =~= other.tokens@);
            assert(r@ =~= self@.union(other@));
        }
        r
    }

    /// The set difference: everything held by `self` but not by `other`
    /// (revoking). Removing tokens that are not held is permitted.
    pub fn difference(&self, other: &Perm) -> (r: Perm)
        requires
            self.wf(),
        ensures
            r.wf(),
            r@ == self@.difference(other@),
    {
        let n = self.tokens.len();
        let mut v: Vec<String> = Vec::new();
        let mut i: usize = 0;
        while i < n
            invariant
                n == self.tokens@.len(),
                i <= n,
                self.wf(),
                forall|k: int| 0 <= k < v@.len() ==> valid_token(#[trigger] v@[k]@),
                forall|k: int, l: int| 0 <= k < l < v@.len() ==> v@[k]@ != v@[l]@,
                toks_set(v@) =~= toks_set(self.tokens@.take(i as int)).difference(other@),
            decreases n - i,
        {
            let ghost prevv = v@;
            let keep = !other.contains(self.tokens[i].as_str());
            if keep {
                v.push(self.tokens[i].clone());
                proof {
                    assert forall|k: int, l: int|
                        0 <= k < l < v@.len() implies v@[k]@ != v@[l]@ by {
                        if l == v@.len() - 1 {
                            assert(toks_set(prevv).contains(prevv[k]@));
                        }
                    }
                }
            }
            proof {
                let tcur = self.tokens@.take(i as int);
                let tnext = self.tokens@.take(i + 1);
                assert forall|x: Seq<char>| toks_set(v@).contains(x) implies toks_set(
                    tnext,
                ).difference(other@).contains(x) by {
                    let k = choose|k: int| 0 <= k < v@.len() && v@[k]@ == x;
                    if k < prevv.len() {
                        assert(toks_set(prevv).contains(x));
                        let m = choose|m: int| 0 <= m < tcur.len() && tcur[m]@ == x;
                        assert(tnext[m]@ == x);
                    } else {
                        assert(x == self.tokens@[i as int]@);
                        assert(tnext[i as int]@ == x);
                    }
                }
                assert forall|x: Seq<char>|
                    toks_set(tnext).difference(other@).contains(x) implies toks_set(v@).contains(
                    x,
                ) by {
                    let m = choose|m: int| 0 <= m < tnext.len() && tnext[m]@ == x;
                    if m < i {
                        assert(tcur[m]@ == x);
                        assert(toks_set(tcur).difference(other@).contains(x));
                        let k = choose|k: int| 0 <= k < prevv.len() && prevv[k]@ == x;
                        assert(v@[k]@ == x);
                    } else {
                        assert(x == self.tokens@[i as int]@);
                        assert(v@[v@.len() - 1]@ == x);
                    }
                }
                assert(toks_set(v@) =~= toks_set(tnext).difference(other@));
            }
            i = i + 1;
        }
        let r = Perm { tokens: v };
        proof {
            assert(self.tokens@.take(n as int) =~= self.tokens@);
            assert(r@ =~= self@.difference(other@));
        }
        r
    }

    /// The intersection: everything held by both (common-permission query).
    pub fn intersect(&self, other: &Perm) -> (r: Perm)
        requires
            self.wf(),
        ensures
            r.wf(),
            r@ == self@.intersect(other@),
    {
        let n = self.tokens.len();
        let mut v: Vec<String> = Vec::new();
        let mut i: usize = 0;
        while i < n
            invariant
                n == self.tokens@.len(),
                i <= n,
                self.wf(),
                forall|k: int| 0 <= k < v@.len() ==> valid_token(#[trigger] v@[k]@),
                forall|k: int, l: int| 0 <= k < l < v@.len() ==> v@[k]@ != v@[l]@,
                toks_set(v@) =~= toks_set(self.tokens@.take(i as int)).intersect(other@),
            decreases n - i,
        {
            let ghost prevv = v@;
            let keep = other.contains(self.tokens[i].as_str());
            if keep {
                v.push(self.tokens[i].clone());
                proof {
                    assert forall|k: int, l: int|
                        0 <= k < l < v@.len() implies v@[k]@ != v@[l]@ by {
                        if l == v@.len() - 1 {
                            assert(toks_set(prevv).contains(prevv[k]@));
                        }
                    }
                }
            }
            proof {
                let tcur = self.tokens@.take(i as int);
                let tnext = self.tokens@.take(i + 1);
                assert forall|x: Seq<char>| toks_set(v@).contains(x) implies toks_set(
                    tnext,
                ).intersect(other@).contains(x) by {
                    let k = choose|k: int| 0 <= k < v@.len() && v@[k]@ == x;
                    if k < prevv.len() {
                        assert(toks_set(prevv).contains(x));
                        let m = choose|m: int| 0 <= m < tcur.len() && tcur[m]@ == x;
                        assert(tnext[m]@ == x);
                    } else {
                        assert(x == self.tokens@[i as int]@);
                        assert(tnext[i as int]@ == x);
                    }
                }
                assert forall|x: Seq<char>|
                    toks_set(tnext).intersect(other@).contains(x) implies toks_set(v@).contains(
                    x,
                ) by {
                    let m = choose|m: int| 0 <= m < tnext.len() && tnext[m]@ == x;
                    if m < i {
                        assert(tcur[m]@ == x);
                        assert(toks_set(tcur).intersect(other@).contains(x));
                        let k = choose|k: int| 0 <= k < prevv.len() && prevv[k]@ == x;
                        assert(v@[k]@ == x);
                    } else {
                        assert(x == self.tokens@[i as int]@);
                        assert(v@[v@.len() - 1]@ == x);
                    }
                }
                assert(toks_set(v@) =~= toks_set(tnext).intersect(other@));
            }
            i = i + 1;
        }
        let r = Perm { tokens: v };
        proof {
            assert(self.tokens@.take(n as int) =~= self.tokens@);
            assert(r@ =~= self@.intersect(other@));
        }
        r
    }

    /// Whether every token of `self` is also held by `other`.
    pub fn subset_of(&self, other: &Perm) -> (r: bool)
        ensures
            r == self@.subset_of(other@),
    {
        let n = self.tokens.len();
        let mut i: usize = 0;
        while i < n
            invariant
                n == self.tokens@.len(),
                i <= n,
                forall|k: int| 0 <= k < i ==> other@.contains(#[trigger] self.tokens@[k]@),
            decreases n - i,
        {
            if !other.contains(self.tokens[i].as_str()) {
                proof {
                    assert(self@.contains(self.tokens@[i as int]@));
                }
                return false;
            }
            i = i + 1;
        }
        proof {
            assert forall|x: Seq<char>| self@.contains(x) implies other@.contains(x) by {
                let k = choose|k: int| 0 <= k < self.tokens@.len() && self.tokens@[k]@ == x;
            }
        }
        true
    }

    /// Whether `self` includes every token of `required`: the sole
    /// access-decision primitive (`held ⊇ required`).
    pub fn superset_of(&self, required: &Perm) -> (r: bool)
        ensures
            r == required@.subset_of(self@),
    {
        required.subset_of(self)
    }

    /// Whether the two permission sets hold exactly the same tokens.
    pub fn set_eq(&self, other: &Perm) -> (r: bool)
        ensures
            r == (self@ == other@),
    {
        let sub = self.subset_of(other);
        let sup = other.subset_of(self);
        if sub && sup {
            proof {
                assert(self@ =~= other@);
            }
            true
        } else {
            false
        }
    }

    /// Compares two permission sets under subset inclusion. Incomparable
    /// sets (neither includes the other) yield no order at all.
    pub fn partial_cmp(&self, other: &Perm) -> (r: Option<core::cmp::Ordering>)
        ensures
            r == (if self@ == other@ {
                Some(core::cmp::Ordering::Equal)
            } else if self@.subset_of(other@) {
                Some(core::cmp::Ordering::Less)
            } else if other@.subset_of(self@) {
                Some(core::cmp::Ordering::Greater)
            } else {
                None::<core::cmp::Ordering>
            }),
    {
        let sub = self.subset_of(other);
        let sup = other.subset_of(self);
        if sub && sup {
            proof {
                assert(self@ =~= other@);
            }
            Some(core::cmp::Ordering::Equal)
        } else if sub {
            Some(core::cmp::Ordering::Less)
        } else if sup {
            Some(core::cmp::Ordering::Greater)
        } else {
            None
        }
    }
}

impl Perm {
    /// Serializes to a whitespace-separated token string: each held token
    /// exactly once, followed by a single space. Parsing the result yields
    /// this set back.
    pub fn to_string(&self) -> (r: String)
        requires
            self.wf(),
        ensures
            parse_perm(r@) == self@,
            exists|ts: Seq<Seq<char>>|
                {
                    &&& (forall|i: int| 0 <= i < ts.len() ==> valid_token(#[trigger] ts[i]))
                    &&& ts.no_duplicates()
                    &&& ts.to_set() == self@
                    &&& r@ == #[trigger] join_tokens(ts)
                },
    {
        let ghost vs = self.tokens@.map_values(|t: String| t@);
        let n = self.tokens.len();
        let mut buf = String::new();
        let mut i: usize = 0;
        while i < n
            invariant
                n == self.tokens@.len(),
                i <= n,
                self.wf(),
                vs == self.tokens@.map_values(|t: String| t@),
                buf@ == join_tokens(vs.take(i as int)),
            decreases n - i,
        {
            buf.append(self.tokens[i].as_str());
            buf.append(" ");
            proof {
                reveal_strlit(" ");
                assert(" "@ =~= seq![' ']);
                lemma_join_push(vs.take(i as int), vs[i as int]);
                assert(vs.take(i + 1) =~= vs.take(i as int).push(vs[i as int]));
                assert(buf@ =~= join_tokens(vs.take(i + 1)));
            }
            i = i + 1;
        }
        proof {
            assert(vs.take(n as int) =~= vs);
            assert forall|k: int| 0 <= k < vs.len() implies valid_token(#[trigger] vs[k]) by {
                assert(vs[k] == self.tokens@[k]@);
            }
            assert forall|x: Seq<char>| vs.to_set().contains(x) implies self@.contains(x) by {
                let k = choose|k: int| 0 <= k < vs.len() && vs[k] == x;
                assert(self.tokens@[k]@ == x);
            }
            assert forall|x: Seq<char>| self@.contains(x) implies vs.to_set().contains(x) by {
                let k = choose|k: int| 0 <= k < self.tokens@.len() && self.tokens@[k]@ == x;
                assert(vs[k] == x);
            }
            assert forall|k: int, l: int|
                0 <= k < vs.len() && 0 <= l < vs.len() && k != l implies vs[k] != vs[l] by {
                assert(vs[k] == self.tokens@[k]@);
                assert(vs[l] == self.tokens@[l]@);
            }
            assert(vs.no_duplicates());
            assert(vs.to_set() =~= self@);
            lemma_tokens_of_join(vs);
            assert(parse_perm(buf@) =~= self@);
        }
        buf
    }

    /// Parses a whitespace-separated token string into a permission set.
    /// Total: any input at all denotes a set, the empty string the empty
    /// set; duplicate tokens collapse.
    pub fn from_str(s: &str) -> (p: Perm)
        ensures
            p.wf(),
            p@ == parse_perm(s@),
    {
        let n = s.unicode_len();
        let mut p = Perm::new();
        proof {
            assert(s@.skip(0) =~= s@);
            assert(parse_perm(s@) =~= p@.union(tokens_of(s@.skip(0)).to_set()));
        }
        let mut i: usize = 0;
        while i < n
            invariant
                n == s@.len(),
                i <= n,
                p.wf(),
                parse_perm(s@) =~= p@.union(tokens_of(s@.skip(i as int)).to_set()),
            decreases n - i,
        {
            let c = s.get_char(i);
            if is_space(c) {
                proof {
                    let u = s@.skip(i as int);
                    assert(u[0] == s@[i as int]);
                    assert(u.drop_first() =~= s@.skip(i + 1));
                    assert(tokens_of(u) == tokens_of(u.drop_first()));
                }
                i = i + 1;
            } else {
                let mut j = i + 1;
                loop
                    invariant
                        i < j <= n,
                        n == s@.len(),
                        forall|m: int| i <= m < j ==> !is_space_char(#[trigger] s@[m]),
                    ensures
                        i < j <= n,
                        forall|m: int| i <= m < j ==> !is_space_char(#[trigger] s@[m]),
                        j == n || is_space_char(s@[j as int]),
                    decreases n - j,
                {
                    if j == n {
                        break ;
                    }
                    if is_space(s.get_char(j)) {
                        break ;
                    }
                    j = j + 1;
                }
                let tok = s.substring_char(i, j);
                let ghost u = s@.skip(i as int);
                let ghost tl = (j - i) as int;
                proof {
                    assert(!is_space_char(u[0]));
                    assert forall|m: int| 0 <= m < tl implies !is_space_char(#[trigger] u[m]) by {
                        assert(u[m] == s@[i + m]);
                    }
                    if tl < u.len() {
                        assert(u[tl] == s@[j as int]);
                    }
                    lemma_token_len_exact(u, tl);
                    assert(tokens_of(u) == seq![u.take(tl)] + tokens_of(u.skip(tl)));
                    assert(u.take(tl) =~= tok@);
                    assert(u.skip(tl) =~= s@.skip(j as int));
                    lemma_to_set_cons(u.take(tl), tokens_of(u.skip(tl)));
                }
                let t = String::from_str(tok);
                let ghost prevp = p@;
                p.insert_token(t);
                proof {
                    let rest = tokens_of(s@.skip(j as int)).to_set();
                    assert(prevp.union(rest.insert(tok@)) =~= prevp.insert(tok@).union(rest));
                    assert(parse_perm(s@) =~= p@.union(rest));
                }
                i = j;
            }
        }
        proof {
            assert(s@.skip(n as int) =~= Seq::<char>::empty());
            assert(tokens_of(s@.skip(n as int)).to_set() =~= Set::<Seq<char>>::empty());
            assert(p@ =~= parse_perm(s@));
        }
        p
    }
}

/// Round trip at the specification level: serializing any sequence of
/// well-formed tokens and parsing the result yields exactly the original
/// set of tokens.
pub proof fn lemma_parse_join_roundtrip(ts: Seq<Seq<char>>)
    requires
        forall|i: int| 0 <= i < ts.len() ==> valid_token(#[trigger] ts[i]),
    ensures
        parse_perm(join_tokens(ts)) == ts.to_set(),
{
    lemma_tokens_of_join(ts);
}

/// The access decision is monotone in the held set: whenever the required
/// permissions are included in the held ones, a check of that requirement
/// against that holder succeeds — inclusion is exactly what
/// [`Perm::superset_of`] decides, with no default ordering of incomparable
/// sets.
pub proof fn lemma_check_monotone(required: Set<Seq<char>>, held: Set<Seq<char>>)
    requires
        required.subset_of(held),
    ensures
        held.union(required) == held,
        required.subset_of(held),
{
    assert(held.union(required) =~= held);
}

/// Granting permissions `p` over a pre-state yields the union of the two,
/// every granted and every previously held token is then held, and granting
/// the same permissions twice is the same as granting them once.
pub proof fn lemma_grant_union(pre: Set<Seq<char>>, p: Set<Seq<char>>)
    ensures
        pre.union(p).union(p) == pre.union(p),
        p.subset_of(pre.union(p)),
        pre.subset_of(pre.union(p)),
{
    assert(pre.union(p).union(p) =~= pre.union(p));
}

/// Revoking permissions `p` removes every element of `p` — whether or not
/// it was held, and without error — keeps everything else, and revoking
/// twice is the same as revoking once.
pub proof fn lemma_revoke_difference(pre: Set<Seq<char>>, p: Set<Seq<char>>)
    ensures
        pre.difference(p).difference(p) == pre.difference(p),
        forall|x: Seq<char>| p.contains(x) ==> !pre.difference(p).contains(x),
        forall|x: Seq<char>| pre.contains(x) && !p.contains(x) ==> pre.difference(p).contains(x),
{
    assert(pre.difference(p).difference(p) =~= pre.difference(p));
}

} // verus!
