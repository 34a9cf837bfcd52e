//! In-memory session store: opaque 64-bit identifiers mapped to usernames.
//!
//! Sessions live only as long as the process; the store is guarded by one
//! lock in the surrounding application, so the operations here are plain
//! sequential map updates.

use vstd::prelude::*;

use std::collections::HashMap;

use crate::paths::bytes_to_vec;

verus! {

broadcast use vstd::std_specs::hash::group_hash_axioms;

/// Maps live session identifiers to the owning username.
pub struct SessionStore {
    sessions: HashMap<u64, Vec<u8>>,
}

impl SessionStore {
    /// The abstract state: which identifier names which user.
    pub closed spec fn view(self) -> Map<u64, Seq<u8>> {
        Map::new(
            |k: u64| self.sessions@.dom().contains(k),
            |k: u64| self.sessions@[k]@,
        )
    }

    /// An empty store.
    pub fn new() -> (r: SessionStore)
        ensures
            r@ == Map::<u64, Seq<u8>>::empty(),
    {
        let r = SessionStore { sessions: HashMap::new() };
        proof {
            assert(r@ =~= Map::<u64, Seq<u8>>::empty());
        }
        r
    }

    /// Associates `session_id` with `username`, silently overwriting any
    /// mapping the identifier had.
    pub fn insert(&mut self, session_id: u64, username: Vec<u8>)
        ensures
            final(self)@ == old(self)@.insert(session_id, username@),
    {
        self.sessions.insert(session_id, username);
        proof {
            assert(self@ =~= old(self)@.insert(session_id, username@));
        }
    }

    /// Drops the mapping for `session_id`; a no-op when it is absent.
    pub fn remove(&mut self, session_id: u64)
        ensures
            final(self)@ == old(self)@.remove(session_id),
    {
        self.sessions.remove(&session_id);
        proof {
            assert(self@ =~= old(self)@.remove(session_id));
        }
    }

    /// Looks the identifier up and returns a copy of the username.
    pub fn get(&self, session_id: u64) -> (r: Option<Vec<u8>>)
        ensures
            match r {
                Some(u) => self@.contains_key(session_id) && u@ == self@[session_id],
                None => !self@.contains_key(session_id),
            },
    {
        match self.sessions.get(&session_id) {
            Some(u) => Some(bytes_to_vec(u.as_slice())),
            None => None,
        }
    }

    /// Whether the identifier currently names a session.
    pub fn contains(&self, session_id: u64) -> (r: bool)
        ensures
            r == self@.contains_key(session_id),
    {
        self.sessions.contains_key(&session_id)
    }
}

/// Relies on rand::random: draws a 64-bit value from the thread-local
/// generator. Nothing is promised of the value; every caller must cope with
/// any result.
#[verifier::external_body]
fn random_u64() -> u64 {
    rand::random::<u64>()
}

/// Draws random identifiers until one misses every live session; after a
/// bounded number of colliding draws it sweeps the identifier space instead,
/// where fewer live sessions than identifiers guarantee a free one. The
/// identifier returned is never equal to a currently-live session id.
pub fn generate_session_id(session_store: &SessionStore) -> (id: u64)
    ensures
        !session_store@.contains_key(id),
{
    let mut tries: u64 = 0;
    while tries < 64
        invariant
            tries <= 64,
        decreases 64u64 - tries,
    {
        let id = random_u64();
        if !session_store.contains(id) {
            return id;
        }
        tries = tries + 1;
    }
    let mut c: u64 = 0;
    while c < u64::MAX
        invariant
            forall|x: u64| x < c ==> session_store@.contains_key(x),
        decreases u64::MAX - c,
    {
        if !session_store.contains(c) {
            return c;
        }
        c = c + 1;
    }
    if !session_store.contains(c) {
        return c;
    }
    proof {
        lemma_some_id_free(session_store);
        let w = choose|x: u64| !session_store@.contains_key(x);
        assert(w < u64::MAX || w == u64::MAX);
        assert(false);
    }
    c
}

/// A session store can never hold every 64-bit identifier at once: its
/// table is sized by a machine word, so some identifier is always free.
proof fn lemma_some_id_free(session_store: &SessionStore)
    ensures
        exists|x: u64| !session_store@.contains_key(x),
{
    broadcast use vstd::std_specs::hash::group_hash_axioms;

    if exists|x: u64| !session_store@.contains_key(x) {
        return;
    }
    assert(forall|x: u64| session_store@.contains_key(x));
    let m = session_store@;
    let dom = m.dom();
    assert(dom =~= session_store.sessions@.dom());
    assert(session_store.sessions@.dom().finite());
    assert(dom.finite());

    let f = |k: u64| k as int;
    let dom_int = dom.map(f);
    assert(vstd::relations::injective_on(f, dom)) by {
        assert(forall|a: u64, b: u64| #[trigger] f(a) == #[trigger] f(b) ==> a == b);
    }
    vstd::set_lib::lemma_map_size(dom, dom_int, f);

    let full = vstd::set_lib::set_int_range(0, 0x1_0000_0000_0000_0000);
    vstd::set_lib::lemma_int_range(0, 0x1_0000_0000_0000_0000);
    assert forall|x: int| full.contains(x) implies dom_int.contains(x) by {
        let k = x as u64;
        assert(dom.contains(k) && f(k) == x);
        assert(dom_int.contains(f(k)));
    }
    assert(full.subset_of(dom_int));
    vstd::set_lib::lemma_len_subset(full, dom_int);
    assert(dom_int.len() >= 0x1_0000_0000_0000_0000);

    let n = vstd::std_specs::hash::spec_hash_map_len(&session_store.sessions);
    assert(n == session_store.sessions@.len());
    assert(session_store.sessions@.len() <= usize::MAX);
    assert(dom.len() < 0x1_0000_0000_0000_0000);
    assert(false);
}

/// A decimal digit byte.
pub open spec fn is_digit(b: u8) -> bool {
    48 <= b && b <= 57
}

/// Every byte of `s` is a decimal digit.
pub open spec fn all_digits(s: Seq<u8>) -> bool {
    forall|i: int| 0 <= i < s.len() ==> is_digit(s[i])
}

/// The integer a decimal digit string denotes.
pub open spec fn dec_value(s: Seq<u8>) -> int
    decreases s.len(),
{
    if s.len() == 0 {
        0
    } else {
        dec_value(s.drop_last()) * 10 + (s.last() - 48)
    }
}

/// The session identifier a cookie value denotes: the number written in
/// decimal, when the value is a non-empty digit string that fits in 64 bits.
pub open spec fn cookie_session(s: Seq<u8>) -> Option<u64> {
    if s.len() > 0 && all_digits(s) && dec_value(s) <= u64::MAX {
        Some(dec_value(s) as u64)
    } else {
        None
    }
}

proof fn lemma_dec_prefix_step(s: Seq<u8>, i: int)
    requires
        0 <= i < s.len(),
    ensures
        dec_value(s.subrange(0, i + 1)) == dec_value(s.subrange(0, i)) * 10 + (s[i] - 48),
{
    assert(s.subrange(0, i + 1).drop_last() =~= s.subrange(0, i));
    assert(s.subrange(0, i + 1).last() == s[i]);
}

proof fn lemma_dec_nonneg(s: Seq<u8>)
    requires
        all_digits(s),
    ensures
        dec_value(s) >= 0,
    decreases s.len(),
{
    if s.len() > 0 {
        assert(all_digits(s.drop_last()));
        lemma_dec_nonneg(s.drop_last());
        assert(is_digit(s.last()));
    }
}

/// Along a digit string, each prefix denotes no more than the whole.
proof fn lemma_dec_mono(s: Seq<u8>, i: int)
    requires
        all_digits(s),
        0 <= i <= s.len(),
    ensures
        dec_value(s.subrange(0, i)) <= dec_value(s),
    decreases s.len() - i,
{
    if i == s.len() {
        assert(s.subrange(0, i) =~= s);
    } else {
        lemma_dec_prefix_step(s, i);
        assert(all_digits(s.subrange(0, i)));
        lemma_dec_nonneg(s.subrange(0, i));
        assert(is_digit(s[i]));
        assert(dec_value(s.subrange(0, i)) <= dec_value(s.subrange(0, i + 1)));
        lemma_dec_mono(s, i + 1);
    }
}

/// Parses a session cookie value as a decimal 64-bit identifier.
pub fn get_session_id_from_cookie_value(cookie_value: &[u8]) -> (r: Option<u64>)
    ensures
        r == cookie_session(cookie_value@),
{
    let n = cookie_value.len();
    if n == 0 {
        return None;
    }
    let mut acc: u64 = 0;
    let mut i: usize = 0;
    while i < n
        invariant
            0 <= i <= n,
            n == cookie_value@.len(),
            n > 0,
            forall|j: int| 0 <= j < i ==> is_digit(cookie_value@[j]),
            acc == dec_value(cookie_value@.subrange(0, i as int)),
        decreases n - i,
    {
        let b = cookie_value[i];
        if b < 48 || b > 57 {
            assert(!is_digit(cookie_value@[i as int]));
            assert(!all_digits(cookie_value@));
            return None;
        }
        let d = (b - 48) as u64;
        proof {
            lemma_dec_prefix_step(cookie_value@, i as int);
        }
        let acc10 = match acc.checked_mul(10) {
            Some(v) => v,
            None => {
                proof {
                    if all_digits(cookie_value@) {
                        lemma_dec_mono(cookie_value@, i + 1);
                    }
                }
                return None;
            },
        };
        let acc2 = match acc10.checked_add(d) {
            Some(v) => v,
            None => {
                proof {
                    if all_digits(cookie_value@) {
                        lemma_dec_mono(cookie_value@, i + 1);
                    }
                }
                return None;
            },
        };
        acc = acc2;
        i = i + 1;
    }
    proof {
        assert(cookie_value@.subrange(0, n as int) =~= cookie_value@);
    }
    Some(acc)
}

/// A session resolved from a request: the identifier the client presented
/// and the username it names.
pub struct AuthenticatedSession {
    pub session_id: u64,
    pub username: Vec<u8>,
}

/// Resolves a raw cookie value against the session store: the request is
/// authenticated exactly when the cookie is a well-formed identifier that
/// names a live session.
pub fn authenticate(session_store: &SessionStore, cookie_value: &[u8]) -> (r: Option<
    AuthenticatedSession,
>)
    ensures
        match r {
            Some(a) => {
                &&& cookie_session(cookie_value@) == Some(a.session_id)
                &&& session_store@.contains_key(a.session_id)
                &&& a.username@ == session_store@[a.session_id]
            },
            None => match cookie_session(cookie_value@) {
                Some(id) => !session_store@.contains_key(id),
                None => true,
            },
        },
{
    match get_session_id_from_cookie_value(cookie_value) {
        Some(session_id) => match session_store.get(session_id) {
            Some(username) => Some(AuthenticatedSession { session_id, username }),
            None => None,
        },
        None => None,
    }
}

} // verus!
