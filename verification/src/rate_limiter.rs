//! Fixed-window request limiter, one counter per client key.
//!
//! The caller supplies the current time as a monotonic tick count; the
//! decision itself is pure. A window that has run out resets the counter to
//! one; inside the window the counter grows until it reaches the limit and
//! further calls are denied. The window is fixed, not sliding, so a client
//! can burst up to twice the limit across one window boundary.

use vstd::prelude::*;

use crate::paths::{bytes_eq, bytes_to_vec};

verus! {

/// One client's counter and the start tick of its current window.
pub struct RateEntry {
    pub key: Vec<u8>,
    pub count: u32,
    pub window_start: u64,
}

/// Per-client fixed-window request counter.
pub struct RateLimiter {
    pub limit: u32,
    pub interval: u64,
    pub request_count: Vec<RateEntry>,
}

/// No two entries share a client key.
pub open spec fn keys_distinct(s: Seq<RateEntry>) -> bool {
    forall|i: int, j: int| 0 <= i < j < s.len() ==> s[i].key@ != s[j].key@
}

/// Some entry carries key `k`.
pub open spec fn has_key(s: Seq<RateEntry>, k: Seq<u8>) -> bool {
    exists|i: int| 0 <= i < s.len() && s[i].key@ == k
}

/// Index of the entry carrying `k`; meaningful only when `has_key`.
pub open spec fn key_index(s: Seq<RateEntry>, k: Seq<u8>) -> int {
    choose|i: int| 0 <= i < s.len() && s[i].key@ == k
}

/// The counter state recorded for key `k`, if any.
pub open spec fn spec_lookup(s: Seq<RateEntry>, k: Seq<u8>) -> Option<(u32, u64)> {
    if has_key(s, k) {
        Some((s[key_index(s, k)].count, s[key_index(s, k)].window_start))
    } else {
        None
    }
}

/// The fixed-window policy on one counter: elapsed time beyond the interval
/// resets the window to a count of one and allows; otherwise a count below
/// the limit grows by one and allows; otherwise the call is denied. Returns
/// (allowed, new count, new window start).
pub open spec fn window_decision(limit: u32, interval: u64, count: u32, start: u64, now: u64) -> (
    bool,
    u32,
    u64,
) {
    if now >= start && now - start > interval {
        (true, 1u32, now)
    } else if count < limit {
        (true, (count + 1) as u32, start)
    } else {
        (false, count, start)
    }
}

/// When an entry with key `k` sits at index `i` of a distinct-keyed table,
/// the lookup finds exactly that entry.
proof fn lemma_lookup_at(s: Seq<RateEntry>, k: Seq<u8>, i: int)
    requires
        keys_distinct(s),
        0 <= i < s.len(),
        s[i].key@ == k,
    ensures
        has_key(s, k),
        key_index(s, k) == i,
        spec_lookup(s, k) == Some((s[i].count, s[i].window_start)),
{
    assert(has_key(s, k));
    let j = key_index(s, k);
    assert(0 <= j < s.len() && s[j].key@ == k);
    if i < j {
        assert(s[i].key@ != s[j].key@);
    } else if j < i {
        assert(s[j].key@ != s[i].key@);
    }
}

impl RateLimiter {
    /// All entries carry pairwise-distinct keys.
    pub open spec fn wf(self) -> bool {
        keys_distinct(self.request_count@)
    }

    /// A fresh limiter with no recorded clients.
    pub fn new(limit: u32, interval: u64) -> (r: RateLimiter)
        ensures
            r.wf(),
            r.limit == limit,
            r.interval == interval,
            r.request_count@.len() == 0,
    {
        RateLimiter { limit, interval, request_count: Vec::new() }
    }

    /// Decides one request from client `ip` at tick `now` and records it.
    /// A client never seen before starts a window at `now` with a count of
    /// zero, which the decision then advances.
    pub fn should_allow(&mut self, ip: &[u8], now: u64) -> (allowed: bool)
        requires
            old(self).wf(),
        ensures
            final(self).wf(),
            final(self).limit == old(self).limit,
            final(self).interval == old(self).interval,
            ({
                let prior = match spec_lookup(old(self).request_count@, ip@) {
                    Some(e) => e,
                    None => (0u32, now),
                };
                let d = window_decision(old(self).limit, old(self).interval, prior.0, prior.1, now);
                allowed == d.0 && spec_lookup(final(self).request_count@, ip@) == Some((d.1, d.2))
            }),
            forall|k: Seq<u8>|
                k != ip@ ==> spec_lookup(final(self).request_count@, k) == spec_lookup(
                    old(self).request_count@,
                    k,
                ),
    {
        let n = self.request_count.len();
        let mut idx: usize = 0;
        let mut found: bool = false;
        while idx < n && !found
            invariant
                0 <= idx <= n,
                n == self.request_count@.len(),
                found ==> idx < n && self.request_count@[idx as int].key@ == ip@,
                !found ==> forall|j: int| 0 <= j < idx ==> self.request_count@[j].key@ != ip@,
            decreases n - idx + (if found { 0int } else { 1int }),
        {
            if bytes_eq(self.request_count[idx].key.as_slice(), ip) {
                found = true;
            } else {
                idx = idx + 1;
            }
        }
        let ghost s0 = self.request_count@;
        if found {
            let count = self.request_count[idx].count;
            let start = self.request_count[idx].window_start;
            proof {
                lemma_lookup_at(s0, ip@, idx as int);
            }
            let allowed: bool;
            let nc: u32;
            let ns: u64;
            if now >= start && now - start > self.interval {
                allowed = true;
                nc = 1;
                ns = now;
            } else if count < self.limit {
                allowed = true;
                nc = count + 1;
                ns = start;
            } else {
                allowed = false;
                nc = count;
                ns = start;
            }
            let key = bytes_to_vec(ip);
            self.request_count[idx] = RateEntry { key, count: nc, window_start: ns };
            proof {
                let s1 = self.request_count@;
                assert(s1 == s0.update(idx as int, s1[idx as int]));
                assert(s1[idx as int].key@ == ip@);
                assert(keys_distinct(s1)) by {
                    assert(forall|j: int|
                        0 <= j < s1.len() && j != idx ==> s1[j] == s0[j]);
                }
                lemma_lookup_at(s1, ip@, idx as int);
                assert forall|k: Seq<u8>| k != ip@ implies spec_lookup(s1, k) == spec_lookup(
                    s0,
                    k,
                ) by {
                    if has_key(s0, k) {
                        let j = key_index(s0, k);
                        assert(0 <= j < s0.len() && s0[j].key@ == k);
                        assert(j != idx);
                        lemma_lookup_at(s0, k, j);
                        lemma_lookup_at(s1, k, j);
                    } else {
                        if has_key(s1, k) {
                            let j = key_index(s1, k);
                            assert(0 <= j < s1.len() && s1[j].key@ == k);
                            assert(j != idx);
                            assert(s0[j].key@ == k);
                            assert(has_key(s0, k));
                        }
                    }
                }
            }
            allowed
        } else {
            let allowed: bool;
            let nc: u32;
            let ns: u64;
            // a fresh window starting now: zero elapsed time, counter at zero
            if 0 < self.limit {
                allowed = true;
                nc = 1;
                ns = now;
            } else {
                allowed = false;
                nc = 0;
                ns = now;
            }
            let key = bytes_to_vec(ip);
            self.request_count.push(RateEntry { key, count: nc, window_start: ns });
            proof {
                let s1 = self.request_count@;
                assert(s1 == s0.push(s1[s0.len() as int]));
                assert(s1[s0.len() as int].key@ == ip@);
                assert(!has_key(s0, ip@));
                assert(keys_distinct(s1)) by {
                    assert(forall|j: int| 0 <= j < s0.len() ==> s1[j] == s0[j]);
                    assert(forall|j: int|
                        0 <= j < s0.len() ==> s1[j].key@ != ip@);
                }
                lemma_lookup_at(s1, ip@, s0.len() as int);
                assert forall|k: Seq<u8>| k != ip@ implies spec_lookup(s1, k) == spec_lookup(
                    s0,
                    k,
                ) by {
                    if has_key(s0, k) {
                        let j = key_index(s0, k);
                        assert(0 <= j < s0.len() && s0[j].key@ == k);
                        lemma_lookup_at(s0, k, j);
                        lemma_lookup_at(s1, k, j);
                    } else {
                        if has_key(s1, k) {
                            let j = key_index(s1, k);
                            assert(0 <= j < s1.len() && s1[j].key@ == k);
                            assert(j != s0.len());
                            assert(s0[j].key@ == k);
                            assert(has_key(s0, k));
                        }
                    }
                }
            }
            allowed
        }
    }
}

} // verus!
