//! Byte-level model of the relative paths that clients hand to the vault.
//!
//! A path is a sequence of bytes; segments are separated by `/`. A path is
//! accepted only when it is non-empty, has no empty segment (so no leading,
//! trailing or doubled separator) and no `.` or `..` segment, so an accepted
//! path can never escape the directory it is resolved against.

use vstd::prelude::*;

verus! {

/// The path separator byte, `/`.
pub const SEP: u8 = 47;

/// The dot byte, `.`.
pub const DOT: u8 = 46;

/// Two separators in a row start at index `i`.
pub open spec fn double_sep_at(p: Seq<u8>, i: int) -> bool {
    &&& 0 <= i
    &&& i + 1 < p.len()
    &&& p[i] == SEP
    &&& p[i + 1] == SEP
}

/// A `.` segment starts at index `i`: a lone dot bounded by separators or the
/// ends of the path.
pub open spec fn dot_seg_at(p: Seq<u8>, i: int) -> bool {
    &&& 0 <= i
    &&& i < p.len()
    &&& p[i] == DOT
    &&& (i == 0 || p[i - 1] == SEP)
    &&& (i + 1 == p.len() || p[i + 1] == SEP)
}

/// A `..` segment starts at index `i`.
pub open spec fn dotdot_seg_at(p: Seq<u8>, i: int) -> bool {
    &&& 0 <= i
    &&& i + 2 <= p.len()
    &&& p[i] == DOT
    &&& p[i + 1] == DOT
    &&& (i == 0 || p[i - 1] == SEP)
    &&& (i + 2 == p.len() || p[i + 2] == SEP)
}

/// Some rejected pattern starts at index `i`.
pub open spec fn bad_at(p: Seq<u8>, i: int) -> bool {
    double_sep_at(p, i) || dot_seg_at(p, i) || dotdot_seg_at(p, i)
}

/// The sandboxing predicate: a non-empty relative path with no empty, `.`
/// or `..` segment. Every vault operation checks it before acting.
pub open spec fn valid_rel_path(p: Seq<u8>) -> bool {
    &&& 0 < p.len()
    &&& p[0] != SEP
    &&& p[p.len() - 1] != SEP
    &&& forall|i: int| !bad_at(p, i)
}

/// A single well-formed path segment: non-empty, separator-free, and
/// neither `.` nor `..`.
pub open spec fn seg_ok(s: Seq<u8>) -> bool {
    &&& 0 < s.len()
    &&& forall|i: int| 0 <= i < s.len() ==> s[i] != SEP
    &&& s != seq![DOT]
    &&& s != seq![DOT, DOT]
}

/// `p` contains a separator.
pub open spec fn has_sep(p: Seq<u8>) -> bool {
    exists|i: int| 0 <= i < p.len() && p[i] == SEP
}

/// The separator at index `i` is the last one in `p`.
pub open spec fn last_sep_at(p: Seq<u8>, i: int) -> bool {
    &&& 0 <= i < p.len()
    &&& p[i] == SEP
    &&& forall|j: int| i < j < p.len() ==> p[j] != SEP
}

/// Index of the last separator; meaningful only when `has_sep(p)`.
pub open spec fn last_sep_index(p: Seq<u8>) -> int {
    choose|i: int| last_sep_at(p, i)
}

/// Everything before the last separator; empty when there is none.
pub open spec fn parent_of(p: Seq<u8>) -> Seq<u8> {
    if has_sep(p) {
        p.subrange(0, last_sep_index(p))
    } else {
        Seq::empty()
    }
}

/// Everything after the last separator; the whole path when there is none.
pub open spec fn base_of(p: Seq<u8>) -> Seq<u8> {
    if has_sep(p) {
        p.subrange(last_sep_index(p) + 1, p.len() as int)
    } else {
        p
    }
}

/// `d` names a directory strictly above `p`: `d` is a proper prefix of `p`
/// that is cut exactly at a separator.
pub open spec fn dir_prefix(d: Seq<u8>, p: Seq<u8>) -> bool {
    &&& d.len() < p.len()
    &&& p.subrange(0, d.len() as int) == d
    &&& p[d.len() as int] == SEP
}

/// Joining a directory path and a segment with a separator.
pub open spec fn join(d: Seq<u8>, s: Seq<u8>) -> Seq<u8> {
    d + seq![SEP] + s
}

/// A path holding a `..` segment is never accepted. This is the shape of
/// input that must not reach the filesystem.
pub proof fn lemma_dotdot_never_valid(p: Seq<u8>, i: int)
    requires
        dotdot_seg_at(p, i),
    ensures
        !valid_rel_path(p),
{
    assert(bad_at(p, i));
}

/// A path that names the filesystem root, by starting with a separator, is
/// never accepted either.
pub proof fn lemma_absolute_never_valid(p: Seq<u8>)
    requires
        p.len() > 0,
        p[0] == SEP,
    ensures
        !valid_rel_path(p),
{
}

/// There is at most one last separator.
pub proof fn lemma_last_sep_unique(p: Seq<u8>, i: int, j: int)
    requires
        last_sep_at(p, i),
        last_sep_at(p, j),
    ensures
        i == j,
{
    if i < j {
        assert(p[j] != SEP);
    } else if j < i {
        assert(p[i] != SEP);
    }
}

/// A directory prefix of an accepted path is itself an accepted path.
pub proof fn lemma_prefix_valid(d: Seq<u8>, p: Seq<u8>)
    requires
        valid_rel_path(p),
        dir_prefix(d, p),
    ensures
        valid_rel_path(d),
{
    let n = d.len() as int;
    assert forall|k: int| 0 <= k < n implies d[k] == p[k] by {
        assert(p.subrange(0, n)[k] == p[k]);
    }
    if n == 0 {
        assert(p[0] == SEP);
        assert(false);
    }
    assert(d[0] == p[0]);
    if d[n - 1] == SEP {
        assert(p[n - 1] == SEP);
        assert(double_sep_at(p, n - 1));
        assert(bad_at(p, n - 1));
        assert(false);
    }
    assert forall|i: int| !bad_at(d, i) by {
        if double_sep_at(d, i) {
            assert(d[i] == SEP && d[i + 1] == SEP);
            assert(p[i] == SEP && p[i + 1] == SEP);
            assert(double_sep_at(p, i));
            assert(bad_at(p, i));
            assert(false);
        }
        if dot_seg_at(d, i) {
            assert(d[i] == DOT && p[i] == DOT);
            if i > 0 {
                assert(d[i - 1] == SEP && p[i - 1] == SEP);
            }
            if i + 1 == n {
                assert(p[i + 1] == SEP);
            } else {
                assert(d[i + 1] == SEP && p[i + 1] == SEP);
            }
            assert(dot_seg_at(p, i));
            assert(bad_at(p, i));
            assert(false);
        }
        if dotdot_seg_at(d, i) {
            assert(d[i] == DOT && p[i] == DOT);
            assert(d[i + 1] == DOT && p[i + 1] == DOT);
            if i > 0 {
                assert(d[i - 1] == SEP && p[i - 1] == SEP);
            }
            if i + 2 == n {
                assert(p[i + 2] == SEP);
            } else {
                assert(d[i + 2] == SEP && p[i + 2] == SEP);
            }
            assert(dotdot_seg_at(p, i));
            assert(bad_at(p, i));
            assert(false);
        }
    }
}

/// A lone well-formed segment is an accepted path.
pub proof fn lemma_seg_valid(s: Seq<u8>)
    requires
        seg_ok(s),
    ensures
        valid_rel_path(s),
{
    assert forall|i: int| !bad_at(s, i) by {
        if dot_seg_at(s, i) {
            assert(i == 0 && i + 1 == s.len());
            assert(s =~= seq![DOT]);
        }
        if dotdot_seg_at(s, i) {
            assert(i == 0 && i + 2 == s.len());
            assert(s =~= seq![DOT, DOT]);
        }
    }
}

/// Appending one well-formed segment below an accepted directory path gives
/// an accepted path whose parent, base and directory prefixes are exactly
/// what one expects.
pub proof fn lemma_append_seg(d: Seq<u8>, s: Seq<u8>)
    requires
        valid_rel_path(d),
        seg_ok(s),
    ensures
        valid_rel_path(join(d, s)),
        parent_of(join(d, s)) == d,
        base_of(join(d, s)) == s,
        forall|x: Seq<u8>| dir_prefix(x, join(d, s)) <==> (x == d || dir_prefix(x, d)),
{
    let q = join(d, s);
    let n = d.len() as int;
    assert(q.len() == n + 1 + s.len());
    assert(forall|k: int| 0 <= k < n ==> q[k] == d[k]);
    assert(q[n] == SEP);
    assert(forall|k: int| n + 1 <= k < q.len() ==> q[k] == s[k - n - 1]);

    // validity
    assert(q[0] == d[0]);
    assert(q[q.len() - 1] == s[s.len() - 1]);
    assert forall|i: int| !bad_at(q, i) by {
        if double_sep_at(q, i) {
            if i + 1 < n {
                assert(d[i] == SEP && d[i + 1] == SEP);
                assert(bad_at(d, i));
            } else if i == n - 1 {
                assert(q[i] == d[n - 1]);
                assert(d[n - 1] == SEP);
            } else if i == n {
                assert(q[i + 1] == s[0]);
                assert(s[0] == SEP);
            } else {
                assert(q[i] == s[i - n - 1]);
                assert(s[i - n - 1] == SEP);
            }
            assert(false);
        }
        if dot_seg_at(q, i) {
            if i < n {
                assert(q[i] == d[i]);
                assert(d[i] == DOT);
                if i > 0 {
                    assert(q[i - 1] == d[i - 1]);
                    assert(d[i - 1] == SEP);
                }
                if i + 1 == n {
                    assert(q[i + 1] == SEP);
                } else {
                    assert(q[i + 1] == d[i + 1]);
                    assert(d[i + 1] == SEP);
                }
                assert(dot_seg_at(d, i));
                assert(bad_at(d, i));
            } else if i == n {
                assert(q[i] == SEP);
            } else {
                // inside s: the boundaries would force s == "."
                if i > n + 1 {
                    assert(q[i - 1] == s[i - n - 2]);
                    assert(q[i - 1] != SEP);
                }
                assert(i == n + 1);
                if i + 1 < q.len() {
                    assert(q[i + 1] == s[1]);
                    assert(q[i + 1] != SEP);
                }
                assert(i + 1 == q.len());
                assert(q[i] == s[0]);
                assert(s.len() == 1 && s[0] == DOT);
                assert(s =~= seq![DOT]);
            }
            assert(false);
        }
        if dotdot_seg_at(q, i) {
            if i + 2 <= n {
                assert(q[i] == d[i] && q[i + 1] == d[i + 1]);
                assert(d[i] == DOT && d[i + 1] == DOT);
                if i > 0 {
                    assert(q[i - 1] == d[i - 1]);
                    assert(d[i - 1] == SEP);
                }
                if i + 2 == n {
                    assert(q[i + 2] == SEP);
                } else {
                    assert(q[i + 2] == d[i + 2]);
                    assert(d[i + 2] == SEP);
                }
                assert(dotdot_seg_at(d, i));
                assert(bad_at(d, i));
            } else if i == n - 1 {
                assert(q[i + 1] == SEP && q[i + 1] == DOT);
            } else if i == n {
                assert(q[i] == SEP && q[i] == DOT);
            } else {
                if i > n + 1 {
                    assert(q[i - 1] == s[i - n - 2]);
                    assert(q[i - 1] != SEP);
                }
                assert(i == n + 1);
                if i + 2 < q.len() {
                    assert(q[i + 2] == s[2]);
                    assert(q[i + 2] != SEP);
                }
                assert(i + 2 == q.len());
                assert(q[i] == s[0] && q[i + 1] == s[1]);
                assert(s.len() == 2 && s[0] == DOT && s[1] == DOT);
                assert(s =~= seq![DOT, DOT]);
            }
            assert(false);
        }
    }

    // parent and base
    assert(last_sep_at(q, n)) by {
        assert(forall|j: int| n < j < q.len() ==> q[j] == s[j - n - 1] && q[j] != SEP);
    }
    assert(has_sep(q));
    lemma_last_sep_unique(q, n, last_sep_index(q));
    assert(parent_of(q) =~= d);
    assert(base_of(q) =~= s);

    // directory prefixes
    assert forall|x: Seq<u8>| dir_prefix(x, q) <==> (x == d || dir_prefix(x, d)) by {
        if dir_prefix(x, q) {
            let m = x.len() as int;
            if m == n {
                assert(x =~= d);
            } else if m < n {
                assert(q[m] == d[m]);
                assert(x =~= d.subrange(0, m));
                assert(dir_prefix(x, d));
            } else {
                assert(q[m] == s[m - n - 1]);
                assert(q[m] != SEP);
                assert(false);
            }
        }
        if x == d {
            assert(q.subrange(0, n) =~= d);
            assert(dir_prefix(x, q));
        }
        if dir_prefix(x, d) {
            let m = x.len() as int;
            assert(q[m] == d[m]);
            assert(q.subrange(0, m) =~= d.subrange(0, m));
            assert(dir_prefix(x, q));
        }
    }
}

/// The base of an accepted path is a well-formed segment, and its parent
/// (when there is one) sits strictly above it.
pub proof fn lemma_split_valid(p: Seq<u8>)
    requires
        valid_rel_path(p),
        has_sep(p),
    ensures
        seg_ok(base_of(p)),
        valid_rel_path(parent_of(p)),
        dir_prefix(parent_of(p), p),
        p == join(parent_of(p), base_of(p)),
{
    let i = last_sep_index(p);
    assert(last_sep_at(p, i)) by {
        let w = choose|k: int| 0 <= k < p.len() && p[k] == SEP;
        // walk forward from any separator to the last one: the maximal
        // separator index is a last separator
        assert(exists|k: int| last_sep_at(p, k)) by {
            lemma_exists_last_sep(p, w);
        }
    }
    let b = base_of(p);
    assert(b.len() == p.len() - i - 1);
    if i + 1 == p.len() {
        assert(p[p.len() - 1] == SEP);
    }
    assert(0 < b.len());
    assert(forall|k: int| 0 <= k < b.len() ==> b[k] == p[i + 1 + k] && b[k] != SEP);
    if b == seq![DOT] {
        assert(b[0] == DOT);
        assert(p[i + 1] == b[0]);
        assert(p.len() == i + 2);
        assert(dot_seg_at(p, i + 1));
        assert(bad_at(p, i + 1));
        assert(false);
    }
    if b == seq![DOT, DOT] {
        assert(b[0] == DOT && b[1] == DOT);
        assert(p[i + 1] == b[0] && p[i + 2] == b[1]);
        assert(p.len() == i + 3);
        assert(dotdot_seg_at(p, i + 1));
        assert(bad_at(p, i + 1));
        assert(false);
    }
    assert(seg_ok(b));

    let d = parent_of(p);
    assert(p.subrange(0, d.len() as int) =~= d);
    assert(dir_prefix(d, p));
    lemma_prefix_valid(d, p);
    assert(p =~= join(d, b));
}

/// From any separator position there is a last separator at or after it.
proof fn lemma_exists_last_sep(p: Seq<u8>, w: int)
    requires
        0 <= w < p.len(),
        p[w] == SEP,
    ensures
        exists|k: int| w <= k && last_sep_at(p, k),
    decreases p.len() - w,
{
    if forall|j: int| w < j < p.len() ==> p[j] != SEP {
        assert(last_sep_at(p, w));
    } else {
        let j = choose|j: int| w < j < p.len() && p[j] == SEP;
        lemma_exists_last_sep(p, j);
        let k = choose|k: int| j <= k && last_sep_at(p, k);
        assert(w <= k && last_sep_at(p, k));
    }
}

/// Checks the sandboxing predicate on a client-supplied path.
pub fn check_rel_path(p: &[u8]) -> (r: bool)
    ensures
        r == valid_rel_path(p@),
{
    let n = p.len();
    if n == 0 {
        return false;
    }
    if p[0] == SEP || p[n - 1] == SEP {
        return false;
    }
    let mut i: usize = 0;
    while i < n
        invariant
            0 <= i <= n,
            n == p@.len(),
            forall|j: int| 0 <= j < i ==> !bad_at(p@, j),
        decreases n - i,
    {
        if i + 1 < n && p[i] == SEP && p[i + 1] == SEP {
            assert(bad_at(p@, i as int));
            return false;
        }
        if p[i] == DOT && (i == 0 || p[i - 1] == SEP) {
            if i + 1 == n || p[i + 1] == SEP {
                assert(bad_at(p@, i as int));
                return false;
            }
            if i + 2 <= n && p[i + 1] == DOT && (i + 2 == n || p[i + 2] == SEP) {
                assert(bad_at(p@, i as int));
                return false;
            }
        }
        assert(!bad_at(p@, i as int));
        i = i + 1;
    }
    assert forall|j: int| !bad_at(p@, j) by {
        if 0 <= j < n {
            assert(!bad_at(p@, j));
        }
    }
    true
}

/// Checks that a byte string is one well-formed segment.
pub fn check_seg(s: &[u8]) -> (r: bool)
    ensures
        r == seg_ok(s@),
{
    let n = s.len();
    if n == 0 {
        return false;
    }
    let mut i: usize = 0;
    while i < n
        invariant
            0 <= i <= n,
            n == s@.len(),
            forall|j: int| 0 <= j < i ==> s@[j] != SEP,
        decreases n - i,
    {
        if s[i] == SEP {
            return false;
        }
        i = i + 1;
    }
    if n == 1 && s[0] == DOT {
        assert(s@ =~= seq![DOT]);
        return false;
    }
    if n == 2 && s[0] == DOT && s[1] == DOT {
        assert(s@ =~= seq![DOT, DOT]);
        return false;
    }
    assert(s@ != seq![DOT] && s@ != seq![DOT, DOT]) by {
        if s@ =~= seq![DOT] {
            assert(n == 1 && s@[0] == DOT);
        }
        if s@ =~= seq![DOT, DOT] {
            assert(n == 2 && s@[0] == DOT && s@[1] == DOT);
        }
    }
    true
}

/// Finds the last separator in `p`, if any.
pub fn find_last_sep(p: &[u8]) -> (r: Option<usize>)
    ensures
        match r {
            Some(i) => last_sep_at(p@, i as int) && has_sep(p@) && last_sep_index(p@) == i as int,
            None => !has_sep(p@),
        },
{
    let mut i: usize = p.len();
    while i > 0
        invariant
            i <= p@.len(),
            forall|j: int| i <= j < p@.len() ==> p@[j] != SEP,
        decreases i,
    {
        i = i - 1;
        if p[i] == SEP {
            proof {
                assert(last_sep_at(p@, i as int));
                lemma_last_sep_unique(p@, i as int, last_sep_index(p@));
            }
            return Some(i);
        }
    }
    None
}

/// Byte-string equality.
pub fn bytes_eq(a: &[u8], b: &[u8]) -> (r: bool)
    ensures
        r == (a@ == b@),
{
    if a.len() != b.len() {
        return false;
    }
    let n = a.len();
    let mut i: usize = 0;
    while i < n
        invariant
            0 <= i <= n,
            a@.len() == n,
            b@.len() == n,
            forall|j: int| 0 <= j < i ==> a@[j] == b@[j],
        decreases n - i,
    {
        if a[i] != b[i] {
            return false;
        }
        i = i + 1;
    }
    assert(a@ =~= b@);
    true
}

/// Copies a byte slice into a fresh vector.
pub fn bytes_to_vec(a: &[u8]) -> (r: Vec<u8>)
    ensures
        r@ == a@,
{
    let mut r: Vec<u8> = Vec::new();
    let mut i: usize = 0;
    while i < a.len()
        invariant
            0 <= i <= a@.len(),
            r@ == a@.subrange(0, i as int),
        decreases a@.len() - i,
    {
        r.push(a[i]);
        assert(r@ =~= a@.subrange(0, i + 1 as int));
        i = i + 1;
    }
    assert(r@ =~= a@);
    r
}

/// Tests whether `d` names a directory strictly above `p`.
pub fn check_dir_prefix(d: &[u8], p: &[u8]) -> (r: bool)
    ensures
        r == dir_prefix(d@, p@),
{
    let n = d.len();
    if n >= p.len() {
        return false;
    }
    if p[n] != SEP {
        return false;
    }
    let mut i: usize = 0;
    while i < n
        invariant
            0 <= i <= n,
            n < p@.len(),
            d@.len() == n,
            forall|j: int| 0 <= j < i ==> p@[j] == d@[j],
        decreases n - i,
    {
        if p[i] != d[i] {
            assert(p@.subrange(0, n as int)[i as int] != d@[i as int]);
            return false;
        }
        i = i + 1;
    }
    assert(p@.subrange(0, n as int) =~= d@);
    true
}

/// Sitting above is transitive.
pub proof fn lemma_dir_prefix_trans(a: Seq<u8>, b: Seq<u8>, p: Seq<u8>)
    requires
        dir_prefix(a, b),
        dir_prefix(b, p),
    ensures
        dir_prefix(a, p),
{
    let la = a.len() as int;
    assert(forall|k: int| 0 <= k < b.len() ==> p[k] == b[k]) by {
        assert(forall|k: int| 0 <= k < b.len() ==> p.subrange(0, b.len() as int)[k] == p[k]);
    }
    assert(p[la] == b[la]);
    assert(p.subrange(0, la) =~= b.subrange(0, la));
}

/// Two directories above the same path are ordered: the shorter sits above
/// the longer.
pub proof fn lemma_prefix_trichotomy(a: Seq<u8>, b: Seq<u8>, p: Seq<u8>)
    requires
        dir_prefix(a, p),
        dir_prefix(b, p),
        a.len() < b.len(),
    ensures
        dir_prefix(a, b),
{
    let la = a.len() as int;
    assert(forall|k: int| 0 <= k < a.len() ==> a[k] == p[k]) by {
        assert(forall|k: int| 0 <= k < a.len() ==> p.subrange(0, a.len() as int)[k] == p[k]);
    }
    assert(forall|k: int| 0 <= k < b.len() ==> b[k] == p[k]) by {
        assert(forall|k: int| 0 <= k < b.len() ==> p.subrange(0, b.len() as int)[k] == p[k]);
    }
    assert(b[la] == p[la]);
    assert(b.subrange(0, la) =~= a);
}

/// An accepted path without separators is itself one well-formed segment.
pub proof fn lemma_no_sep_seg(p: Seq<u8>)
    requires
        valid_rel_path(p),
        !has_sep(p),
    ensures
        seg_ok(p),
{
    assert(forall|i: int| 0 <= i < p.len() ==> p[i] != SEP);
    if p == seq![DOT] {
        assert(p[0] == DOT);
        assert(dot_seg_at(p, 0));
        assert(bad_at(p, 0));
    }
    if p == seq![DOT, DOT] {
        assert(p[0] == DOT && p[1] == DOT);
        assert(dotdot_seg_at(p, 0));
        assert(bad_at(p, 0));
    }
}

} // verus!
