//! Credential records and password verification.
//!
//! The backing store is a flat text file, one `username|password-hash`
//! record per line. A line is a record exactly when it holds a single `|`;
//! every other line is ignored. Lookup scans for the first record whose
//! username matches and verifies the password against its stored hash; an
//! unknown user and a wrong password give the same uniform answer.

use vstd::prelude::*;

use argon2::PasswordVerifier;

use crate::paths::bytes_eq;

verus! {

/// The record separator byte, `|`.
pub const PIPE: u8 = 124;

/// The line separator byte.
pub const NL: u8 = 10;

/// One credential record, or one submitted credential pair: a username and,
/// in `password`, either the stored hash or the submitted password.
pub struct User {
    pub username: Vec<u8>,
    pub password: Vec<u8>,
}

/// A `|` sits at index `i` of the line.
pub open spec fn pipe_at(line: Seq<u8>, i: int) -> bool {
    0 <= i < line.len() && line[i] == PIPE
}

/// The line holds exactly one `|`, so it splits into exactly two fields.
pub open spec fn exactly_one_pipe(line: Seq<u8>) -> bool {
    &&& exists|i: int| pipe_at(line, i)
    &&& forall|i: int, j: int| pipe_at(line, i) && pipe_at(line, j) ==> i == j
}

/// The two fields of a record line, split at its single `|`.
pub open spec fn parse_line_spec(line: Seq<u8>) -> Option<(Seq<u8>, Seq<u8>)> {
    if exactly_one_pipe(line) {
        let i = choose|i: int| pipe_at(line, i);
        Some((line.subrange(0, i), line.subrange(i + 1, line.len() as int)))
    } else {
        None
    }
}

/// The newline at index `i` is the first one in `s`.
pub open spec fn first_nl_at(s: Seq<u8>, i: int) -> bool {
    &&& 0 <= i < s.len()
    &&& s[i] == NL
    &&& forall|j: int| 0 <= j < i ==> s[j] != NL
}

/// The records a credential file denotes, line by line, in file order.
pub open spec fn parse_users_spec(data: Seq<u8>) -> Seq<(Seq<u8>, Seq<u8>)>
    decreases data.len(),
{
    if data.len() == 0 {
        Seq::empty()
    } else if exists|i: int| first_nl_at(data, i) {
        let k = choose|i: int| first_nl_at(data, i);
        if 0 <= k < data.len() {
            let line = data.subrange(0, k);
            let rest = data.subrange(k + 1, data.len() as int);
            match parse_line_spec(line) {
                Some(r) => seq![r] + parse_users_spec(rest),
                None => parse_users_spec(rest),
            }
        } else {
            Seq::empty()
        }
    } else {
        match parse_line_spec(data) {
            Some(r) => seq![r],
            None => Seq::empty(),
        }
    }
}

/// The record pairs a vector of users denotes.
pub open spec fn user_pairs(s: Seq<User>) -> Seq<(Seq<u8>, Seq<u8>)> {
    s.map_values(|u: User| (u.username@, u.password@))
}

proof fn lemma_first_nl_unique(s: Seq<u8>, i: int, j: int)
    requires
        first_nl_at(s, i),
        first_nl_at(s, j),
    ensures
        i == j,
{
    if i < j {
        assert(s[i] != NL);
    } else if j < i {
        assert(s[j] != NL);
    }
}

/// Splits one line at its single `|`, when it has exactly one.
fn parse_line(line: &[u8]) -> (r: Option<User>)
    ensures
        match r {
            Some(u) => parse_line_spec(line@) == Some((u.username@, u.password@)),
            None => parse_line_spec(line@).is_none(),
        },
{
    let n = line.len();
    let mut i: usize = 0;
    let mut pipe_pos: usize = 0;
    let mut pipes: usize = 0;
    let mut second_pos: usize = 0;
    while i < n
        invariant
            0 <= i <= n,
            n == line@.len(),
            pipes <= i,
            pipes == 0 ==> forall|j: int| 0 <= j < i ==> line@[j] != PIPE,
            pipes >= 1 ==> pipe_at(line@, pipe_pos as int) && pipe_pos < i,
            pipes == 1 ==> forall|j: int|
                0 <= j < i && j != pipe_pos ==> line@[j] != PIPE,
            pipes >= 2 ==> pipe_at(line@, second_pos as int) && second_pos != pipe_pos,
        decreases n - i,
    {
        if line[i] == PIPE {
            if pipes == 0 {
                pipe_pos = i;
            } else if pipes == 1 {
                second_pos = i;
            }
            pipes = pipes + 1;
        }
        i = i + 1;
    }
    if pipes != 1 {
        proof {
            if pipes == 0 {
                assert(forall|j: int| 0 <= j < n ==> line@[j] != PIPE);
                assert(!exactly_one_pipe(line@));
            } else {
                assert(pipe_at(line@, pipe_pos as int) && pipe_at(line@, second_pos as int));
                assert(!exactly_one_pipe(line@));
            }
        }
        return None;
    }
    proof {
        assert(exactly_one_pipe(line@)) by {
            assert(pipe_at(line@, pipe_pos as int));
            assert(forall|j: int| 0 <= j < n && j != pipe_pos ==> line@[j] != PIPE);
        }
        let w = choose|i: int| pipe_at(line@, i);
        assert(w == pipe_pos as int);
    }
    let mut username: Vec<u8> = Vec::new();
    let mut k: usize = 0;
    while k < pipe_pos
        invariant
            0 <= k <= pipe_pos,
            pipe_pos < n,
            n == line@.len(),
            username@ == line@.subrange(0, k as int),
        decreases pipe_pos - k,
    {
        username.push(line[k]);
        assert(username@ =~= line@.subrange(0, k + 1 as int));
        k = k + 1;
    }
    let mut password: Vec<u8> = Vec::new();
    let mut m: usize = pipe_pos + 1;
    while m < n
        invariant
            pipe_pos + 1 <= m <= n,
            n == line@.len(),
            password@ == line@.subrange(pipe_pos + 1 as int, m as int),
        decreases n - m,
    {
        password.push(line[m]);
        assert(password@ =~= line@.subrange(pipe_pos + 1 as int, m + 1 as int));
        m = m + 1;
    }
    Some(User { username, password })
}

/// Parses the whole credential file: one record for each line that holds
/// exactly one `|`, in file order; every other line is ignored.
pub fn load_users_from_csv(data: &[u8]) -> (users: Vec<User>)
    ensures
        user_pairs(users@) == parse_users_spec(data@),
{
    let mut users: Vec<User> = Vec::new();
    let total = data.len();
    let mut pos: usize = 0;
    proof {
        assert(user_pairs(users@) =~= Seq::empty());
        assert(data@.subrange(0, total as int) =~= data@);
    }
    while pos < total
        invariant
            0 <= pos <= total,
            total == data@.len(),
            parse_users_spec(data@) =~= user_pairs(users@) + parse_users_spec(
                data@.subrange(pos as int, total as int),
            ),
        decreases total - pos,
    {
        let ghost suffix = data@.subrange(pos as int, total as int);
        // find the end of the current line
        let mut j: usize = pos;
        while j < total && data[j] != NL
            invariant
                pos <= j <= total,
                total == data@.len(),
                forall|t: int| pos <= t < j ==> data@[t] != NL,
            decreases total - j,
        {
            j = j + 1;
        }
        let line_parsed = parse_line_slice(data, pos, j);
        let ghost line = data@.subrange(pos as int, j as int);
        proof {
            assert(suffix.len() > 0);
            if j < total {
                // the line ends at a newline inside the suffix
                assert(data@[j as int] == NL);
                assert(first_nl_at(suffix, j - pos)) by {
                    assert(suffix[j - pos] == data@[j as int]);
                    assert(forall|t: int|
                        0 <= t < j - pos ==> suffix[t] == data@[t + pos] && suffix[t] != NL);
                }
                let w = choose|i: int| first_nl_at(suffix, i);
                lemma_first_nl_unique(suffix, w, j - pos);
                assert(suffix.subrange(0, j - pos) =~= line);
                assert(suffix.subrange(j - pos + 1, suffix.len() as int) =~= data@.subrange(
                    j + 1 as int,
                    total as int,
                ));
            } else {
                // no newline remains: the suffix is the final line
                assert(forall|t: int|
                    0 <= t < suffix.len() ==> suffix[t] == data@[t + pos] && suffix[t] != NL);
                assert(!exists|i: int| first_nl_at(suffix, i)) by {
                    if exists|i: int| first_nl_at(suffix, i) {
                        let w = choose|i: int| first_nl_at(suffix, i);
                        assert(suffix[w] != NL);
                    }
                }
                assert(suffix =~= line);
            }
        }
        match line_parsed {
            Some(u) => {
                let ghost pairs0 = user_pairs(users@);
                users.push(u);
                proof {
                    assert(user_pairs(users@) =~= pairs0 + seq![(u.username@, u.password@)]);
                }
            },
            None => {},
        }
        if j < total {
            pos = j + 1;
        } else {
            pos = total;
        }
        proof {
            if pos < total {
                assert(parse_users_spec(data@) =~= user_pairs(users@) + parse_users_spec(
                    data@.subrange(pos as int, total as int),
                ));
            } else {
                assert(data@.subrange(total as int, total as int) =~= Seq::<u8>::empty());
                assert(parse_users_spec(data@) =~= user_pairs(users@) + parse_users_spec(
                    data@.subrange(pos as int, total as int),
                ));
            }
        }
    }
    proof {
        assert(data@.subrange(total as int, total as int) =~= Seq::<u8>::empty());
        assert(parse_users_spec(data@) =~= user_pairs(users@));
    }
    users
}

/// `parse_line` on the bytes `data[lo..hi]`.
fn parse_line_slice(data: &[u8], lo: usize, hi: usize) -> (r: Option<User>)
    requires
        lo <= hi <= data@.len(),
    ensures
        match r {
            Some(u) => parse_line_spec(data@.subrange(lo as int, hi as int)) == Some(
                (u.username@, u.password@),
            ),
            None => parse_line_spec(data@.subrange(lo as int, hi as int)).is_none(),
        },
{
    let mut line: Vec<u8> = Vec::new();
    let mut i: usize = lo;
    while i < hi
        invariant
            lo <= i <= hi,
            hi <= data@.len(),
            line@ == data@.subrange(lo as int, i as int),
        decreases hi - i,
    {
        line.push(data[i]);
        assert(line@ =~= data@.subrange(lo as int, i + 1 as int));
        i = i + 1;
    }
    parse_line(line.as_slice())
}

/// The verdict of the argon2 password-hash verification for a submitted
/// password against one stored hash string; false also covers a stored
/// hash that does not parse.
pub uninterp spec fn argon2_accepts(password: Seq<u8>, stored_hash: Seq<u8>) -> bool;

/// Relies on argon2's `Argon2::verify_password`: parses the stored
/// PHC-format hash string and checks the password against it. The verdict
/// is a function of the two byte strings alone; a stored hash that is not
/// well-formed (including one that is not UTF-8) verifies as false rather
/// than failing the request.
#[verifier::external_body]
fn verify_password_hash(password: &[u8], stored_hash: &[u8]) -> (r: bool)
    ensures
        r == argon2_accepts(password@, stored_hash@),
{
    match core::str::from_utf8(stored_hash) {
        Ok(h) => argon2::Argon2::default().verify_password(password, h).is_ok(),
        Err(_) => false,
    }
}

/// Scans the records for the first matching username and verifies the
/// password against that record's stored hash. Returns false when no
/// record matches, without telling the two cases apart.
pub fn is_valid_credentials(users: &Vec<User>, username: &[u8], password: &[u8]) -> (r: bool)
    ensures
        (forall|i: int| 0 <= i < users@.len() ==> users@[i].username@ != username@) ==> r
            == false,
        forall|i: int|
            (0 <= i < users@.len() && users@[i].username@ == username@ && (forall|j: int|
                0 <= j < i ==> users@[j].username@ != username@)) ==> r == argon2_accepts(
                password@,
                users@[i].password@,
            ),
{
    let n = users.len();
    let mut i: usize = 0;
    while i < n
        invariant
            0 <= i <= n,
            n == users@.len(),
            forall|j: int| 0 <= j < i ==> users@[j].username@ != username@,
        decreases n - i,
    {
        if bytes_eq(users[i].username.as_slice(), username) {
            let r = verify_password_hash(password, users[i].password.as_slice());
            proof {
                assert forall|k: int|
                    (0 <= k < users@.len() && users@[k].username@ == username@ && (forall|j: int|
                        0 <= j < k ==> users@[j].username@ != username@)) implies r
                    == argon2_accepts(password@, users@[k].password@) by {
                    if k < i {
                        assert(users@[k].username@ != username@);
                    } else if k > i {
                        assert(users@[i as int].username@ != username@);
                    }
                }
            }
            return r;
        }
        i = i + 1;
    }
    false
}

} // verus!
