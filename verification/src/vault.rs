//! The sandboxed per-user file vault, modelled in memory.
//!
//! The vault tracks, for one user, the set of regular files (relative path
//! and content) and the set of directories below the user's root. Every
//! operation validates the client-supplied relative path against the
//! sandboxing predicate before anything else, so no `..` or absolute
//! component ever reaches a filesystem call. The surrounding application
//! mirrors each reported action onto the real directory tree.

use vstd::prelude::*;

use crate::paths::{
    base_of, bytes_eq, bytes_to_vec, check_dir_prefix, check_rel_path, check_seg, dir_prefix,
    find_last_sep, join, last_sep_at, lemma_append_seg, lemma_prefix_valid, lemma_seg_valid,
    lemma_split_valid, parent_of, seg_ok, valid_rel_path, DOT, SEP,
};

verus! {

/// One stored file: its path relative to the user root, and its bytes.
pub struct VaultFile {
    pub path: Vec<u8>,
    pub content: Vec<u8>,
}

/// The vault of one user: the files and directories under that user's root.
pub struct FileVault {
    username: Vec<u8>,
    files: Vec<VaultFile>,
    dirs: Vec<Vec<u8>>,
}

/// Some entry of `s` has path `p`.
pub open spec fn file_at(s: Seq<VaultFile>, p: Seq<u8>) -> bool {
    exists|i: int| 0 <= i < s.len() && s[i].path@ == p
}

/// Index of the entry with path `p`; meaningful only when `file_at`.
pub open spec fn file_idx(s: Seq<VaultFile>, p: Seq<u8>) -> int {
    choose|i: int| 0 <= i < s.len() && s[i].path@ == p
}

/// The map from file paths to contents that an entry sequence denotes.
pub open spec fn files_map(s: Seq<VaultFile>) -> Map<Seq<u8>, Seq<u8>> {
    Map::new(|p: Seq<u8>| file_at(s, p), |p: Seq<u8>| s[file_idx(s, p)].content@)
}

/// The set of directory paths a vector of directories denotes.
pub open spec fn dirs_set(s: Seq<Vec<u8>>) -> Set<Seq<u8>> {
    Set::new(|d: Seq<u8>| exists|i: int| 0 <= i < s.len() && s[i]@ == d)
}

/// The relative path of the trash directory.
pub open spec fn trash_dir() -> Seq<u8> {
    seq![116u8, 114u8, 97u8, 115u8, 104u8]
}

/// `p` lies in the trash: its first segment is `trash`.
pub open spec fn in_trash(p: Seq<u8>) -> bool {
    p.len() >= 5 && p.subrange(0, 5) == trash_dir() && (p.len() == 5 || p[5] == SEP)
}

proof fn lemma_files_map_at(s: Seq<VaultFile>, i: int)
    requires
        forall|a: int, b: int| 0 <= a < b < s.len() ==> s[a].path@ != s[b].path@,
        0 <= i < s.len(),
    ensures
        file_at(s, s[i].path@),
        file_idx(s, s[i].path@) == i,
        files_map(s).contains_key(s[i].path@),
        files_map(s)[s[i].path@] == s[i].content@,
{
    assert(file_at(s, s[i].path@));
    let j = file_idx(s, s[i].path@);
    assert(0 <= j < s.len() && s[j].path@ == s[i].path@);
    if i < j {
        assert(s[i].path@ != s[j].path@);
    } else if j < i {
        assert(s[j].path@ != s[i].path@);
    }
}

proof fn lemma_dirs_set_at(s: Seq<Vec<u8>>, i: int)
    requires
        0 <= i < s.len(),
    ensures
        dirs_set(s).contains(s[i]@),
{
    assert(dirs_set(s).contains(s[i]@));
}

impl FileVault {
    /// The abstract file store: which relative path holds which bytes.
    pub closed spec fn fmap(self) -> Map<Seq<u8>, Seq<u8>> {
        files_map(self.files@)
    }

    /// The abstract set of directories existing below the user root.
    pub closed spec fn dset(self) -> Set<Seq<u8>> {
        dirs_set(self.dirs@)
    }

    /// The owning username.
    pub closed spec fn spec_username(self) -> Seq<u8> {
        self.username@
    }

    /// A directory has something strictly under it: a file or a directory.
    pub open spec fn nonempty_dir(self, d: Seq<u8>) -> bool {
        ||| exists|p: Seq<u8>| self.fmap().contains_key(p) && #[trigger] dir_prefix(d, p)
        ||| exists|e: Seq<u8>| self.dset().contains(e) && #[trigger] dir_prefix(d, e)
    }

    /// Well-formedness: paths are distinct and accepted by the sandboxing
    /// predicate, no path names both a file and a directory, and every
    /// directory strictly above a file or directory exists itself.
    pub closed spec fn wf(self) -> bool {
        let fs = self.files@;
        let ds = self.dirs@;
        &&& forall|a: int, b: int| 0 <= a < b < fs.len() ==> fs[a].path@ != fs[b].path@
        &&& forall|a: int, b: int| 0 <= a < b < ds.len() ==> ds[a]@ != ds[b]@
        &&& forall|i: int| 0 <= i < fs.len() ==> valid_rel_path(#[trigger] fs[i].path@)
        &&& forall|i: int| 0 <= i < ds.len() ==> valid_rel_path(#[trigger] ds[i]@)
        &&& forall|i: int, j: int|
            0 <= i < fs.len() && 0 <= j < ds.len() ==> fs[i].path@ != ds[j]@
        &&& forall|i: int, d: Seq<u8>|
            0 <= i < fs.len() && #[trigger] dir_prefix(d, fs[i].path@) ==> dirs_set(ds).contains(
                d,
            )
        &&& forall|i: int, d: Seq<u8>|
            0 <= i < ds.len() && #[trigger] dir_prefix(d, ds[i]@) ==> dirs_set(ds).contains(d)
    }

    /// A fresh, empty vault for one user.
    pub fn new(username: Vec<u8>) -> (r: FileVault)
        ensures
            r.wf(),
            r.spec_username() == username@,
            r.fmap() == Map::<Seq<u8>, Seq<u8>>::empty(),
            r.dset() == Set::<Seq<u8>>::empty(),
    {
        let r = FileVault { username, files: Vec::new(), dirs: Vec::new() };
        proof {
            assert(r.fmap() =~= Map::<Seq<u8>, Seq<u8>>::empty());
            assert(r.dset() =~= Set::<Seq<u8>>::empty());
        }
        r
    }

    /// The owning username.
    pub fn username(&self) -> (r: &Vec<u8>)
        ensures
            r@ == self.spec_username(),
    {
        &self.username
    }

    /// Finds the entry index of a file path.
    fn find_file(&self, p: &[u8]) -> (r: Option<usize>)
        requires
            self.wf(),
        ensures
            match r {
                Some(i) => i < self.files@.len() && self.files@[i as int].path@ == p@
                    && self.fmap().contains_key(p@) && self.fmap()[p@]
                    == self.files@[i as int].content@,
                None => !self.fmap().contains_key(p@),
            },
    {
        let n = self.files.len();
        let mut i: usize = 0;
        while i < n
            invariant
                0 <= i <= n,
                n == self.files@.len(),
                self.wf(),
                forall|j: int| 0 <= j < i ==> self.files@[j].path@ != p@,
            decreases n - i,
        {
            if bytes_eq(self.files[i].path.as_slice(), p) {
                proof {
                    lemma_files_map_at(self.files@, i as int);
                }
                return Some(i);
            }
            i = i + 1;
        }
        proof {
            if file_at(self.files@, p@) {
                let j = file_idx(self.files@, p@);
                assert(self.files@[j].path@ != p@);
            }
        }
        None
    }

    /// Whether a directory path exists, and at which index.
    fn find_dir(&self, d: &[u8]) -> (r: Option<usize>)
        ensures
            match r {
                Some(i) => i < self.dirs@.len() && self.dirs@[i as int]@ == d@
                    && self.dset().contains(d@),
                None => !self.dset().contains(d@),
            },
    {
        let n = self.dirs.len();
        let mut i: usize = 0;
        while i < n
            invariant
                0 <= i <= n,
                n == self.dirs@.len(),
                forall|j: int| 0 <= j < i ==> self.dirs@[j]@ != d@,
            decreases n - i,
        {
            if bytes_eq(self.dirs[i].as_slice(), d) {
                proof {
                    lemma_dirs_set_at(self.dirs@, i as int);
                }
                return Some(i);
            }
            i = i + 1;
        }
        proof {
            if self.dset().contains(d@) {
                let j = choose|j: int| 0 <= j < self.dirs@.len() && self.dirs@[j]@ == d@;
                assert(self.dirs@[j]@ != d@);
            }
        }
        None
    }

    /// Whether anything (file or directory) lies strictly under `d`.
    fn entry_under(&self, d: &[u8]) -> (r: bool)
        requires
            self.wf(),
        ensures
            r == self.nonempty_dir(d@),
    {
        let n = self.files.len();
        let mut i: usize = 0;
        while i < n
            invariant
                0 <= i <= n,
                n == self.files@.len(),
                self.wf(),
                forall|j: int| 0 <= j < i ==> !dir_prefix(d@, #[trigger] self.files@[j].path@),
            decreases n - i,
        {
            if check_dir_prefix(d, self.files[i].path.as_slice()) {
                proof {
                    lemma_files_map_at(self.files@, i as int);
                }
                return true;
            }
            i = i + 1;
        }
        let m = self.dirs.len();
        let mut k: usize = 0;
        while k < m
            invariant
                0 <= k <= m,
                m == self.dirs@.len(),
                forall|j: int| 0 <= j < k ==> !dir_prefix(d@, #[trigger] self.dirs@[j]@),
            decreases m - k,
        {
            if check_dir_prefix(d, self.dirs[k].as_slice()) {
                proof {
                    lemma_dirs_set_at(self.dirs@, k as int);
                }
                return true;
            }
            k = k + 1;
        }
        proof {
            if self.nonempty_dir(d@) {
                if exists|p: Seq<u8>| self.fmap().contains_key(p) && #[trigger] dir_prefix(
                    d@,
                    p,
                ) {
                    let p = choose|p: Seq<u8>|
                        self.fmap().contains_key(p) && #[trigger] dir_prefix(d@, p);
                    let j = file_idx(self.files@, p);
                    assert(0 <= j < self.files@.len() && self.files@[j].path@ == p);
                    assert(!dir_prefix(d@, self.files@[j].path@));
                } else {
                    let e = choose|e: Seq<u8>|
                        self.dset().contains(e) && #[trigger] dir_prefix(d@, e);
                    let j = choose|j: int| 0 <= j < self.dirs@.len() && self.dirs@[j]@ == e;
                    assert(!dir_prefix(d@, self.dirs@[j]@));
                }
            }
        }
        false
    }

    /// Streams a stored file back: the content for an accepted path that
    /// names a file, and nothing at all otherwise. A rejected path and a
    /// missing file are deliberately indistinguishable.
    pub fn get_file(&self, file_path: &[u8]) -> (r: Option<Vec<u8>>)
        requires
            self.wf(),
        ensures
            match r {
                Some(c) => valid_rel_path(file_path@) && self.fmap().contains_key(file_path@)
                    && c@ == self.fmap()[file_path@],
                None => !valid_rel_path(file_path@) || !self.fmap().contains_key(file_path@),
            },
    {
        if !check_rel_path(file_path) {
            return None;
        }
        match self.find_file(file_path) {
            Some(i) => Some(bytes_to_vec(self.files[i].content.as_slice())),
            None => None,
        }
    }

    /// Lists the relative paths of all stored files, each exactly once, in
    /// no promised order. The walk covers the whole tree, trash included.
    pub fn get_files(&self) -> (r: Vec<Vec<u8>>)
        requires
            self.wf(),
        ensures
            forall|i: int| 0 <= i < r@.len() ==> self.fmap().contains_key(#[trigger] r@[i]@),
            forall|p: Seq<u8>|
                self.fmap().contains_key(p) ==> exists|i: int| 0 <= i < r@.len() && r@[i]@ == p,
            forall|i: int, j: int| 0 <= i < j < r@.len() ==> r@[i]@ != r@[j]@,
    {
        let n = self.files.len();
        let mut r: Vec<Vec<u8>> = Vec::new();
        let mut i: usize = 0;
        while i < n
            invariant
                0 <= i <= n,
                n == self.files@.len(),
                self.wf(),
                r@.len() == i,
                forall|j: int| 0 <= j < i ==> r@[j]@ == self.files@[j].path@,
            decreases n - i,
        {
            r.push(bytes_to_vec(self.files[i].path.as_slice()));
            i = i + 1;
        }
        proof {
            assert forall|j: int| 0 <= j < r@.len() implies self.fmap().contains_key(
                #[trigger] r@[j]@,
            ) by {
                lemma_files_map_at(self.files@, j);
            }
            assert forall|p: Seq<u8>| self.fmap().contains_key(p) implies exists|j: int|
                0 <= j < r@.len() && r@[j]@ == p by {
                let j = file_idx(self.files@, p);
                assert(0 <= j < self.files@.len() && self.files@[j].path@ == p);
                assert(r@[j]@ == p);
            }
        }
        r
    }
}

/// The outcome of a vault operation, mirroring the HTTP statuses the
/// handlers report.
#[derive(Clone, Copy, Debug, PartialEq, Eq, Structural)]
pub enum VaultStatus {
    Success,
    NoContent,
    Forbidden,
    Conflict,
    ExpectationFailed,
    BadRequest,
}

/// A byte that may not appear in an uploaded file name: separators, shell
/// metacharacters and whitespace.
pub open spec fn is_illegal_byte(b: u8) -> bool {
    ||| b == 60  // <
    ||| b == 62  // >
    ||| b == 124  // |
    ||| b == 58  // :
    ||| b == 40  // (
    ||| b == 41  // )
    ||| b == 38  // &
    ||| b == 59  // ;
    ||| b == 35  // #
    ||| b == 63  // ?
    ||| b == 42  // *
    ||| b == 47  // /
    ||| b == 92  // backslash
    ||| b == 32  // space
}

/// The sanitized form of an uploaded name: every unsafe byte replaced by
/// an underscore.
pub open spec fn sanitize_spec(s: Seq<u8>) -> Seq<u8> {
    s.map_values(|b: u8| if is_illegal_byte(b) { 95u8 } else { b })
}

/// Replaces every unsafe byte of an uploaded name by an underscore.
pub fn sanitize_path(path: &[u8]) -> (r: Vec<u8>)
    ensures
        r@ == sanitize_spec(path@),
{
    let mut r: Vec<u8> = Vec::new();
    let mut i: usize = 0;
    while i < path.len()
        invariant
            0 <= i <= path@.len(),
            r@ == sanitize_spec(path@.subrange(0, i as int)),
        decreases path@.len() - i,
    {
        let b = path[i];
        let c: u8 = if b == 60 || b == 62 || b == 124 || b == 58 || b == 40 || b == 41 || b == 38
            || b == 59 || b == 35 || b == 63 || b == 42 || b == 47 || b == 92 || b == 32 {
            95
        } else {
            b
        };
        r.push(c);
        proof {
            assert(path@.subrange(0, i + 1 as int) =~= path@.subrange(0, i as int) + seq![
                path@[i as int],
            ]);
            assert(r@ =~= sanitize_spec(path@.subrange(0, i + 1 as int)));
        }
        i = i + 1;
    }
    proof {
        assert(path@.subrange(0, path@.len() as int) =~= path@);
    }
    r
}

/// An uploaded file name, as carried in the upload request, already
/// sanitized for path construction.
pub struct FileName {
    pub name: Vec<u8>,
}

impl FileName {
    /// Sanitizes a raw header value into a usable file name.
    pub fn new(raw: &[u8]) -> (r: FileName)
        ensures
            r.name@ == sanitize_spec(raw@),
    {
        FileName { name: sanitize_path(raw) }
    }
}

impl FileVault {
    /// Removes the file entry at `i`; the rest of the store is untouched.
    fn remove_file_at(&mut self, i: usize) -> (r: VaultFile)
        requires
            old(self).wf(),
            i < old(self).files@.len(),
        ensures
            final(self).wf(),
            final(self).spec_username() == old(self).spec_username(),
            final(self).dset() == old(self).dset(),
            r.path@ == old(self).files@[i as int].path@,
            r.content@ == old(self).files@[i as int].content@,
            final(self).fmap() == old(self).fmap().remove(r.path@),
    {
        let ghost s = self.files@;
        let ghost p = self.files@[i as int].path@;
        let r = self.files.swap_remove(i);
        proof {
            let s2 = self.files@;
            assert(s2 == s.update(i as int, s.last()).drop_last());
            assert(s2.len() == s.len() - 1);
            assert(forall|j: int| 0 <= j < s2.len() && j != i ==> s2[j] == s[j]);
            assert(i < s2.len() ==> s2[i as int] == s[s.len() - 1]);
            lemma_files_map_at(s, i as int);
            // distinctness of the shorter sequence
            assert forall|a: int, b: int| 0 <= a < b < s2.len() implies s2[a].path@
                != s2[b].path@ by {
                let a0: int = if a == i { s.len() - 1 } else { a };
                let b0: int = if b == i { s.len() - 1 } else { b };
                assert(s2[a] == s[a0] && s2[b] == s[b0]);
                assert(a0 != b0);
            }
            assert(self.dset() =~= old(self).dset());
            // the abstract map loses exactly `p`
            assert forall|q: Seq<u8>| #[trigger] files_map(s2).contains_key(q) implies
                files_map(s).contains_key(q) && q != p by {
                let j = file_idx(s2, q);
                let j0: int = if j == i { s.len() - 1 } else { j };
                assert(s2[j] == s[j0]);
                lemma_files_map_at(s, j0);
                if q == p {
                    assert(s[j0].path@ == s[i as int].path@);
                    assert(j0 == i);
                }
            }
            assert forall|q: Seq<u8>|
                files_map(s).contains_key(q) && q != p implies #[trigger] files_map(
                s2,
            ).contains_key(q) by {
                let j = file_idx(s, q);
                assert(0 <= j < s.len() && s[j].path@ == q);
                assert(j != i);
                if j == s.len() - 1 {
                    assert(i < s2.len());
                    assert(s2[i as int] == s[j]);
                    assert(file_at(s2, q));
                } else {
                    assert(s2[j] == s[j]);
                    assert(file_at(s2, q));
                }
            }
            assert forall|q: Seq<u8>| #[trigger] files_map(s2).contains_key(q) implies
                files_map(s2)[q] == files_map(s)[q] by {
                let j = file_idx(s2, q);
                let j0: int = if j == i { s.len() - 1 } else { j };
                assert(s2[j] == s[j0]);
                lemma_files_map_at(s, j0);
                lemma_files_map_at(s2, j);
            }
            assert(files_map(s2) =~= files_map(s).remove(p));
        }
        r
    }

    /// Replaces the content of the file entry at `i`.
    fn set_file_content(&mut self, i: usize, content: Vec<u8>) -> (r: ())
        requires
            old(self).wf(),
            i < old(self).files@.len(),
        ensures
            final(self).wf(),
            final(self).spec_username() == old(self).spec_username(),
            final(self).dset() == old(self).dset(),
            final(self).fmap() == old(self).fmap().insert(
                old(self).files@[i as int].path@,
                content@,
            ),
    {
        let ghost s = self.files@;
        let ghost p = self.files@[i as int].path@;
        let path = bytes_to_vec(self.files[i].path.as_slice());
        self.files[i] = VaultFile { path, content };
        proof {
            let s2 = self.files@;
            assert(s2 == s.update(i as int, s2[i as int]));
            assert(s2[i as int].path@ == p);
            assert(forall|j: int| 0 <= j < s.len() && j != i ==> s2[j] == s[j]);
            lemma_files_map_at(s, i as int);
            assert forall|a: int, b: int| 0 <= a < b < s2.len() implies s2[a].path@
                != s2[b].path@ by {
                assert(s2[a].path@ == s[a].path@ && s2[b].path@ == s[b].path@);
            }
            assert(self.dset() =~= old(self).dset());
            lemma_files_map_at(s2, i as int);
            assert forall|q: Seq<u8>| true implies #[trigger] files_map(s2).contains_key(q)
                == files_map(s).contains_key(q) by {
                if files_map(s2).contains_key(q) {
                    let j = file_idx(s2, q);
                    assert(s2[j].path@ == s[j].path@);
                    lemma_files_map_at(s, j);
                }
                if files_map(s).contains_key(q) {
                    let j = file_idx(s, q);
                    assert(s2[j].path@ == s[j].path@);
                    lemma_files_map_at(s2, j);
                }
            }
            assert forall|q: Seq<u8>|
                #[trigger] files_map(s2).contains_key(q) && q != p implies files_map(s2)[q]
                == files_map(s)[q] by {
                let j = file_idx(s2, q);
                assert(s2[j].path@ == s[j].path@ && s2[j].content@ == s[j].content@);
                lemma_files_map_at(s, j);
                lemma_files_map_at(s2, j);
            }
            assert(files_map(s2) =~= files_map(s).insert(p, content@));
        }
    }

    /// Adds a fresh file entry; its path must be new, accepted, and have
    /// all its parent directories present.
    fn push_file(&mut self, f: VaultFile)
        requires
            old(self).wf(),
            valid_rel_path(f.path@),
            !old(self).fmap().contains_key(f.path@),
            !old(self).dset().contains(f.path@),
            forall|d: Seq<u8>| #[trigger] dir_prefix(d, f.path@) ==> old(self).dset().contains(d),
        ensures
            final(self).wf(),
            final(self).spec_username() == old(self).spec_username(),
            final(self).dset() == old(self).dset(),
            final(self).fmap() == old(self).fmap().insert(f.path@, f.content@),
    {
        let ghost s = self.files@;
        let ghost p = f.path@;
        let ghost c = f.content@;
        self.files.push(f);
        proof {
            let s2 = self.files@;
            assert(s2 == s.push(s2[s.len() as int]));
            assert(s2[s.len() as int].path@ == p);
            assert(forall|j: int| 0 <= j < s.len() ==> s2[j] == s[j]);
            assert forall|a: int, b: int| 0 <= a < b < s2.len() implies s2[a].path@
                != s2[b].path@ by {
                if b == s.len() {
                    lemma_files_map_at(s, a);
                    assert(s[a].path@ != p);
                }
            }
            assert(self.dset() =~= old(self).dset());
            lemma_files_map_at(s2, s.len() as int);
            assert forall|q: Seq<u8>| #[trigger] files_map(s2).contains_key(q) && q != p implies
                files_map(s).contains_key(q) && files_map(s2)[q] == files_map(s)[q] by {
                let j = file_idx(s2, q);
                assert(j != s.len());
                assert(s2[j] == s[j]);
                lemma_files_map_at(s, j);
                lemma_files_map_at(s2, j);
            }
            assert forall|q: Seq<u8>| files_map(s).contains_key(q) implies #[trigger] files_map(
                s2,
            ).contains_key(q) by {
                let j = file_idx(s, q);
                assert(s2[j] == s[j]);
                assert(file_at(s2, q));
            }
            assert(files_map(s2) =~= files_map(s).insert(p, c));
        }
    }

    /// Adds a fresh directory; its path must be new, accepted, not name a
    /// file, and have all its parent directories present.
    fn push_dir(&mut self, d: Vec<u8>)
        requires
            old(self).wf(),
            valid_rel_path(d@),
            !old(self).dset().contains(d@),
            !old(self).fmap().contains_key(d@),
            forall|x: Seq<u8>| #[trigger] dir_prefix(x, d@) ==> old(self).dset().contains(x),
        ensures
            final(self).wf(),
            final(self).spec_username() == old(self).spec_username(),
            final(self).fmap() == old(self).fmap(),
            final(self).dset() == old(self).dset().insert(d@),
    {
        let ghost ds = self.dirs@;
        let ghost dv = d@;
        self.dirs.push(d);
        proof {
            let ds2 = self.dirs@;
            assert(ds2 == ds.push(ds2[ds.len() as int]));
            assert(ds2[ds.len() as int]@ == dv);
            assert(forall|j: int| 0 <= j < ds.len() ==> ds2[j] == ds[j]);
            assert(dirs_set(ds2) =~= dirs_set(ds).insert(dv)) by {
                assert forall|x: Seq<u8>| #[trigger] dirs_set(ds2).contains(x) implies dirs_set(
                    ds,
                ).contains(x) || x == dv by {
                    let j = choose|j: int| 0 <= j < ds2.len() && ds2[j]@ == x;
                    if j < ds.len() {
                        lemma_dirs_set_at(ds, j);
                    }
                }
                assert forall|x: Seq<u8>| dirs_set(ds).contains(x) implies #[trigger] dirs_set(
                    ds2,
                ).contains(x) by {
                    let j = choose|j: int| 0 <= j < ds.len() && ds[j]@ == x;
                    assert(ds2[j]@ == x);
                }
                assert(dirs_set(ds2).contains(dv));
            }
            assert forall|a: int, b: int| 0 <= a < b < ds2.len() implies ds2[a]@ != ds2[b]@ by {
                if b == ds.len() {
                    lemma_dirs_set_at(ds, a);
                }
            }
            assert(self.fmap() =~= old(self).fmap());
            // closure for files and directories over the grown set
            assert forall|i: int, x: Seq<u8>|
                0 <= i < self.files@.len() && #[trigger] dir_prefix(x, self.files@[i].path@)
                implies dirs_set(ds2).contains(x) by {
                assert(dirs_set(ds).contains(x));
            }
            assert forall|i: int, x: Seq<u8>|
                0 <= i < ds2.len() && #[trigger] dir_prefix(x, ds2[i]@) implies dirs_set(
                ds2,
            ).contains(x) by {
                if i < ds.len() {
                    assert(dirs_set(ds).contains(x));
                } else {
                    assert(ds2[i]@ == dv);
                    assert(dirs_set(ds).contains(x));
                }
            }
        }
    }

    /// Removes the directory entry at `i`, which must be empty.
    fn remove_dir_at(&mut self, i: usize)
        requires
            old(self).wf(),
            i < old(self).dirs@.len(),
            !old(self).nonempty_dir(old(self).dirs@[i as int]@),
        ensures
            final(self).wf(),
            final(self).spec_username() == old(self).spec_username(),
            final(self).fmap() == old(self).fmap(),
            final(self).dset() == old(self).dset().remove(old(self).dirs@[i as int]@),
    {
        let ghost ds = self.dirs@;
        let ghost dv = self.dirs@[i as int]@;
        let _ = self.dirs.swap_remove(i);
        proof {
            let ds2 = self.dirs@;
            assert(ds2 == ds.update(i as int, ds.last()).drop_last());
            assert(ds2.len() == ds.len() - 1);
            assert(forall|j: int| 0 <= j < ds2.len() && j != i ==> ds2[j] == ds[j]);
            assert(i < ds2.len() ==> ds2[i as int] == ds[ds.len() - 1]);
            assert forall|a: int, b: int| 0 <= a < b < ds2.len() implies ds2[a]@ != ds2[b]@ by {
                let a0: int = if a == i { ds.len() - 1 } else { a };
                let b0: int = if b == i { ds.len() - 1 } else { b };
                assert(ds2[a] == ds[a0] && ds2[b] == ds[b0]);
                assert(a0 != b0);
            }
            assert(dirs_set(ds2) =~= dirs_set(ds).remove(dv)) by {
                assert forall|x: Seq<u8>| #[trigger] dirs_set(ds2).contains(x) implies dirs_set(
                    ds,
                ).contains(x) && x != dv by {
                    let j = choose|j: int| 0 <= j < ds2.len() && ds2[j]@ == x;
                    let j0: int = if j == i { ds.len() - 1 } else { j };
                    assert(ds2[j] == ds[j0]);
                    lemma_dirs_set_at(ds, j0);
                    if x == dv {
                        if j0 < i {
                            assert(ds[j0]@ != ds[i as int]@);
                        } else if i < j0 {
                            assert(ds[i as int]@ != ds[j0]@);
                        }
                    }
                }
                assert forall|x: Seq<u8>|
                    dirs_set(ds).contains(x) && x != dv implies #[trigger] dirs_set(
                    ds2,
                ).contains(x) by {
                    let j = choose|j: int| 0 <= j < ds.len() && ds[j]@ == x;
                    assert(j != i);
                    if j == ds.len() - 1 {
                        assert(i < ds2.len());
                        assert(ds2[i as int] == ds[j]);
                    } else {
                        assert(ds2[j] == ds[j]);
                    }
                }
            }
            assert(self.fmap() =~= old(self).fmap());
            // closure survives because nothing lay under the removed one
            assert forall|k: int, x: Seq<u8>|
                0 <= k < self.files@.len() && #[trigger] dir_prefix(x, self.files@[k].path@)
                implies dirs_set(ds2).contains(x) by {
                assert(dirs_set(ds).contains(x));
                lemma_files_map_at(self.files@, k);
                if x == dv {
                    assert(old(self).fmap().contains_key(self.files@[k].path@));
                    assert(old(self).nonempty_dir(dv));
                }
            }
            assert forall|k: int, x: Seq<u8>|
                0 <= k < ds2.len() && #[trigger] dir_prefix(x, ds2[k]@) implies dirs_set(
                ds2,
            ).contains(x) by {
                let k0: int = if k == i { ds.len() - 1 } else { k };
                assert(ds2[k] == ds[k0]);
                assert(dirs_set(ds).contains(x));
                if x == dv {
                    lemma_dirs_set_at(ds, k0);
                    assert(old(self).dset().contains(ds[k0]@));
                    assert(old(self).nonempty_dir(dv));
                }
            }
        }
    }
}

/// Builds `src[0..k]`, a separator, then `seg`.
fn build_join(src: &[u8], k: usize, seg: &[u8]) -> (r: Vec<u8>)
    requires
        k <= src@.len(),
    ensures
        r@ == join(src@.subrange(0, k as int), seg@),
{
    let mut r: Vec<u8> = Vec::new();
    let mut i: usize = 0;
    while i < k
        invariant
            0 <= i <= k,
            k <= src@.len(),
            r@ == src@.subrange(0, i as int),
        decreases k - i,
    {
        r.push(src[i]);
        assert(r@ =~= src@.subrange(0, i + 1 as int));
        i = i + 1;
    }
    r.push(SEP);
    let mut j: usize = 0;
    while j < seg.len()
        invariant
            0 <= j <= seg@.len(),
            r@ == src@.subrange(0, k as int) + seq![SEP] + seg@.subrange(0, j as int),
        decreases seg@.len() - j,
    {
        r.push(seg[j]);
        assert(r@ =~= src@.subrange(0, k as int) + seq![SEP] + seg@.subrange(0, j + 1 as int));
        j = j + 1;
    }
    proof {
        assert(seg@.subrange(0, seg@.len() as int) =~= seg@);
    }
    r
}

impl FileVault {
    /// Stores an uploaded body under the sanitized name, creating or
    /// silently overwriting the file. The upload is refused when the
    /// sanitized name is not a usable single segment or a directory of
    /// that name is in the way.
    pub fn post_file_from_form(&mut self, file_name: &FileName, content: Vec<u8>) -> (st:
        VaultStatus)
        requires
            old(self).wf(),
        ensures
            final(self).wf(),
            final(self).spec_username() == old(self).spec_username(),
            ({
                let nm = file_name.name@;
                if seg_ok(nm) && !old(self).dset().contains(nm) {
                    &&& st == VaultStatus::Success
                    &&& final(self).fmap() == old(self).fmap().insert(nm, content@)
                    &&& final(self).dset() == old(self).dset()
                } else {
                    &&& st == VaultStatus::BadRequest
                    &&& final(self).fmap() == old(self).fmap()
                    &&& final(self).dset() == old(self).dset()
                }
            }),
    {
        if !check_seg(file_name.name.as_slice()) {
            return VaultStatus::BadRequest;
        }
        if let Some(_) = self.find_dir(file_name.name.as_slice()) {
            return VaultStatus::BadRequest;
        }
        proof {
            lemma_seg_valid(file_name.name@);
        }
        match self.find_file(file_name.name.as_slice()) {
            Some(i) => {
                self.set_file_content(i, content);
                VaultStatus::Success
            },
            None => {
                let path = bytes_to_vec(file_name.name.as_slice());
                proof {
                    assert forall|d: Seq<u8>| #[trigger] dir_prefix(d, file_name.name@) implies
                        old(self).dset().contains(d) by {
                        assert(file_name.name@[d.len() as int] != SEP);
                    }
                }
                self.push_file(VaultFile { path, content });
                VaultStatus::Success
            },
        }
    }

    /// Renames a file to a sibling name in the same directory. The old
    /// path must be accepted and name a file, the new name must be one
    /// usable segment, and nothing may already sit at the new path.
    pub fn rename_file(&mut self, old_file_path: &[u8], new_file_name: &[u8]) -> (st: VaultStatus)
        requires
            old(self).wf(),
        ensures
            final(self).wf(),
            final(self).spec_username() == old(self).spec_username(),
            ({
                let p = old_file_path@;
                let nm = new_file_name@;
                let dest = rename_dest(p, nm);
                if !valid_rel_path(p) || !seg_ok(nm) {
                    &&& st == VaultStatus::Forbidden
                    &&& final(self).fmap() == old(self).fmap()
                    &&& final(self).dset() == old(self).dset()
                } else if !old(self).fmap().contains_key(p) {
                    &&& st == VaultStatus::NoContent
                    &&& final(self).fmap() == old(self).fmap()
                    &&& final(self).dset() == old(self).dset()
                } else if old(self).fmap().contains_key(dest) || old(self).dset().contains(dest) {
                    &&& st == VaultStatus::Conflict
                    &&& final(self).fmap() == old(self).fmap()
                    &&& final(self).dset() == old(self).dset()
                } else {
                    &&& st == VaultStatus::Success
                    &&& final(self).fmap() == old(self).fmap().remove(p).insert(
                        dest,
                        old(self).fmap()[p],
                    )
                    &&& final(self).dset() == old(self).dset()
                }
            }),
    {
        if !check_rel_path(old_file_path) || !check_seg(new_file_name) {
            return VaultStatus::Forbidden;
        }
        let i = match self.find_file(old_file_path) {
            Some(i) => i,
            None => {
                return VaultStatus::NoContent;
            },
        };
        let dest: Vec<u8> = match find_last_sep(old_file_path) {
            Some(k) => {
                proof {
                    lemma_split_valid(old_file_path@);
                    assert(parent_of(old_file_path@) == old_file_path@.subrange(0, k as int));
                    lemma_append_seg(parent_of(old_file_path@), new_file_name@);
                }
                build_join(old_file_path, k, new_file_name)
            },
            None => {
                proof {
                    lemma_seg_valid(new_file_name@);
                    assert(rename_dest(old_file_path@, new_file_name@) == new_file_name@);
                }
                bytes_to_vec(new_file_name)
            },
        };
        let ghost destv = dest@;
        assert(destv == rename_dest(old_file_path@, new_file_name@));
        assert(valid_rel_path(destv));
        if let Some(_) = self.find_file(dest.as_slice()) {
            return VaultStatus::Conflict;
        }
        if let Some(_) = self.find_dir(dest.as_slice()) {
            return VaultStatus::Conflict;
        }
        proof {
            // the destination sits beside the source, so its parent
            // directories are exactly those of the source, which exist
            let p = old_file_path@;
            let nm = new_file_name@;
            let j = file_idx(self.files@, p);
            lemma_files_map_at(self.files@, i as int);
            if crate::paths::has_sep(p) {
                lemma_split_valid(p);
                lemma_append_seg(parent_of(p), nm);
                lemma_append_seg(parent_of(p), base_of(p));
                assert forall|x: Seq<u8>| #[trigger] dir_prefix(x, destv) implies self.dset()
                    .contains(x) by {
                    assert(x == parent_of(p) || dir_prefix(x, parent_of(p)));
                    assert(dir_prefix(x, p));
                    assert(dir_prefix(x, self.files@[i as int].path@));
                }
            } else {
                assert forall|x: Seq<u8>| #[trigger] dir_prefix(x, destv) implies self.dset()
                    .contains(x) by {
                    assert(destv[x.len() as int] != SEP);
                }
            }
        }
        let removed = self.remove_file_at(i);
        self.push_file(VaultFile { path: dest, content: removed.content });
        VaultStatus::Success
    }
}

/// The sibling path that a rename produces: the same parent directory with
/// the new name in place of the old base name.
pub open spec fn rename_dest(p: Seq<u8>, new_name: Seq<u8>) -> Seq<u8> {
    if crate::paths::has_sep(p) {
        join(parent_of(p), new_name)
    } else {
        new_name
    }
}

impl FileVault {
    /// The directory-pruning walk shared by delete and move: starting at
    /// `dir_path`, remove the directory while it is empty and climb to its
    /// parent, stopping at the first non-empty directory and never touching
    /// the user root. Returns the removed directories, deepest first.
    pub fn remove_directory_if_empty(&mut self, dir_path: &[u8]) -> (pruned: Vec<Vec<u8>>)
        requires
            old(self).wf(),
        ensures
            final(self).wf(),
            final(self).spec_username() == old(self).spec_username(),
            final(self).fmap() == old(self).fmap(),
            forall|d: Seq<u8>| final(self).dset().contains(d) ==> old(self).dset().contains(d),
            forall|d: Seq<u8>|
                #![trigger old(self).dset().contains(d), final(self).dset().contains(d)]
                old(self).dset().contains(d) && !final(self).dset().contains(d) ==> (d
                    == dir_path@ || dir_prefix(d, dir_path@)) && !final(self).nonempty_dir(d),
            old(self).dset().contains(dir_path@) ==> forall|d: Seq<u8>|
                #![trigger final(self).dset().contains(d)]
                final(self).dset().contains(d) && (d == dir_path@ || dir_prefix(d, dir_path@))
                    ==> final(self).nonempty_dir(d),
            !old(self).dset().contains(dir_path@) ==> final(self).dset() == old(self).dset(),
            forall|i: int|
                0 <= i < pruned@.len() ==> old(self).dset().contains(#[trigger] pruned@[i]@)
                    && !final(self).dset().contains(pruned@[i]@),
            forall|d: Seq<u8>|
                #![trigger old(self).dset().contains(d), final(self).dset().contains(d)]
                old(self).dset().contains(d) && !final(self).dset().contains(d) ==> exists|i: int|
                    0 <= i < pruned@.len() && pruned@[i]@ == d,
            forall|i: int, j: int|
                0 <= i < j < pruned@.len() ==> dir_prefix(
                    #[trigger] pruned@[j]@,
                    #[trigger] pruned@[i]@,
                ),
    {
        let ghost dset0 = old(self).dset();
        let mut pruned: Vec<Vec<u8>> = Vec::new();
        if dir_path.len() == 0 {
            proof {
                if dset0.contains(dir_path@) {
                    let j = choose|j: int|
                        0 <= j < self.dirs@.len() && self.dirs@[j]@ == dir_path@;
                    assert(valid_rel_path(self.dirs@[j]@));
                }
            }
            return pruned;
        }
        let mut current: Vec<u8> = bytes_to_vec(dir_path);
        loop
            invariant_except_break
                old(self).wf(),
                self.wf(),
                self.spec_username() == old(self).spec_username(),
                self.fmap() == old(self).fmap(),
                dset0 == old(self).dset(),
                dir_path@.len() > 0,
                current@.len() > 0 ==> current@ == dir_path@ || dir_prefix(current@, dir_path@),
                forall|d: Seq<u8>| self.dset().contains(d) ==> dset0.contains(d),
                forall|d: Seq<u8>|
                    #![trigger dset0.contains(d), self.dset().contains(d)]
                    dset0.contains(d) && !self.dset().contains(d) ==> (d == dir_path@
                        || dir_prefix(d, dir_path@)) && !self.nonempty_dir(d),
                forall|d: Seq<u8>|
                    #![trigger dset0.contains(d), self.dset().contains(d)]
                    dset0.contains(d) && !self.dset().contains(d) && current@.len() > 0
                        ==> dir_prefix(current@, d),
                dset0.contains(dir_path@) && current@.len() > 0 ==> self.dset().contains(
                    current@,
                ),
                !dset0.contains(dir_path@) ==> current@ == dir_path@ && self.dset() == dset0,
                forall|d: Seq<u8>|
                    (d == dir_path@ || dir_prefix(d, dir_path@)) && #[trigger] self.dset()
                        .contains(d) ==> current@.len() > 0 && (d == current@ || dir_prefix(
                        d,
                        current@,
                    )),
                forall|i: int|
                    0 <= i < pruned@.len() ==> dset0.contains(#[trigger] pruned@[i]@)
                        && !self.dset().contains(pruned@[i]@),
                forall|d: Seq<u8>|
                    #![trigger dset0.contains(d), self.dset().contains(d)]
                    dset0.contains(d) && !self.dset().contains(d) ==> exists|i: int|
                        0 <= i < pruned@.len() && pruned@[i]@ == d,
                forall|i: int, j: int|
                    0 <= i < j < pruned@.len() ==> dir_prefix(
                        #[trigger] pruned@[j]@,
                        #[trigger] pruned@[i]@,
                    ),
            ensures
                self.wf(),
                self.spec_username() == old(self).spec_username(),
                self.fmap() == old(self).fmap(),
                dset0 == old(self).dset(),
                forall|d: Seq<u8>| self.dset().contains(d) ==> dset0.contains(d),
                forall|d: Seq<u8>|
                    #![trigger dset0.contains(d), self.dset().contains(d)]
                    dset0.contains(d) && !self.dset().contains(d) ==> (d == dir_path@
                        || dir_prefix(d, dir_path@)) && !self.nonempty_dir(d),
                dset0.contains(dir_path@) ==> forall|d: Seq<u8>|
                    self.dset().contains(d) && (d == dir_path@ || dir_prefix(d, dir_path@))
                        ==> self.nonempty_dir(d),
                !dset0.contains(dir_path@) ==> self.dset() == dset0,
                forall|i: int|
                    0 <= i < pruned@.len() ==> dset0.contains(#[trigger] pruned@[i]@)
                        && !self.dset().contains(pruned@[i]@),
                forall|d: Seq<u8>|
                    #![trigger dset0.contains(d), self.dset().contains(d)]
                    dset0.contains(d) && !self.dset().contains(d) ==> exists|i: int|
                        0 <= i < pruned@.len() && pruned@[i]@ == d,
                forall|i: int, j: int|
                    0 <= i < j < pruned@.len() ==> dir_prefix(
                        #[trigger] pruned@[j]@,
                        #[trigger] pruned@[i]@,
                    ),
            decreases current@.len(),
        {
            if current.len() == 0 {
                proof {
                    // the walk consumed the whole chain: no chain directory
                    // is left, so the stopped-at-non-empty claim is vacuous
                    assert(dset0.contains(dir_path@));
                    assert forall|d: Seq<u8>|
                        self.dset().contains(d) && (d == dir_path@ || dir_prefix(d, dir_path@))
                            implies self.nonempty_dir(d) by {
                        assert(current@.len() > 0);
                    }
                }
                break ;
            }
            let found = match self.find_dir(current.as_slice()) {
                None => false,
                Some(_) => true,
            };
            if !found {
                proof {
                    // the walked directory is absent, which the presence
                    // invariant allows only when the start never existed
                    assert(!dset0.contains(dir_path@));
                }
                break ;
            }
            if self.entry_under(current.as_slice()) {
                proof {
                    if dset0.contains(dir_path@) {
                        assert forall|d: Seq<u8>|
                            self.dset().contains(d) && (d == dir_path@ || dir_prefix(
                                d,
                                dir_path@,
                            )) implies self.nonempty_dir(d) by {
                            assert(d == current@ || dir_prefix(d, current@));
                            if d != current@ {
                                assert(self.dset().contains(current@));
                            }
                        }
                    }
                }
                break ;
            }
            let ci = match self.find_dir(current.as_slice()) {
                None => {
                    proof {
                        assert(false);
                    }
                    break ;
                },
                Some(ci) => ci,
            };
            let ghost pre = *self;
            let ghost cur = current@;
            let ghost pruned0 = pruned@;
            self.remove_dir_at(ci);
            pruned.push(bytes_to_vec(current.as_slice()));
            proof {
                assert(pruned@.len() == pruned0.len() + 1);
                assert(forall|i: int| 0 <= i < pruned0.len() ==> pruned@[i] == pruned0[i]);
                assert(pruned@[pruned0.len() as int]@ == cur);
                assert(dset0.contains(cur));
                assert(!self.dset().contains(cur));
                assert forall|i: int|
                    0 <= i < pruned@.len() implies dset0.contains(#[trigger] pruned@[i]@)
                    && !self.dset().contains(pruned@[i]@) by {
                    if i < pruned0.len() {
                        assert(pruned@[i]@ == pruned0[i]@);
                        assert(dset0.contains(pruned0[i]@) && !pre.dset().contains(pruned0[i]@));
                    }
                }
                // a removed directory stays empty as the store only shrinks
                assert forall|d: Seq<u8>|
                    dset0.contains(d) && !self.dset().contains(d) implies !self.nonempty_dir(
                    d,
                ) by {
                    if d != cur {
                        assert(!pre.nonempty_dir(d));
                    }
                    if self.nonempty_dir(d) {
                        if exists|p: Seq<u8>|
                            self.fmap().contains_key(p) && #[trigger] dir_prefix(d, p) {
                            let p = choose|p: Seq<u8>|
                                self.fmap().contains_key(p) && #[trigger] dir_prefix(d, p);
                            assert(pre.nonempty_dir(d));
                        } else {
                            let e = choose|e: Seq<u8>|
                                self.dset().contains(e) && #[trigger] dir_prefix(d, e);
                            assert(pre.dset().contains(e));
                            assert(pre.nonempty_dir(d));
                        }
                    }
                }
                // every removed directory is named once in the output
                assert forall|d: Seq<u8>|
                    dset0.contains(d) && !self.dset().contains(d) implies exists|i: int|
                    0 <= i < pruned@.len() && pruned@[i]@ == d by {
                    if d == cur {
                        assert(pruned@[pruned0.len() as int]@ == d);
                    } else {
                        assert(!pre.dset().contains(d));
                        let i = choose|i: int| 0 <= i < pruned0.len() && pruned0[i]@ == d;
                        assert(pruned@[i]@ == d);
                    }
                }
            }
            match find_last_sep(current.as_slice()) {
                Some(k) => {
                    proof {
                        lemma_split_valid(cur);
                        assert(parent_of(cur) == cur.subrange(0, k as int));
                    }
                    current.truncate(k);
                    proof {
                        assert(current@ =~= parent_of(cur));
                        assert(dir_prefix(current@, cur));
                        if cur != dir_path@ {
                            crate::paths::lemma_dir_prefix_trans(current@, cur, dir_path@);
                        }
                        // the deepest-first order extends to the new entry
                        assert forall|i: int, j: int|
                            0 <= i < j < pruned@.len() implies dir_prefix(
                            #[trigger] pruned@[j]@,
                            #[trigger] pruned@[i]@,
                        ) by {
                            if j == pruned0.len() {
                                assert(pruned@[i]@ == pruned0[i]@);
                                assert(dset0.contains(pruned0[i]@) && !pre.dset().contains(
                                    pruned0[i]@,
                                ));
                                assert(dir_prefix(cur, pruned0[i]@));
                                assert(pruned@[j]@ == cur);
                            } else {
                                assert(pruned@[i]@ == pruned0[i]@ && pruned@[j]@ == pruned0[j]@);
                            }
                        }
                        // previously removed directories lie below the parent
                        assert forall|d: Seq<u8>|
                            dset0.contains(d) && !self.dset().contains(d) implies dir_prefix(
                            current@,
                            d,
                        ) by {
                            if d == cur {
                            } else {
                                assert(!pre.dset().contains(d));
                                assert(dir_prefix(cur, d));
                                crate::paths::lemma_dir_prefix_trans(current@, cur, d);
                            }
                        }
                        // remaining chain directories sit at or above the parent
                        assert forall|d: Seq<u8>|
                            (d == dir_path@ || dir_prefix(d, dir_path@)) && self.dset().contains(
                                d,
                            ) implies current@.len() > 0 && (d == current@ || dir_prefix(
                            d,
                            current@,
                        )) by {
                            assert(d == cur || dir_prefix(d, cur));
                            assert(d != cur);
                            assert(dir_prefix(d, cur));
                            if d.len() == current@.len() {
                                assert(d =~= current@) by {
                                    assert(forall|t: int|
                                        0 <= t < d.len() ==> cur.subrange(0, d.len() as int)[t]
                                            == cur[t]);
                                    assert(forall|t: int|
                                        0 <= t < d.len() ==> d[t] == cur[t] && current@[t]
                                            == cur[t]);
                                }
                            } else if d.len() < current@.len() {
                                crate::paths::lemma_prefix_trichotomy(d, current@, cur);
                            } else {
                                // a separator would sit beyond the last one
                                assert(cur[d.len() as int] == SEP);
                                assert(last_sep_at(cur, k as int));
                                assert(false);
                            }
                        }
                    }
                },
                None => {
                    proof {
                        assert forall|i: int, j: int|
                            0 <= i < j < pruned@.len() implies dir_prefix(
                            #[trigger] pruned@[j]@,
                            #[trigger] pruned@[i]@,
                        ) by {
                            if j == pruned0.len() {
                                assert(pruned@[i]@ == pruned0[i]@);
                                assert(dset0.contains(pruned0[i]@) && !pre.dset().contains(
                                    pruned0[i]@,
                                ));
                                assert(dir_prefix(cur, pruned0[i]@));
                                assert(pruned@[j]@ == cur);
                            } else {
                                assert(pruned@[i]@ == pruned0[i]@ && pruned@[j]@ == pruned0[j]@);
                            }
                        }
                        // the removed directory was a root child: no chain
                        // directory can remain below the root
                        assert forall|d: Seq<u8>|
                            (d == dir_path@ || dir_prefix(d, dir_path@)) && self.dset().contains(
                                d,
                            ) implies false by {
                            assert(d == cur || dir_prefix(d, cur));
                            assert(d != cur);
                            assert(dir_prefix(d, cur));
                            assert(cur[d.len() as int] == SEP);
                            assert(crate::paths::has_sep(cur));
                        }
                    }
                    current.clear();
                },
            }
        }
        pruned
    }
}

/// The outcome of a delete: the status to report, where the file went when
/// it was soft-deleted, and which emptied directories were removed.
pub struct DeleteOutcome {
    pub status: VaultStatus,
    pub trashed_to: Option<Vec<u8>>,
    pub pruned: Vec<Vec<u8>>,
}

/// Checks whether a path lies in the trash.
fn check_in_trash(p: &[u8]) -> (r: bool)
    ensures
        r == in_trash(p@),
{
    if p.len() < 5 {
        return false;
    }
    if p[0] == 116 && p[1] == 114 && p[2] == 97 && p[3] == 115 && p[4] == 104 {
        proof {
            assert(p@.subrange(0, 5) =~= trash_dir());
        }
        if p.len() == 5 {
            return true;
        }
        return p[5] == SEP;
    }
    proof {
        if in_trash(p@) {
            assert(p@.subrange(0, 5)[0] == p@[0]);
            assert(p@.subrange(0, 5)[1] == p@[1]);
            assert(p@.subrange(0, 5)[2] == p@[2]);
            assert(p@.subrange(0, 5)[3] == p@[3]);
            assert(p@.subrange(0, 5)[4] == p@[4]);
        }
    }
    false
}

/// Builds the trash directory name.
fn trash_name() -> (r: Vec<u8>)
    ensures
        r@ == trash_dir(),
{
    let mut r: Vec<u8> = Vec::new();
    r.push(116);
    r.push(114);
    r.push(97);
    r.push(115);
    r.push(104);
    proof {
        assert(r@ =~= trash_dir());
    }
    r
}

/// The trash directory name is one well-formed segment.
proof fn lemma_trash_seg()
    ensures
        seg_ok(trash_dir()),
        valid_rel_path(trash_dir()),
{
    assert(trash_dir().len() == 5);
    assert(forall|i: int| 0 <= i < 5 ==> trash_dir()[i] != SEP) by {
        assert(trash_dir()[0] == 116 && trash_dir()[1] == 114 && trash_dir()[2] == 97
            && trash_dir()[3] == 115 && trash_dir()[4] == 104);
    }
    assert(trash_dir() != seq![DOT] && trash_dir() != seq![DOT, DOT]);
    lemma_seg_valid(trash_dir());
}

impl FileVault {
    /// Deletes a file: a file already in the trash is removed for good; any
    /// other file is moved into the trash under its base name (overwriting a
    /// same-named trash entry), and the emptied directories above it are
    /// pruned. A rejected path is forbidden; a missing file, and a trash
    /// slot blocked by a file named like the trash directory or by a
    /// directory at the destination, report no content with nothing changed.
    #[verifier::rlimit(100)]
    pub fn delete_file(&mut self, file_path: &[u8]) -> (o: DeleteOutcome)
        requires
            old(self).wf(),
        ensures
            final(self).wf(),
            final(self).spec_username() == old(self).spec_username(),
            ({
                let p = file_path@;
                let dest = join(trash_dir(), base_of(p));
                if !valid_rel_path(p) {
                    &&& o.status == VaultStatus::Forbidden
                    &&& final(self).fmap() == old(self).fmap()
                    &&& final(self).dset() == old(self).dset()
                    &&& o.trashed_to is None
                    &&& o.pruned@.len() == 0
                } else if !old(self).fmap().contains_key(p) {
                    &&& o.status == VaultStatus::NoContent
                    &&& final(self).fmap() == old(self).fmap()
                    &&& final(self).dset() == old(self).dset()
                    &&& o.trashed_to is None
                    &&& o.pruned@.len() == 0
                } else if in_trash(p) {
                    &&& o.status == VaultStatus::Success
                    &&& final(self).fmap() == old(self).fmap().remove(p)
                    &&& final(self).dset() == old(self).dset()
                    &&& o.trashed_to is None
                    &&& o.pruned@.len() == 0
                } else if old(self).fmap().contains_key(trash_dir()) || old(self).dset().contains(
                    dest,
                ) {
                    &&& o.status == VaultStatus::NoContent
                    &&& final(self).fmap() == old(self).fmap()
                    &&& final(self).dset() == old(self).dset()
                    &&& o.trashed_to is None
                    &&& o.pruned@.len() == 0
                } else {
                    &&& o.status == VaultStatus::Success
                    &&& o.trashed_to matches Some(t) && t@ == dest
                    &&& final(self).fmap() == old(self).fmap().remove(p).insert(
                        dest,
                        old(self).fmap()[p],
                    )
                    &&& final(self).dset().contains(trash_dir())
                    &&& forall|d: Seq<u8>|
                        final(self).dset().contains(d) ==> old(self).dset().contains(d) || d
                            == trash_dir()
                    &&& forall|d: Seq<u8>|
                        old(self).dset().contains(d) && !final(self).dset().contains(d) ==> (d
                            == parent_of(p) || dir_prefix(d, parent_of(p)))
                            && !final(self).nonempty_dir(d)
                    &&& crate::paths::has_sep(p) ==> forall|d: Seq<u8>|
                        final(self).dset().contains(d) && (d == parent_of(p) || dir_prefix(
                            d,
                            parent_of(p),
                        )) ==> final(self).nonempty_dir(d)
                    &&& forall|i: int|
                        0 <= i < o.pruned@.len() ==> old(self).dset().contains(
                            #[trigger] o.pruned@[i]@,
                        ) && !final(self).dset().contains(o.pruned@[i]@)
                    &&& forall|d: Seq<u8>|
                        old(self).dset().contains(d) && !final(self).dset().contains(d)
                            ==> exists|i: int| 0 <= i < o.pruned@.len() && o.pruned@[i]@ == d
                    &&& forall|i: int, j: int|
                        0 <= i < j < o.pruned@.len() ==> dir_prefix(
                            #[trigger] o.pruned@[j]@,
                            #[trigger] o.pruned@[i]@,
                        )
                }
            }),
    {
        if !check_rel_path(file_path) {
            return DeleteOutcome {
                status: VaultStatus::Forbidden,
                trashed_to: None,
                pruned: Vec::new(),
            };
        }
        let i = match self.find_file(file_path) {
            None => {
                return DeleteOutcome {
                    status: VaultStatus::NoContent,
                    trashed_to: None,
                    pruned: Vec::new(),
                };
            },
            Some(i) => i,
        };
        if check_in_trash(file_path) {
            let _ = self.remove_file_at(i);
            return DeleteOutcome {
                status: VaultStatus::Success,
                trashed_to: None,
                pruned: Vec::new(),
            };
        }
        let trash = trash_name();
        if let Some(_) = self.find_file(trash.as_slice()) {
            return DeleteOutcome {
                status: VaultStatus::NoContent,
                trashed_to: None,
                pruned: Vec::new(),
            };
        }
        // the base name of the source, and the destination under the trash
        let ghost p = file_path@;
        let plen = file_path.len();
        let base_start: usize = match find_last_sep(file_path) {
            Some(k) => {
                proof {
                    lemma_split_valid(p);
                    assert(k < plen);
                }
                k + 1
            },
            None => {
                proof {
                    crate::paths::lemma_no_sep_seg(p);
                }
                0
            },
        };
        let mut dest = trash_name();
        dest.push(SEP);
        let mut t: usize = base_start;
        while t < file_path.len()
            invariant
                base_start <= t <= file_path@.len(),
                dest@ == trash_dir() + seq![SEP] + file_path@.subrange(
                    base_start as int,
                    t as int,
                ),
            decreases file_path@.len() - t,
        {
            dest.push(file_path[t]);
            assert(dest@ =~= trash_dir() + seq![SEP] + file_path@.subrange(
                base_start as int,
                t + 1 as int,
            ));
            t = t + 1;
        }
        proof {
            assert(file_path@.subrange(base_start as int, file_path@.len() as int) =~= base_of(
                p,
            ));
            assert(dest@ == join(trash_dir(), base_of(p)));
            lemma_trash_seg();
            lemma_append_seg(trash_dir(), base_of(p));
        }
        if let Some(_) = self.find_dir(dest.as_slice()) {
            return DeleteOutcome {
                status: VaultStatus::NoContent,
                trashed_to: None,
                pruned: Vec::new(),
            };
        }
        let ghost pre = *self;
        let removed = self.remove_file_at(i);
        // make sure the trash directory exists
        if let None = self.find_dir(trash.as_slice()) {
            proof {
                assert forall|x: Seq<u8>| #[trigger] dir_prefix(x, trash_dir()) implies self
                    .dset().contains(x) by {
                    assert(trash_dir()[x.len() as int] != SEP);
                }
            }
            self.push_dir(trash_name());
        }
        proof {
            assert(self.dset().contains(trash_dir()));
            assert(forall|d: Seq<u8>|
                #[trigger] self.dset().contains(d) ==> pre.dset().contains(d) || d
                    == trash_dir());
            assert(forall|d: Seq<u8>|
                pre.dset().contains(d) ==> #[trigger] self.dset().contains(d));
        }
        // place the file under the trash, overwriting a same-named entry
        let trashed_to = bytes_to_vec(dest.as_slice());
        match self.find_file(dest.as_slice()) {
            Some(j) => {
                self.set_file_content(j, removed.content);
                proof {
                    assert(self.fmap() =~= pre.fmap().remove(p).insert(
                        dest@,
                        pre.fmap()[p],
                    ));
                }
            },
            None => {
                proof {
                    assert forall|x: Seq<u8>| #[trigger] dir_prefix(x, dest@) implies self.dset()
                        .contains(x) by {
                        assert(x == trash_dir() || dir_prefix(x, trash_dir()));
                    }
                }
                self.push_file(VaultFile { path: dest, content: removed.content });
                proof {
                    assert(self.fmap() =~= pre.fmap().remove(p).insert(
                        trashed_to@,
                        pre.fmap()[p],
                    ));
                }
            },
        }
        let ghost mid = *self;
        // prune the emptied directories above the old location
        let pruned: Vec<Vec<u8>> = match find_last_sep(file_path) {
            Some(k) => {
                let mut parent: Vec<u8> = Vec::new();
                let mut u: usize = 0;
                while u < k
                    invariant
                        0 <= u <= k,
                        k < file_path@.len(),
                        parent@ == file_path@.subrange(0, u as int),
                    decreases k - u,
                {
                    parent.push(file_path[u]);
                    assert(parent@ =~= file_path@.subrange(0, u + 1 as int));
                    u = u + 1;
                }
                proof {
                    lemma_split_valid(p);
                    assert(parent@ == parent_of(p));
                    // the parent of the removed file exists in the store
                    let fi = file_idx(pre.files@, p);
                    lemma_files_map_at(pre.files@, fi);
                    assert(dir_prefix(parent_of(p), pre.files@[fi].path@));
                    assert(pre.dset().contains(parent_of(p)));
                    assert(mid.dset().contains(parent_of(p)));
                }
                self.remove_directory_if_empty(parent.as_slice())
            },
            None => Vec::new(),
        };
        proof {
            let dest_v = join(trash_dir(), base_of(p));
            // the trash directory now shelters the moved file, so the prune
            // can never have removed it
            assert(mid.fmap().contains_key(dest_v));
            assert(self.fmap() == mid.fmap());
            assert(dest_v.len() > 5);
            assert(dest_v.subrange(0, 5) =~= trash_dir());
            assert(dest_v[5] == SEP);
            assert(dir_prefix(trash_dir(), dest_v));
            if !self.dset().contains(trash_dir()) {
                assert(self.fmap().contains_key(dest_v) && dir_prefix(trash_dir(), dest_v));
                assert(self.nonempty_dir(trash_dir()));
                assert(mid.dset().contains(trash_dir()));
                assert(mid.dset().contains(trash_dir()) && !self.dset().contains(trash_dir()));
                assert(!self.nonempty_dir(trash_dir()));
                assert(false);
            }
            if crate::paths::has_sep(p) {
                assert(parent_of(p) != trash_dir() && !dir_prefix(trash_dir(), parent_of(p))
                    || true);
            }
            // every pruned directory already existed before the move
            assert forall|d: Seq<u8>|
                pre.dset().contains(d) && !self.dset().contains(d) implies (d == parent_of(p)
                || dir_prefix(d, parent_of(p))) && !self.nonempty_dir(d) by {
                assert(mid.dset().contains(d));
            }
            assert forall|i: int|
                0 <= i < pruned@.len() implies pre.dset().contains(#[trigger] pruned@[i]@)
                && !self.dset().contains(pruned@[i]@) by {
                assert(mid.dset().contains(pruned@[i]@));
                assert(pruned@[i]@ != trash_dir());
            }
            assert forall|d: Seq<u8>|
                pre.dset().contains(d) && !self.dset().contains(d) implies exists|i: int|
                0 <= i < pruned@.len() && pruned@[i]@ == d by {
                assert(mid.dset().contains(d));
            }
        }
        let o = DeleteOutcome { status: VaultStatus::Success, trashed_to: Some(trashed_to), pruned };
        proof {
            assert(o.pruned@ == pruned@);
            assert forall|d: Seq<u8>|
                pre.dset().contains(d) && !self.dset().contains(d) implies exists|i: int|
                0 <= i < o.pruned@.len() && o.pruned@[i]@ == d by {
                assert(exists|i: int| 0 <= i < pruned@.len() && pruned@[i]@ == d);
                let w = choose|i: int| 0 <= i < pruned@.len() && pruned@[i]@ == d;
                assert(0 <= w < o.pruned@.len() && o.pruned@[w]@ == d);
            }
        }
        o
    }
}

/// The outcome of a move: the status, the directories created under the
/// destination (shallowest first), and the emptied source directories
/// removed (deepest first).
pub struct MoveOutcome {
    pub status: VaultStatus,
    pub made_dirs: Vec<Vec<u8>>,
    pub pruned: Vec<Vec<u8>>,
}

impl FileVault {
    /// Moves a file anywhere inside the sandbox, creating intermediate
    /// destination directories as needed and overwriting a file already at
    /// the destination, as the underlying rename would. Afterwards the
    /// emptied directories above the old location are pruned. Either path
    /// being rejected is forbidden; a missing source reports no content; a
    /// file blocking a destination directory, or a directory sitting at the
    /// destination itself, fail the call.
    #[verifier::rlimit(100)]
    pub fn move_file(&mut self, old_file_path: &[u8], new_file_path: &[u8]) -> (o: MoveOutcome)
        requires
            old(self).wf(),
        ensures
            final(self).wf(),
            final(self).spec_username() == old(self).spec_username(),
            ({
                let p = old_file_path@;
                let q = new_file_path@;
                if !valid_rel_path(p) || (old(self).fmap().contains_key(p) && !valid_rel_path(
                    q,
                )) {
                    &&& o.status == VaultStatus::Forbidden
                    &&& final(self).fmap() == old(self).fmap()
                    &&& final(self).dset() == old(self).dset()
                    &&& o.made_dirs@.len() == 0
                    &&& o.pruned@.len() == 0
                } else if !old(self).fmap().contains_key(p) {
                    &&& o.status == VaultStatus::NoContent
                    &&& final(self).fmap() == old(self).fmap()
                    &&& final(self).dset() == old(self).dset()
                    &&& o.made_dirs@.len() == 0
                    &&& o.pruned@.len() == 0
                } else if exists|x: Seq<u8>|
                    #[trigger] dir_prefix(x, q) && old(self).fmap().contains_key(x) {
                    &&& o.status == VaultStatus::ExpectationFailed
                    &&& final(self).fmap() == old(self).fmap()
                    &&& final(self).dset() == old(self).dset()
                    &&& o.made_dirs@.len() == 0
                    &&& o.pruned@.len() == 0
                } else if old(self).dset().contains(q) {
                    &&& o.status == VaultStatus::ExpectationFailed
                    &&& final(self).fmap() == old(self).fmap()
                    &&& forall|d: Seq<u8>|
                        #[trigger] final(self).dset().contains(d) <==> old(self).dset().contains(
                            d,
                        ) || dir_prefix(d, q)
                    &&& o.pruned@.len() == 0
                } else {
                    &&& o.status == VaultStatus::Success
                    &&& final(self).fmap() == old(self).fmap().remove(p).insert(
                        q,
                        old(self).fmap()[p],
                    )
                    &&& forall|d: Seq<u8>|
                        #[trigger] final(self).dset().contains(d) ==> old(self).dset().contains(
                            d,
                        ) || dir_prefix(d, q)
                    &&& forall|d: Seq<u8>|
                        #[trigger] dir_prefix(d, q) ==> final(self).dset().contains(d)
                    &&& forall|d: Seq<u8>|
                        #![trigger old(self).dset().contains(d), final(self).dset().contains(d)]
                        old(self).dset().contains(d) && !final(self).dset().contains(d) ==> (d
                            == parent_of(p) || dir_prefix(d, parent_of(p)))
                            && !final(self).nonempty_dir(d)
                    &&& crate::paths::has_sep(p) ==> forall|d: Seq<u8>|
                        #![trigger final(self).dset().contains(d)]
                        final(self).dset().contains(d) && (d == parent_of(p) || dir_prefix(
                            d,
                            parent_of(p),
                        )) ==> final(self).nonempty_dir(d)
                    &&& forall|i: int|
                        0 <= i < o.pruned@.len() ==> old(self).dset().contains(
                            #[trigger] o.pruned@[i]@,
                        ) && !final(self).dset().contains(o.pruned@[i]@)
                    &&& forall|d: Seq<u8>|
                        #![trigger old(self).dset().contains(d), final(self).dset().contains(d)]
                        old(self).dset().contains(d) && !final(self).dset().contains(d)
                            ==> exists|i: int| 0 <= i < o.pruned@.len() && o.pruned@[i]@ == d
                    &&& forall|i: int, j: int|
                        0 <= i < j < o.pruned@.len() ==> dir_prefix(
                            #[trigger] o.pruned@[j]@,
                            #[trigger] o.pruned@[i]@,
                        )
                    &&& forall|i: int|
                        0 <= i < o.made_dirs@.len() ==> dir_prefix(#[trigger] o.made_dirs@[i]@, q)
                            && !old(self).dset().contains(o.made_dirs@[i]@)
                    &&& forall|d: Seq<u8>|
                        #[trigger] dir_prefix(d, q) && !old(self).dset().contains(d)
                            ==> exists|i: int| 0 <= i < o.made_dirs@.len() && o.made_dirs@[i]@
                            == d
                    &&& forall|i: int, j: int|
                        0 <= i < j < o.made_dirs@.len() ==> dir_prefix(
                            #[trigger] o.made_dirs@[i]@,
                            #[trigger] o.made_dirs@[j]@,
                        )
                }
            }),
    {
        if !check_rel_path(old_file_path) {
            return MoveOutcome {
                status: VaultStatus::Forbidden,
                made_dirs: Vec::new(),
                pruned: Vec::new(),
            };
        }
        if self.find_file(old_file_path).is_none() {
            return MoveOutcome {
                status: VaultStatus::NoContent,
                made_dirs: Vec::new(),
                pruned: Vec::new(),
            };
        }
        if !check_rel_path(new_file_path) {
            return MoveOutcome {
                status: VaultStatus::Forbidden,
                made_dirs: Vec::new(),
                pruned: Vec::new(),
            };
        }
        let ghost p = old_file_path@;
        let ghost q = new_file_path@;
        let qn = new_file_path.len();
        // first pass: no file may block a destination directory
        let mut t: usize = 0;
        while t < qn
            invariant
                0 <= t <= qn,
                qn == q.len(),
                self.wf(),
                q == new_file_path@,
                p == old_file_path@,
                valid_rel_path(p),
                valid_rel_path(q),
                self.fmap() == old(self).fmap(),
                self.dset() == old(self).dset(),
                self.spec_username() == old(self).spec_username(),
                self.fmap().contains_key(p),
                forall|d: Seq<u8>|
                    #[trigger] dir_prefix(d, q) && d.len() < t ==> !self.fmap().contains_key(d),
            decreases qn - t,
        {
            if new_file_path[t] == SEP {
                let mut prefix: Vec<u8> = Vec::new();
                let mut u: usize = 0;
                while u < t
                    invariant
                        0 <= u <= t,
                        t < qn,
                        qn == q.len(),
                        q == new_file_path@,
                        prefix@ == q.subrange(0, u as int),
                    decreases t - u,
                {
                    prefix.push(new_file_path[u]);
                    assert(prefix@ =~= q.subrange(0, u + 1 as int));
                    u = u + 1;
                }
                if let Some(_) = self.find_file(prefix.as_slice()) {
                    proof {
                        assert(q.subrange(0, t as int) == prefix@);
                        assert(dir_prefix(prefix@, q));
                    }
                    return MoveOutcome {
                        status: VaultStatus::ExpectationFailed,
                        made_dirs: Vec::new(),
                        pruned: Vec::new(),
                    };
                }
                proof {
                    assert forall|d: Seq<u8>|
                        #[trigger] dir_prefix(d, q) && d.len() < t + 1 implies !self.fmap()
                        .contains_key(d) by {
                        if d.len() == t {
                            assert(d =~= prefix@) by {
                                assert(forall|w: int|
                                    0 <= w < d.len() ==> q.subrange(0, d.len() as int)[w]
                                        == q[w]);
                            }
                        }
                    }
                }
            } else {
                proof {
                    assert forall|d: Seq<u8>|
                        #[trigger] dir_prefix(d, q) && d.len() < t + 1 implies !self.fmap()
                        .contains_key(d) by {
                        if d.len() == t {
                            assert(q[d.len() as int] != SEP);
                        }
                    }
                }
            }
            t = t + 1;
        }
        proof {
            assert forall|x: Seq<u8>|
                #[trigger] dir_prefix(x, q) implies !self.fmap().contains_key(x) by {
                assert(x.len() < qn);
            }
        }
        // second pass: create the missing destination directories in order
        let ghost pre = *self;
        let mut made_dirs: Vec<Vec<u8>> = Vec::new();
        let mut t2: usize = 0;
        while t2 < qn
            invariant
                0 <= t2 <= qn,
                qn == q.len(),
                q == new_file_path@,
                valid_rel_path(q),
                self.wf(),
                pre.wf(),
                self.spec_username() == pre.spec_username(),
                self.fmap() == pre.fmap(),
                forall|d: Seq<u8>| #[trigger] dir_prefix(d, q) ==> !self.fmap().contains_key(d),
                forall|d: Seq<u8>|
                    #[trigger] self.dset().contains(d) ==> pre.dset().contains(d) || dir_prefix(
                        d,
                        q,
                    ),
                forall|d: Seq<u8>| pre.dset().contains(d) ==> #[trigger] self.dset().contains(d),
                forall|d: Seq<u8>|
                    #[trigger] self.dset().contains(d) && !pre.dset().contains(d) ==> exists|
                        i: int,
                    | 0 <= i < made_dirs@.len() && made_dirs@[i]@ == d,
                forall|d: Seq<u8>|
                    #[trigger] dir_prefix(d, q) && d.len() < t2 ==> self.dset().contains(d),
                forall|i: int|
                    0 <= i < made_dirs@.len() ==> dir_prefix(#[trigger] made_dirs@[i]@, q)
                        && !pre.dset().contains(made_dirs@[i]@) && made_dirs@[i]@.len() < t2
                        && self.dset().contains(made_dirs@[i]@),
                forall|d: Seq<u8>|
                    #[trigger] dir_prefix(d, q) && !pre.dset().contains(d) && d.len() < t2
                        ==> exists|i: int| 0 <= i < made_dirs@.len() && made_dirs@[i]@ == d,
                forall|i: int, j: int|
                    0 <= i < j < made_dirs@.len() ==> made_dirs@[i]@.len() < made_dirs@[j]@.len(),
            decreases qn - t2,
        {
            if new_file_path[t2] == SEP {
                let mut prefix: Vec<u8> = Vec::new();
                let mut u: usize = 0;
                while u < t2
                    invariant
                        0 <= u <= t2,
                        t2 < qn,
                        qn == q.len(),
                        q == new_file_path@,
                        prefix@ == q.subrange(0, u as int),
                    decreases t2 - u,
                {
                    prefix.push(new_file_path[u]);
                    assert(prefix@ =~= q.subrange(0, u + 1 as int));
                    u = u + 1;
                }
                proof {
                    assert(q.subrange(0, t2 as int) == prefix@);
                    assert(dir_prefix(prefix@, q));
                    lemma_prefix_valid(prefix@, q);
                }
                if self.find_dir(prefix.as_slice()).is_none() {
                    proof {
                        assert forall|x: Seq<u8>| #[trigger] dir_prefix(x, prefix@) implies self
                            .dset().contains(x) by {
                            crate::paths::lemma_dir_prefix_trans(x, prefix@, q);
                        }
                    }
                    let ghost made0 = made_dirs@;
                    let copy = bytes_to_vec(prefix.as_slice());
                    self.push_dir(prefix);
                    made_dirs.push(copy);
                    proof {
                        assert(made_dirs@.len() == made0.len() + 1);
                        assert(forall|k: int| 0 <= k < made0.len() ==> made_dirs@[k] == made0[k]);
                        assert(made_dirs@[made0.len() as int]@ == q.subrange(0, t2 as int));
                    }
                }
                proof {
                    assert forall|d: Seq<u8>|
                        #[trigger] dir_prefix(d, q) && d.len() < t2 + 1 implies self.dset()
                        .contains(d) by {
                        if d.len() == t2 {
                            assert(d =~= q.subrange(0, t2 as int)) by {
                                assert(forall|w: int|
                                    0 <= w < d.len() ==> q.subrange(0, d.len() as int)[w]
                                        == q[w]);
                            }
                        }
                    }
                    assert forall|d: Seq<u8>|
                        #[trigger] dir_prefix(d, q) && !pre.dset().contains(d) && d.len() < t2
                            + 1 implies exists|i: int|
                        0 <= i < made_dirs@.len() && made_dirs@[i]@ == d by {
                        if d.len() == t2 {
                            assert(d =~= q.subrange(0, t2 as int)) by {
                                assert(forall|w: int|
                                    0 <= w < d.len() ==> q.subrange(0, d.len() as int)[w]
                                        == q[w]);
                            }
                            assert(self.dset().contains(d) && !pre.dset().contains(d));
                        }
                    }
                }
            } else {
                proof {
                    assert forall|d: Seq<u8>|
                        #[trigger] dir_prefix(d, q) && d.len() < t2 + 1 implies self.dset()
                        .contains(d) by {
                        if d.len() == t2 {
                            assert(q[d.len() as int] != SEP);
                        }
                    }
                    assert forall|d: Seq<u8>|
                        #[trigger] dir_prefix(d, q) && !pre.dset().contains(d) && d.len() < t2
                            + 1 implies exists|i: int|
                        0 <= i < made_dirs@.len() && made_dirs@[i]@ == d by {
                        if d.len() == t2 {
                            assert(q[d.len() as int] != SEP);
                        }
                    }
                }
            }
            t2 = t2 + 1;
        }
        proof {
            assert(forall|x: Seq<u8>| #[trigger] dir_prefix(x, q) ==> x.len() < qn);
        }
        // a directory at the destination itself blocks the rename
        if let Some(_) = self.find_dir(new_file_path) {
            proof {
                assert(pre.dset().contains(q)) by {
                    if !pre.dset().contains(q) {
                        assert(dir_prefix(q, q));
                    }
                }
            }
            return MoveOutcome {
                status: VaultStatus::ExpectationFailed,
                made_dirs,
                pruned: Vec::new(),
            };
        }
        proof {
            assert(!pre.dset().contains(q));
        }
        // move the file, overwriting a file already at the destination
        // the store still holds the source file: the directory pass left
        // the file map untouched
        let i2 = match self.find_file(old_file_path) {
            Some(i2) => i2,
            None => {
                proof {
                    assert(false);
                }
                return MoveOutcome {
                    status: VaultStatus::NoContent,
                    made_dirs: Vec::new(),
                    pruned: Vec::new(),
                };
            },
        };
        let removed = self.remove_file_at(i2);
        match self.find_file(new_file_path) {
            Some(j) => {
                self.set_file_content(j, removed.content);
                proof {
                    assert(self.fmap() =~= pre.fmap().remove(p).insert(q, pre.fmap()[p]));
                }
            },
            None => {
                let path = bytes_to_vec(new_file_path);
                self.push_file(VaultFile { path, content: removed.content });
                proof {
                    assert(self.fmap() =~= pre.fmap().remove(p).insert(q, pre.fmap()[p]));
                }
            },
        }
        let ghost mid = *self;
        // prune the emptied directories above the old location
        let pruned: Vec<Vec<u8>> = match find_last_sep(old_file_path) {
            Some(k) => {
                let mut parent: Vec<u8> = Vec::new();
                let mut u: usize = 0;
                while u < k
                    invariant
                        0 <= u <= k,
                        k < old_file_path@.len(),
                        p == old_file_path@,
                        parent@ == p.subrange(0, u as int),
                    decreases k - u,
                {
                    parent.push(old_file_path[u]);
                    assert(parent@ =~= p.subrange(0, u + 1 as int));
                    u = u + 1;
                }
                proof {
                    lemma_split_valid(p);
                    assert(parent@ == parent_of(p));
                    let fi = file_idx(pre.files@, p);
                    lemma_files_map_at(pre.files@, fi);
                    assert(dir_prefix(parent_of(p), pre.files@[fi].path@));
                    assert(pre.dset().contains(parent_of(p)));
                    assert(mid.dset().contains(parent_of(p)));
                }
                self.remove_directory_if_empty(parent.as_slice())
            },
            None => Vec::new(),
        };
        proof {
            // no directory above the destination can have been pruned: the
            // moved file now sits under every one of them
            assert(mid.fmap().contains_key(q));
            assert(self.fmap() == mid.fmap());
            assert forall|d: Seq<u8>| #[trigger] dir_prefix(d, q) implies self.dset().contains(
                d,
            ) by {
                assert(mid.dset().contains(d));
                if !self.dset().contains(d) {
                    assert(!self.nonempty_dir(d));
                    assert(self.fmap().contains_key(q) && dir_prefix(d, q));
                    assert(false);
                }
            }
            assert forall|d: Seq<u8>|
                pre.dset().contains(d) && !self.dset().contains(d) implies (d == parent_of(p)
                || dir_prefix(d, parent_of(p))) && !self.nonempty_dir(d) by {
                assert(mid.dset().contains(d));
            }
            assert forall|i: int|
                0 <= i < pruned@.len() implies pre.dset().contains(#[trigger] pruned@[i]@)
                && !self.dset().contains(pruned@[i]@) by {
                assert(mid.dset().contains(pruned@[i]@));
                if !pre.dset().contains(pruned@[i]@) {
                    assert(dir_prefix(pruned@[i]@, q));
                    assert(self.dset().contains(pruned@[i]@));
                }
            }
        }
        let o = MoveOutcome { status: VaultStatus::Success, made_dirs, pruned };
        proof {
            assert(o.pruned@ == pruned@);
            assert(o.made_dirs@ == made_dirs@);
            assert forall|d: Seq<u8>|
                pre.dset().contains(d) && !self.dset().contains(d) implies exists|i: int|
                0 <= i < o.pruned@.len() && o.pruned@[i]@ == d by {
                assert(mid.dset().contains(d));
                assert(exists|i: int| 0 <= i < pruned@.len() && pruned@[i]@ == d);
                let w = choose|i: int| 0 <= i < pruned@.len() && pruned@[i]@ == d;
                assert(0 <= w < o.pruned@.len() && o.pruned@[w]@ == d);
            }
            assert forall|d: Seq<u8>|
                #[trigger] dir_prefix(d, q) && !pre.dset().contains(d) implies exists|i: int|
                0 <= i < o.made_dirs@.len() && o.made_dirs@[i]@ == d by {
                assert(d.len() < qn);
                assert(exists|i: int| 0 <= i < made_dirs@.len() && made_dirs@[i]@ == d);
                let w = choose|i: int| 0 <= i < made_dirs@.len() && made_dirs@[i]@ == d;
                assert(0 <= w < o.made_dirs@.len() && o.made_dirs@[w]@ == d);
            }
            assert forall|i: int, j: int|
                0 <= i < j < o.made_dirs@.len() implies dir_prefix(
                #[trigger] o.made_dirs@[i]@,
                #[trigger] o.made_dirs@[j]@,
            ) by {
                assert(dir_prefix(made_dirs@[i]@, q) && dir_prefix(made_dirs@[j]@, q));
                assert(made_dirs@[i]@.len() < made_dirs@[j]@.len());
                crate::paths::lemma_prefix_trichotomy(made_dirs@[i]@, made_dirs@[j]@, q);
            }
        }
        o
    }
}

/// The absolute root of one user's sandbox: the storage root, a separator,
/// then the username.
pub fn user_root(storage_root: &[u8], username: &[u8]) -> (r: Vec<u8>)
    ensures
        r@ == storage_root@ + seq![SEP] + username@,
{
    let mut r = bytes_to_vec(storage_root);
    r.push(SEP);
    let mut i: usize = 0;
    while i < username.len()
        invariant
            0 <= i <= username@.len(),
            r@ == storage_root@ + seq![SEP] + username@.subrange(0, i as int),
        decreases username@.len() - i,
    {
        r.push(username[i]);
        assert(r@ =~= storage_root@ + seq![SEP] + username@.subrange(0, i + 1 as int));
        i = i + 1;
    }
    proof {
        assert(username@.subrange(0, username@.len() as int) =~= username@);
    }
    r
}

/// Law: writing a file and then listing the store names its sanitized path
/// exactly once, and reading that path back gives the bytes written. The
/// hypotheses are what `post_file_from_form` promises of the store and what
/// `get_files` promises of a listing taken from it.
pub proof fn lemma_write_round_trip(
    m: Map<Seq<u8>, Seq<u8>>,
    name: Seq<u8>,
    content: Seq<u8>,
    listing: Seq<Seq<u8>>,
)
    requires
        forall|i: int|
            0 <= i < listing.len() ==> m.insert(sanitize_spec(name), content).contains_key(
                #[trigger] listing[i],
            ),
        forall|p: Seq<u8>|
            m.insert(sanitize_spec(name), content).contains_key(p) ==> exists|i: int|
                0 <= i < listing.len() && listing[i] == p,
        forall|i: int, j: int| 0 <= i < j < listing.len() ==> listing[i] != listing[j],
    ensures
        m.insert(sanitize_spec(name), content)[sanitize_spec(name)] == content,
        exists|i: int| 0 <= i < listing.len() && listing[i] == sanitize_spec(name),
        forall|i: int, j: int|
            0 <= i < listing.len() && 0 <= j < listing.len() && listing[i] == sanitize_spec(name)
                && listing[j] == sanitize_spec(name) ==> i == j,
{
    assert(m.insert(sanitize_spec(name), content).contains_key(sanitize_spec(name)));
    assert forall|i: int, j: int|
        0 <= i < listing.len() && 0 <= j < listing.len() && listing[i] == sanitize_spec(name)
            && listing[j] == sanitize_spec(name) implies i == j by {
        if i < j {
            assert(listing[i] != listing[j]);
        } else if j < i {
            assert(listing[j] != listing[i]);
        }
    }
}

/// Law: the first delete of a trashed file removes it for good, so a second
/// delete of the same path finds nothing. `delete_file` promises exactly the
/// store `m.remove(p)` for a trashed path, and reports no content on a path
/// it does not hold.
pub proof fn lemma_trash_delete_idempotent(m: Map<Seq<u8>, Seq<u8>>, p: Seq<u8>)
    requires
        m.contains_key(p),
    ensures
        !m.remove(p).contains_key(p),
{
}

} // verus!
