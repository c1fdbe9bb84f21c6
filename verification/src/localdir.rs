//! The sync directory as the reconciler sees it: a set of regular
//! files keyed by their sync-root-relative path, each with its bytes.
//!
//! Reading, writing and renaming real files is the caller's concern;
//! the reconciler's decisions and the download commit protocol are
//! verified against this view.

use vstd::prelude::*;

use crate::table::{at_most_one, lemma_sel_absent, lemma_sel_present, lemma_sel_remove,
    lemma_sel_push, lemma_sel_update, sel};
use crate::SyncError;

verus! {

/// One regular file under the sync root.
#[derive(Debug)]
pub struct LocalFile {
    /// The sync-root-relative path, with its leading separator.
    pub path: String,
    pub content: Vec<u8>,
}

/// Matches the file keyed by `path`.
pub open spec fn l_by_path(p: Seq<char>) -> spec_fn(LocalFile) -> bool {
    |f: LocalFile| f.path@ == p
}

/// The file at `path`, if any.
pub open spec fn l_find(rows: Seq<LocalFile>, p: Seq<char>) -> Option<LocalFile> {
    sel(rows, l_by_path(p))
}

/// Copy a byte vector.
pub fn copy_bytes(src: &Vec<u8>) -> (r: Vec<u8>)
    ensures
        r@ == src@,
{
    let mut r: Vec<u8> = Vec::new();
    crate::hashing::append_bytes(&mut r, src.as_slice());
    proof {
        assert(r@ =~= src@);
    }
    r
}

/// The modelled sync directory.
#[derive(Debug)]
pub struct LocalDir {
    pub files: Vec<LocalFile>,
}

impl LocalDir {
    /// Paths are unique, absolute-style, and every file fits the
    /// transfer protocol's size counter.
    pub open spec fn wf(self) -> bool {
        &&& forall|i: int, k: int|
            #![trigger self.files@[i], self.files@[k]]
            0 <= i < self.files@.len() && 0 <= k < self.files@.len() && i != k
                ==> self.files@[i].path@ != self.files@[k].path@
        &&& forall|i: int|
            0 <= i < self.files@.len() ==> {
                let f = #[trigger] self.files@[i];
                f.path@.len() > 0 && f.path@[0] == '/' && f.content@.len() <= u64::MAX
            }
    }

    pub proof fn lemma_unique_path(self, p: Seq<char>)
        requires
            self.wf(),
        ensures
            at_most_one(self.files@, l_by_path(p)),
    {
        assert forall|i: int, k: int|
            0 <= i < self.files@.len() && 0 <= k < self.files@.len() && #[trigger] l_by_path(p)(
                self.files@[i],
            ) && #[trigger] l_by_path(p)(self.files@[k]) implies i == k by {
            if i != k {
                assert(self.files@[i].path@ != self.files@[k].path@);
            }
        }
    }

    /// An empty directory.
    pub fn new() -> (r: LocalDir)
        ensures
            r.wf(),
            r.files@.len() == 0,
    {
        LocalDir { files: Vec::new() }
    }

    /// The index of the file at `path`, if any.
    fn find_idx(&self, path: &str) -> (r: Option<usize>)
        ensures
            match r {
                Some(i) => i < self.files@.len() && self.files@[i as int].path@ == path@,
                None => forall|k: int|
                    0 <= k < self.files@.len() ==> (#[trigger] self.files@[k].path)@ != path@,
            },
    {
        let mut i: usize = 0;
        while i < self.files.len()
            invariant
                0 <= i <= self.files@.len(),
                forall|k: int| 0 <= k < i ==> (#[trigger] self.files@[k].path)@ != path@,
            decreases self.files@.len() - i,
        {
            if crate::paths::str_eq_chars(self.files[i].path.as_str(), path) {
                return Some(i);
            }
            i += 1;
        }
        None
    }

    /// Does a file exist at `path`?
    pub fn has(&self, path: &str) -> (r: bool)
        requires
            self.wf(),
        ensures
            r == (l_find(self.files@, path@) is Some),
    {
        proof {
            self.lemma_unique_path(path@);
        }
        match self.find_idx(path) {
            Some(i) => {
                proof {
                    lemma_sel_present(self.files@, l_by_path(path@), i as int);
                }
                true
            }
            None => {
                proof {
                    lemma_sel_absent(self.files@, l_by_path(path@));
                }
                false
            }
        }
    }

    /// The bytes of the file at `path`, if any.
    pub fn read(&self, path: &str) -> (r: Option<Vec<u8>>)
        requires
            self.wf(),
        ensures
            match r {
                Some(c) => l_find(self.files@, path@) is Some && c@ == l_find(
                    self.files@,
                    path@,
                ).unwrap().content@,
                None => l_find(self.files@, path@) is None,
            },
    {
        proof {
            self.lemma_unique_path(path@);
        }
        match self.find_idx(path) {
            Some(i) => {
                proof {
                    lemma_sel_present(self.files@, l_by_path(path@), i as int);
                }
                Some(copy_bytes(&self.files[i].content))
            }
            None => {
                proof {
                    lemma_sel_absent(self.files@, l_by_path(path@));
                }
                None
            }
        }
    }

    /// Write a file: create it, or replace its bytes.
    pub fn write(&mut self, path: &str, content: Vec<u8>) -> (r: ())
        requires
            old(self).wf(),
            path@.len() > 0,
            path@[0] == '/',
            content@.len() <= u64::MAX,
        ensures
            final(self).wf(),
            l_find(final(self).files@, path@) is Some,
            l_find(final(self).files@, path@).unwrap().path@ == path@,
            l_find(final(self).files@, path@).unwrap().content == content,
            forall|q: Seq<char>|
                q != path@ ==> #[trigger] l_find(final(self).files@, q) == l_find(
                    old(self).files@,
                    q,
                ),
    {
        proof {
            self.lemma_unique_path(path@);
        }
        match self.find_idx(path) {
            Some(i) => {
                proof {
                    lemma_sel_present(self.files@, l_by_path(path@), i as int);
                }
                let ghost old_rows = self.files@;
                let ghost old_f = self.files@[i as int];
                let mut f = self.files.remove(i);
                f.content = content;
                let ghost new_f = f;
                self.files.insert(i, f);
                proof {
                    let rows = self.files@;
                    assert(rows =~= old_rows.update(i as int, new_f));
                    assert forall|a: int, b: int|
                        0 <= a < rows.len() && 0 <= b < rows.len() && a != b
                        implies #[trigger] rows[a].path@ != #[trigger] rows[b].path@ by {
                        assert(rows[a] == if a == i as int { new_f } else { old_rows[a] });
                        assert(rows[b] == if b == i as int { new_f } else { old_rows[b] });
                    }
                    assert forall|q: Seq<char>| q != path@ implies #[trigger] l_find(rows, q)
                        == l_find(old_rows, q) by {
                        old(self).lemma_unique_path(q);
                        lemma_sel_update(old_rows, l_by_path(q), i as int, new_f);
                        assert(!(l_by_path(q)(old_f)));
                        assert(!(l_by_path(q)(new_f)));
                    }
                    lemma_sel_update(old_rows, l_by_path(path@), i as int, new_f);
                }
            }
            None => {
                proof {
                    lemma_sel_absent(self.files@, l_by_path(path@));
                }
                let ghost old_rows = self.files@;
                let f = LocalFile { path: path.to_owned(), content };
                let ghost new_f = f;
                self.files.push(f);
                proof {
                    let rows = self.files@;
                    assert forall|a: int, b: int|
                        0 <= a < rows.len() && 0 <= b < rows.len() && a != b
                        implies #[trigger] rows[a].path@ != #[trigger] rows[b].path@ by {
                        if a < old_rows.len() && b < old_rows.len() {
                        } else if a < old_rows.len() {
                            assert(rows[b] == new_f);
                        } else {
                            assert(rows[a] == new_f);
                        }
                    }
                    assert forall|q: Seq<char>| q != path@ implies #[trigger] l_find(rows, q)
                        == l_find(old_rows, q) by {
                        old(self).lemma_unique_path(q);
                        lemma_sel_push(old_rows, l_by_path(q), new_f);
                        assert(!(l_by_path(q)(new_f)));
                    }
                    lemma_sel_push(old_rows, l_by_path(path@), new_f);
                }
            }
        }
    }

    /// Remove the file at `path`. Fails with `NotFound`, changing
    /// nothing, when no such file exists.
    pub fn remove(&mut self, path: &str) -> (r: Result<(), SyncError>)
        requires
            old(self).wf(),
        ensures
            final(self).wf(),
            r is Ok <==> l_find(old(self).files@, path@) is Some,
            r is Err ==> *final(self) == *old(self) && r == Err::<(), SyncError>(
                SyncError::NotFound,
            ),
            l_find(final(self).files@, path@) is None,
            forall|q: Seq<char>|
                q != path@ ==> #[trigger] l_find(final(self).files@, q) == l_find(
                    old(self).files@,
                    q,
                ),
    {
        proof {
            self.lemma_unique_path(path@);
        }
        match self.find_idx(path) {
            Some(i) => {
                proof {
                    lemma_sel_present(self.files@, l_by_path(path@), i as int);
                }
                let ghost old_rows = self.files@;
                let ghost gone = self.files@[i as int];
                self.files.remove(i);
                proof {
                    let rows = self.files@;
                    assert(rows == old_rows.remove(i as int));
                    assert forall|a: int, b: int|
                        0 <= a < rows.len() && 0 <= b < rows.len() && a != b
                        implies #[trigger] rows[a].path@ != #[trigger] rows[b].path@ by {
                        let ar = if a < i as int { a } else { a + 1 };
                        let br = if b < i as int { b } else { b + 1 };
                        assert(rows[a] == old_rows[ar]);
                        assert(rows[b] == old_rows[br]);
                    }
                    assert forall|i2: int| 0 <= i2 < rows.len() implies {
                        let f = #[trigger] rows[i2];
                        f.path@.len() > 0 && f.path@[0] == '/' && f.content@.len() <= u64::MAX
                    } by {
                        let ir = if i2 < i as int { i2 } else { i2 + 1 };
                        assert(rows[i2] == old_rows[ir]);
                    }
                    assert forall|q: Seq<char>| q != path@ implies #[trigger] l_find(rows, q)
                        == l_find(old_rows, q) by {
                        old(self).lemma_unique_path(q);
                        lemma_sel_remove(old_rows, l_by_path(q), i as int);
                        assert(!(l_by_path(q)(gone)));
                    }
                    lemma_sel_remove(old_rows, l_by_path(path@), i as int);
                }
                Ok(())
            }
            None => {
                proof {
                    lemma_sel_absent(self.files@, l_by_path(path@));
                }
                Err(SyncError::NotFound)
            }
        }
    }

    /// A snapshot of the directory: every path with its size, in
    /// walk order.
    pub fn paths_and_sizes(&self) -> (r: Vec<(String, u64)>)
        requires
            self.wf(),
        ensures
            r@.len() == self.files@.len(),
            forall|i: int|
                0 <= i < r@.len() ==> (#[trigger] r@[i]).0@ == self.files@[i].path@ && r@[i].1
                    == self.files@[i].content@.len(),
    {
        let mut out: Vec<(String, u64)> = Vec::new();
        let mut i: usize = 0;
        while i < self.files.len()
            invariant
                self.wf(),
                0 <= i <= self.files@.len(),
                out@.len() == i,
                forall|k: int|
                    0 <= k < i ==> (#[trigger] out@[k]).0@ == self.files@[k].path@ && out@[k].1
                        == self.files@[k].content@.len(),
            decreases self.files@.len() - i,
        {
            let f = &self.files[i];
            out.push((f.path.clone(), f.content.len() as u64));
            i += 1;
        }
        out
    }
}

} // verus!
