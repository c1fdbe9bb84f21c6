//! The local sync journal: the durable record of what was last
//! successfully synced, one row per file with the server-assigned id,
//! the relative path, and the hash at the time of the last transfer.
//!
//! This is the table's logic; keeping the rows in the `.sync.db`
//! database file at the sync root is left to the caller that owns the
//! disk.

use vstd::prelude::*;

use crate::remote::RemoteFile;
use crate::table::{at_most_one, lemma_sel_absent, lemma_sel_present, lemma_sel_remove, lemma_sel_update, lemma_sel_push, sel};
use crate::SyncError;

verus! {

/// One journal row.
#[derive(Debug)]
pub struct JournalEntry {
    /// The server-assigned file identifier at the last successful sync.
    pub id: u64,
    /// The sync-root-relative path; unique within the journal.
    pub path: String,
    /// The file's digest at the last successful sync.
    pub hash: String,
}

impl JournalEntry {
    pub fn duplicate(&self) -> (r: JournalEntry)
        ensures
            r == *self,
    {
        JournalEntry { id: self.id, path: self.path.clone(), hash: self.hash.clone() }
    }
}

/// Matches the row keyed by `path`.
pub open spec fn j_by_path(p: Seq<char>) -> spec_fn(JournalEntry) -> bool {
    |e: JournalEntry| e.path@ == p
}

/// Matches the row keyed by `id`.
pub open spec fn j_by_id(id: u64) -> spec_fn(JournalEntry) -> bool {
    |e: JournalEntry| e.id == id
}

/// The journal row at `path`, if any.
pub open spec fn j_find_path(rows: Seq<JournalEntry>, p: Seq<char>) -> Option<JournalEntry> {
    sel(rows, j_by_path(p))
}

/// The journal row with identifier `id`, if any.
pub open spec fn j_find_id(rows: Seq<JournalEntry>, id: u64) -> Option<JournalEntry> {
    sel(rows, j_by_id(id))
}

/// The journal row a remote file is recorded as.
pub open spec fn entry_of(file: RemoteFile) -> JournalEntry {
    JournalEntry { id: file.id, path: file.path, hash: file.hash }
}

/// The same row with a replaced hash.
pub open spec fn rehashed(e: JournalEntry, hash: String) -> JournalEntry {
    JournalEntry { id: e.id, path: e.path, hash: hash }
}

/// A row found by path is the same row its identifier finds.
pub proof fn lemma_j_path_id(j: Journal, p: Seq<char>)
    requires
        j.wf(),
        j_find_path(j.entries@, p) is Some,
    ensures
        j_find_id(j.entries@, j_find_path(j.entries@, p).unwrap().id) == j_find_path(
            j.entries@,
            p,
        ),
{
    let w = crate::table::lemma_sel_some(j.entries@, j_by_path(p));
    let e = j.entries@[w];
    j.lemma_unique_id(e.id);
    lemma_sel_present(j.entries@, j_by_id(e.id), w);
}

/// The journal table.
#[derive(Debug)]
pub struct Journal {
    pub entries: Vec<JournalEntry>,
}

impl Journal {
    /// Both keys are unique: no two rows share an id or a path.
    pub open spec fn wf(self) -> bool {
        forall|i: int, k: int|
            #![trigger self.entries@[i], self.entries@[k]]
            0 <= i < self.entries@.len() && 0 <= k < self.entries@.len() && i != k
                ==> self.entries@[i].id != self.entries@[k].id && self.entries@[i].path@
                != self.entries@[k].path@
    }

    pub proof fn lemma_unique_path(self, p: Seq<char>)
        requires
            self.wf(),
        ensures
            at_most_one(self.entries@, j_by_path(p)),
    {
        assert forall|i: int, k: int|
            0 <= i < self.entries@.len() && 0 <= k < self.entries@.len() && #[trigger] j_by_path(
                p,
            )(self.entries@[i]) && #[trigger] j_by_path(p)(self.entries@[k]) implies i == k by {
            if i != k {
                assert(self.entries@[i].path@ != self.entries@[k].path@);
            }
        }
    }

    pub proof fn lemma_unique_id(self, id: u64)
        requires
            self.wf(),
        ensures
            at_most_one(self.entries@, j_by_id(id)),
    {
        assert forall|i: int, k: int|
            0 <= i < self.entries@.len() && 0 <= k < self.entries@.len() && #[trigger] j_by_id(
                id,
            )(self.entries@[i]) && #[trigger] j_by_id(id)(self.entries@[k]) implies i == k by {
            if i != k {
                assert(self.entries@[i].id != self.entries@[k].id);
            }
        }
    }

    /// An empty journal, as created on first opening the sync root.
    pub fn new() -> (r: Journal)
        ensures
            r.wf(),
            r.entries@.len() == 0,
    {
        Journal { entries: Vec::new() }
    }

    /// The index of the row keyed by `path`, if any.
    fn find_idx_by_path(&self, relative_path: &str) -> (r: Option<usize>)
        ensures
            match r {
                Some(i) => i < self.entries@.len() && self.entries@[i as int].path@
                    == relative_path@,
                None => forall|k: int|
                    0 <= k < self.entries@.len() ==> (#[trigger] self.entries@[k].path)@
                        != relative_path@,
            },
    {
        let mut i: usize = 0;
        while i < self.entries.len()
            invariant
                0 <= i <= self.entries@.len(),
                forall|k: int|
                    0 <= k < i ==> (#[trigger] self.entries@[k].path)@ != relative_path@,
            decreases self.entries@.len() - i,
        {
            if crate::paths::str_eq_chars(self.entries[i].path.as_str(), relative_path) {
                return Some(i);
            }
            i += 1;
        }
        None
    }

    /// The index of the row with identifier `id`, if any.
    fn find_idx_by_id(&self, id: u64) -> (r: Option<usize>)
        ensures
            match r {
                Some(i) => i < self.entries@.len() && self.entries@[i as int].id == id,
                None => forall|k: int|
                    0 <= k < self.entries@.len() ==> (#[trigger] self.entries@[k]).id != id,
            },
    {
        let mut i: usize = 0;
        while i < self.entries.len()
            invariant
                0 <= i <= self.entries@.len(),
                forall|k: int| 0 <= k < i ==> (#[trigger] self.entries@[k]).id != id,
            decreases self.entries@.len() - i,
        {
            if self.entries[i].id == id {
                return Some(i);
            }
            i += 1;
        }
        None
    }

    /// The row at `path`, if any. At most one row matches.
    pub fn find_file_by_path(&self, relative_path: &str) -> (r: Option<JournalEntry>)
        requires
            self.wf(),
        ensures
            r == j_find_path(self.entries@, relative_path@),
    {
        proof {
            self.lemma_unique_path(relative_path@);
        }
        match self.find_idx_by_path(relative_path) {
            Some(i) => {
                proof {
                    lemma_sel_present(self.entries@, j_by_path(relative_path@), i as int);
                }
                Some(self.entries[i].duplicate())
            }
            None => {
                proof {
                    lemma_sel_absent(self.entries@, j_by_path(relative_path@));
                }
                None
            }
        }
    }

    /// Record a file after a successful transfer. Fails when a row with
    /// the same id or the same path already exists; the table is then
    /// unchanged.
    pub fn add_file(&mut self, file: &RemoteFile) -> (r: Result<(), SyncError>)
        requires
            old(self).wf(),
        ensures
            final(self).wf(),
            r is Ok <==> (j_find_id(old(self).entries@, file.id) is None && j_find_path(
                old(self).entries@,
                file.path@,
            ) is None),
            r is Err ==> *final(self) == *old(self) && r == Err::<(), SyncError>(
                SyncError::InvalidArgument,
            ),
            r is Ok ==> final(self).entries@ == old(self).entries@.push(entry_of(*file)),
            r is Ok ==> forall|p: Seq<char>|
                #[trigger] j_find_path(final(self).entries@, p) == if p == file.path@ {
                    Some(entry_of(*file))
                } else {
                    j_find_path(old(self).entries@, p)
                },
            r is Ok ==> forall|id2: u64|
                #[trigger] j_find_id(final(self).entries@, id2) == if id2 == file.id {
                    Some(entry_of(*file))
                } else {
                    j_find_id(old(self).entries@, id2)
                },
    {
        proof {
            self.lemma_unique_id(file.id);
            self.lemma_unique_path(file.path@);
        }
        if let Some(i) = self.find_idx_by_id(file.id) {
            proof {
                lemma_sel_present(self.entries@, j_by_id(file.id), i as int);
            }
            return Err(SyncError::InvalidArgument);
        }
        if let Some(i) = self.find_idx_by_path(file.path.as_str()) {
            proof {
                lemma_sel_present(self.entries@, j_by_path(file.path@), i as int);
                lemma_sel_absent(self.entries@, j_by_id(file.id));
            }
            return Err(SyncError::InvalidArgument);
        }
        proof {
            lemma_sel_absent(self.entries@, j_by_id(file.id));
            lemma_sel_absent(self.entries@, j_by_path(file.path@));
        }
        let entry = JournalEntry { id: file.id, path: file.path.clone(), hash: file.hash.clone() };
        let ghost old_rows = self.entries@;
        self.entries.push(entry);
        proof {
            let rows = self.entries@;
            assert(rows == old_rows.push(entry_of(*file)));
            assert forall|i: int, k: int| 0 <= i < rows.len() && 0 <= k < rows.len() && i != k
                implies #[trigger] rows[i].id != #[trigger] rows[k].id && rows[i].path@
                != rows[k].path@ by {
                if i < old_rows.len() && k < old_rows.len() {
                } else if i < old_rows.len() {
                    assert(rows[k] == entry_of(*file));
                } else {
                    assert(rows[i] == entry_of(*file));
                }
            }
            assert forall|p: Seq<char>|
                #[trigger] j_find_path(rows, p) == if p == file.path@ {
                    Some(entry_of(*file))
                } else {
                    j_find_path(old_rows, p)
                } by {
                lemma_sel_push(old_rows, j_by_path(p), entry_of(*file));
            }
            assert forall|id2: u64|
                #[trigger] j_find_id(rows, id2) == if id2 == file.id {
                    Some(entry_of(*file))
                } else {
                    j_find_id(old_rows, id2)
                } by {
                lemma_sel_push(old_rows, j_by_id(id2), entry_of(*file));
            }
        }
        Ok(())
    }

    /// Remove the row with identifier `id`. Fails when no such row
    /// exists; the table is then unchanged.
    pub fn delete_file_by_id(&mut self, id: u64) -> (r: Result<(), SyncError>)
        requires
            old(self).wf(),
        ensures
            final(self).wf(),
            r is Ok <==> j_find_id(old(self).entries@, id) is Some,
            r is Err ==> *final(self) == *old(self) && r == Err::<(), SyncError>(
                SyncError::NotFound,
            ),
            r is Ok ==> j_find_id(final(self).entries@, id) is None,
            r is Ok ==> forall|p: Seq<char>|
                #[trigger] j_find_path(final(self).entries@, p) == if p == j_find_id(
                    old(self).entries@,
                    id,
                ).unwrap().path@ {
                    None::<JournalEntry>
                } else {
                    j_find_path(old(self).entries@, p)
                },
            r is Ok ==> forall|id2: u64|
                #[trigger] j_find_id(final(self).entries@, id2) == if id2 == id {
                    None::<JournalEntry>
                } else {
                    j_find_id(old(self).entries@, id2)
                },
    {
        proof {
            self.lemma_unique_id(id);
        }
        match self.find_idx_by_id(id) {
            Some(i) => {
                proof {
                    lemma_sel_present(self.entries@, j_by_id(id), i as int);
                }
                let ghost old_rows = self.entries@;
                let ghost gone = self.entries@[i as int];
                self.entries.remove(i);
                proof {
                    let rows = self.entries@;
                    assert(rows == old_rows.remove(i as int));
                    assert forall|a: int, b: int|
                        0 <= a < rows.len() && 0 <= b < rows.len() && a != b
                        implies #[trigger] rows[a].id != #[trigger] rows[b].id && rows[a].path@
                        != rows[b].path@ by {
                        let ar = if a < i as int { a } else { a + 1 };
                        let br = if b < i as int { b } else { b + 1 };
                        assert(rows[a] == old_rows[ar]);
                        assert(rows[b] == old_rows[br]);
                    }
                    assert forall|p: Seq<char>|
                        #[trigger] j_find_path(rows, p) == if p == gone.path@ {
                            None::<JournalEntry>
                        } else {
                            j_find_path(old_rows, p)
                        } by {
                        old(self).lemma_unique_path(p);
                        lemma_sel_remove(old_rows, j_by_path(p), i as int);
                        if p == gone.path@ {
                        } else {
                            assert(!(j_by_path(p)(old_rows[i as int])));
                        }
                    }
                    assert forall|id2: u64|
                        #[trigger] j_find_id(rows, id2) == if id2 == id {
                            None::<JournalEntry>
                        } else {
                            j_find_id(old_rows, id2)
                        } by {
                        old(self).lemma_unique_id(id2);
                        lemma_sel_remove(old_rows, j_by_id(id2), i as int);
                        if id2 == id {
                        } else {
                            assert(!(j_by_id(id2)(old_rows[i as int])));
                        }
                    }
                }
                Ok(())
            }
            None => {
                proof {
                    lemma_sel_absent(self.entries@, j_by_id(id));
                }
                Err(SyncError::NotFound)
            }
        }
    }

    /// Replace the stored hash of the row with identifier `id`. Fails
    /// when no such row exists; the table is then unchanged.
    pub fn update_hash_by_id(&mut self, id: u64, hash: String) -> (r: Result<(), SyncError>)
        requires
            old(self).wf(),
        ensures
            final(self).wf(),
            r is Ok <==> j_find_id(old(self).entries@, id) is Some,
            r is Err ==> *final(self) == *old(self) && r == Err::<(), SyncError>(
                SyncError::NotFound,
            ),
            r is Ok ==> forall|p: Seq<char>|
                #[trigger] j_find_path(final(self).entries@, p) == if p == j_find_id(
                    old(self).entries@,
                    id,
                ).unwrap().path@ {
                    Some(rehashed(j_find_id(old(self).entries@, id).unwrap(), hash))
                } else {
                    j_find_path(old(self).entries@, p)
                },
            r is Ok ==> forall|id2: u64|
                #[trigger] j_find_id(final(self).entries@, id2) == if id2 == id {
                    Some(rehashed(j_find_id(old(self).entries@, id).unwrap(), hash))
                } else {
                    j_find_id(old(self).entries@, id2)
                },
    {
        proof {
            self.lemma_unique_id(id);
        }
        match self.find_idx_by_id(id) {
            Some(i) => {
                proof {
                    lemma_sel_present(self.entries@, j_by_id(id), i as int);
                }
                let ghost old_rows = self.entries@;
                let ghost old_e = self.entries@[i as int];
                let mut e = self.entries.remove(i);
                e.hash = hash;
                self.entries.insert(i, e);
                proof {
                    let rows = self.entries@;
                    let new_e = rehashed(old_e, hash);
                    assert(rows =~= old_rows.update(i as int, new_e));
                    assert forall|a: int, b: int|
                        0 <= a < rows.len() && 0 <= b < rows.len() && a != b
                        implies #[trigger] rows[a].id != #[trigger] rows[b].id && rows[a].path@
                        != rows[b].path@ by {
                        assert(rows[a] == if a == i as int { new_e } else { old_rows[a] });
                        assert(rows[b] == if b == i as int { new_e } else { old_rows[b] });
                    }
                    assert forall|p: Seq<char>|
                        #[trigger] j_find_path(rows, p) == if p == old_e.path@ {
                            Some(new_e)
                        } else {
                            j_find_path(old_rows, p)
                        } by {
                        old(self).lemma_unique_path(p);
                        if j_by_path(p)(new_e) {
                            assert forall|k: int|
                                0 <= k < old_rows.len() && k != i as int
                                implies !(j_by_path(p)(#[trigger] old_rows[k])) by {
                                assert(old_rows[k].path@ != old_e.path@);
                            }
                        }
                        lemma_sel_update(old_rows, j_by_path(p), i as int, new_e);
                        if p == old_e.path@ {
                        } else {
                            assert(!(j_by_path(p)(old_rows[i as int])));
                            assert(!(j_by_path(p)(new_e)));
                        }
                    }
                    assert forall|id2: u64|
                        #[trigger] j_find_id(rows, id2) == if id2 == id {
                            Some(new_e)
                        } else {
                            j_find_id(old_rows, id2)
                        } by {
                        old(self).lemma_unique_id(id2);
                        if j_by_id(id2)(new_e) {
                            assert forall|k: int|
                                0 <= k < old_rows.len() && k != i as int
                                implies !(j_by_id(id2)(#[trigger] old_rows[k])) by {
                                assert(old_rows[k].id != old_e.id);
                            }
                        }
                        lemma_sel_update(old_rows, j_by_id(id2), i as int, new_e);
                        if id2 == id {
                        } else {
                            assert(!(j_by_id(id2)(old_rows[i as int])));
                            assert(!(j_by_id(id2)(new_e)));
                        }
                    }
                }
                Ok(())
            }
            None => {
                proof {
                    lemma_sel_absent(self.entries@, j_by_id(id));
                }
                Err(SyncError::NotFound)
            }
        }
    }

    /// Replace the stored hash of the row at `relative_path`, telling
    /// the caller whether any row was touched.
    pub fn update_file_hash_by_path(&mut self, relative_path: &str, hash: String) -> (r: bool)
        requires
            old(self).wf(),
        ensures
            final(self).wf(),
            r <==> j_find_path(old(self).entries@, relative_path@) is Some,
            !r ==> *final(self) == *old(self),
            r ==> forall|p: Seq<char>|
                #[trigger] j_find_path(final(self).entries@, p) == if p == relative_path@ {
                    Some(rehashed(j_find_path(old(self).entries@, relative_path@).unwrap(), hash))
                } else {
                    j_find_path(old(self).entries@, p)
                },
            r ==> forall|id2: u64|
                #[trigger] j_find_id(final(self).entries@, id2) == if id2 == j_find_path(
                    old(self).entries@,
                    relative_path@,
                ).unwrap().id {
                    Some(rehashed(j_find_path(old(self).entries@, relative_path@).unwrap(), hash))
                } else {
                    j_find_id(old(self).entries@, id2)
                },
    {
        proof {
            self.lemma_unique_path(relative_path@);
        }
        match self.find_idx_by_path(relative_path) {
            Some(i) => {
                proof {
                    lemma_sel_present(self.entries@, j_by_path(relative_path@), i as int);
                }
                let id = self.entries[i].id;
                proof {
                    self.lemma_unique_id(id);
                    lemma_sel_present(self.entries@, j_by_id(id), i as int);
                }
                match self.update_hash_by_id(id, hash) {
                    Ok(()) => true,
                    Err(_) => {
                        proof {
                            assert(false);
                        }
                        false
                    }
                }
            }
            None => {
                proof {
                    lemma_sel_absent(self.entries@, j_by_path(relative_path@));
                }
                false
            }
        }
    }

    /// Record a remote file's new hash against its id, as done after a
    /// download that replaced the local copy.
    pub fn replace_file_hash(&mut self, file: &RemoteFile) -> (r: Result<(), SyncError>)
        requires
            old(self).wf(),
        ensures
            final(self).wf(),
            r is Ok <==> j_find_id(old(self).entries@, file.id) is Some,
            r is Err ==> *final(self) == *old(self) && r == Err::<(), SyncError>(
                SyncError::NotFound,
            ),
            r is Ok ==> forall|p: Seq<char>|
                #[trigger] j_find_path(final(self).entries@, p) == if p == j_find_id(
                    old(self).entries@,
                    file.id,
                ).unwrap().path@ {
                    Some(rehashed(j_find_id(old(self).entries@, file.id).unwrap(), file.hash))
                } else {
                    j_find_path(old(self).entries@, p)
                },
            r is Ok ==> forall|id2: u64|
                #[trigger] j_find_id(final(self).entries@, id2) == if id2 == file.id {
                    Some(rehashed(j_find_id(old(self).entries@, file.id).unwrap(), file.hash))
                } else {
                    j_find_id(old(self).entries@, id2)
                },
    {
        self.update_hash_by_id(file.id, file.hash.clone())
    }
}

} // verus!
