//! The reconciliation engine: one pass gathers, for every path, what
//! the filesystem, the journal and the server each know, decides with
//! the three-way table, and applies the decision; true conflicts pause
//! as prompts that the user resolves with `skip`, `keep_local` or
//! `keep_remote`.

use vstd::prelude::*;

use crate::hashing::{digest_of, meta_of_bytes, LocalMeta};
use crate::journal::{j_find_path, Journal, JournalEntry};
use crate::localdir::{copy_bytes, l_find, LocalDir};
use crate::paths::{is_reserved_path, temp_download_of, FilePath};
use crate::reconcile::{decide_spec, SyncAction};
use crate::remote::{RemoteFile, UploadFrame};
use crate::server::{s_find_id, s_find_path, upload_bytes, upload_outcome, ServerState};
use crate::table::{at_most_one, lemma_sel_absent, lemma_sel_present, lemma_sel_update,
    lemma_sel_push, sel};
use crate::SyncError;

verus! {

/// A paused reconciliation awaiting the user's pick between the local
/// and the remote copy of one file.
#[derive(Debug)]
pub struct FilePromptKeep {
    pub file_path: FilePath,
    pub local_meta: LocalMeta,
    pub sql_file: Option<JournalEntry>,
    pub remote_file: RemoteFile,
}

/// The user-visible state of one path's reconciliation.
#[derive(Debug)]
pub enum FileStatus {
    /// Enumerated, not yet reconciled.
    WaitingQueue,
    /// A true conflict: awaiting the user's pick.
    WaitingUser(FilePromptKeep),
    Success,
    Failed,
    Added,
    Deleted,
}

impl FileStatus {
    /// The icon class each status renders as.
    pub fn to_icon(&self) -> (r: String)
        ensures
            r@ == match self {
                FileStatus::WaitingQueue => "fa-solid fa-spinner fa-spin"@,
                FileStatus::WaitingUser(_) => "fa-solid fa-file-circle-question"@,
                FileStatus::Success => "fa-solid fa-file-circle-check"@,
                FileStatus::Failed => "fa-solid fa-file-circle-xmark"@,
                FileStatus::Added => "fa-solid fa-file-circle-plus"@,
                FileStatus::Deleted => "fa-solid fa-file-circle-minus"@,
            },
    {
        match self {
            FileStatus::WaitingQueue => "fa-solid fa-spinner fa-spin".to_owned(),
            FileStatus::WaitingUser(_) => "fa-solid fa-file-circle-question".to_owned(),
            FileStatus::Success => "fa-solid fa-file-circle-check".to_owned(),
            FileStatus::Failed => "fa-solid fa-file-circle-xmark".to_owned(),
            FileStatus::Added => "fa-solid fa-file-circle-plus".to_owned(),
            FileStatus::Deleted => "fa-solid fa-file-circle-minus".to_owned(),
        }
    }
}

/// A status that ends a pass well: the path was brought in step.
pub open spec fn status_good(st: FileStatus) -> bool {
    st is Success || st is Added || st is Deleted
}

/// The status each action resolves to when it succeeds.
pub open spec fn action_status_matches(a: SyncAction, st: FileStatus) -> bool {
    match a {
        SyncAction::Nothing => st is Success,
        SyncAction::DownloadNew => st is Added,
        SyncAction::DropJournal => st is Success,
        SyncAction::DeleteRemote => st is Deleted,
        SyncAction::ReplaceFromRemote => st is Success,
        SyncAction::UploadNew => st is Added,
        SyncAction::AdoptRemote => st is Success,
        SyncAction::DeleteLocal => st is Deleted,
        SyncAction::ReUploadLocal => st is Success,
        SyncAction::DownloadNewer => st is Success,
        SyncAction::PromptUser => st is WaitingUser,
    }
}

/// One row of the UI's file listing.
#[derive(Debug)]
pub struct FileElementProps {
    pub status: FileStatus,
    pub path: FilePath,
    pub size: u64,
}

/// Matches the listing row keyed by the relative path.
pub open spec fn st_by_path(p: Seq<char>) -> spec_fn(FileElementProps) -> bool {
    |e: FileElementProps| e.path.relative_path@ == p
}

/// The listing row at `p`, if any.
pub open spec fn st_find(rows: Seq<FileElementProps>, p: Seq<char>) -> Option<FileElementProps> {
    sel(rows, st_by_path(p))
}

/// The UI's status map: one row per enumerated path.
#[derive(Debug)]
pub struct StatusTable {
    pub entries: Vec<FileElementProps>,
}

impl StatusTable {
    pub open spec fn wf(self) -> bool {
        forall|i: int, k: int|
            #![trigger self.entries@[i], self.entries@[k]]
            0 <= i < self.entries@.len() && 0 <= k < self.entries@.len() && i != k
                ==> self.entries@[i].path.relative_path@ != self.entries@[k].path.relative_path@
    }

    pub proof fn lemma_unique_path(self, p: Seq<char>)
        requires
            self.wf(),
        ensures
            at_most_one(self.entries@, st_by_path(p)),
    {
        assert forall|i: int, k: int|
            0 <= i < self.entries@.len() && 0 <= k < self.entries@.len() && #[trigger] st_by_path(
                p,
            )(self.entries@[i]) && #[trigger] st_by_path(p)(self.entries@[k]) implies i == k by {
            if i != k {
                assert(self.entries@[i].path.relative_path@
                    != self.entries@[k].path.relative_path@);
            }
        }
    }

    pub fn new() -> (r: StatusTable)
        ensures
            r.wf(),
            r.entries@.len() == 0,
    {
        StatusTable { entries: Vec::new() }
    }

    /// Empty the listing, as the start of a pass does.
    pub fn clear(&mut self)
        ensures
            final(self).wf(),
            final(self).entries@.len() == 0,
    {
        self.entries.clear();
    }

    fn find_idx(&self, path: &str) -> (r: Option<usize>)
        ensures
            match r {
                Some(i) => i < self.entries@.len() && self.entries@[i as int].path.relative_path@
                    == path@,
                None => forall|k: int|
                    0 <= k < self.entries@.len()
                        ==> (#[trigger] self.entries@[k]).path.relative_path@ != path@,
            },
    {
        let mut i: usize = 0;
        while i < self.entries.len()
            invariant
                0 <= i <= self.entries@.len(),
                forall|k: int|
                    0 <= k < i ==> (#[trigger] self.entries@[k]).path.relative_path@ != path@,
            decreases self.entries@.len() - i,
        {
            if crate::paths::str_eq_chars(self.entries[i].path.get_rel().as_str(), path) {
                return Some(i);
            }
            i += 1;
        }
        None
    }

    /// Is the path already listed?
    pub fn has(&self, path: &str) -> (r: bool)
        requires
            self.wf(),
        ensures
            r == (st_find(self.entries@, path@) is Some),
    {
        proof {
            self.lemma_unique_path(path@);
        }
        match self.find_idx(path) {
            Some(i) => {
                proof {
                    lemma_sel_present(self.entries@, st_by_path(path@), i as int);
                }
                true
            }
            None => {
                proof {
                    lemma_sel_absent(self.entries@, st_by_path(path@));
                }
                false
            }
        }
    }

    /// List a newly enumerated path.
    pub fn insert(&mut self, props: FileElementProps)
        requires
            old(self).wf(),
            st_find(old(self).entries@, props.path.relative_path@) is None,
        ensures
            final(self).wf(),
            st_find(final(self).entries@, props.path.relative_path@) == Some(props),
            forall|q: Seq<char>|
                q != props.path.relative_path@ ==> #[trigger] st_find(final(self).entries@, q)
                    == st_find(old(self).entries@, q),
    {
        let ghost old_rows = self.entries@;
        let ghost p = props.path.relative_path@;
        let ghost new_e = props;
        self.entries.push(props);
        proof {
            let rows = self.entries@;
            assert forall|k: int| 0 <= k < old_rows.len()
                implies !(st_by_path(p)(#[trigger] old_rows[k])) by {
                if st_by_path(p)(old_rows[k]) {
                    old(self).lemma_unique_path(p);
                    lemma_sel_present(old_rows, st_by_path(p), k);
                }
            }
            assert forall|a: int, b: int|
                0 <= a < rows.len() && 0 <= b < rows.len() && a != b
                implies #[trigger] rows[a].path.relative_path@
                != #[trigger] rows[b].path.relative_path@ by {
                if a < old_rows.len() && b < old_rows.len() {
                } else if a < old_rows.len() {
                    assert(rows[b] == new_e);
                } else {
                    assert(rows[a] == new_e);
                }
            }
            assert forall|q: Seq<char>| q != p implies #[trigger] st_find(rows, q) == st_find(
                old_rows,
                q,
            ) by {
                old(self).lemma_unique_path(q);
                lemma_sel_push(old_rows, st_by_path(q), new_e);
                assert(!(st_by_path(q)(new_e)));
            }
            old(self).lemma_unique_path(p);
            lemma_sel_push(old_rows, st_by_path(p), new_e);
        }
    }

    /// Record the outcome of one path's reconciliation, and optionally
    /// a corrected size.
    pub fn set_status(&mut self, path: &str, status: FileStatus, size: Option<u64>)
        requires
            old(self).wf(),
            st_find(old(self).entries@, path@) is Some,
        ensures
            final(self).wf(),
            st_find(final(self).entries@, path@) is Some,
            ({
                let e0 = st_find(old(self).entries@, path@).unwrap();
                let e1 = st_find(final(self).entries@, path@).unwrap();
                e1.status == status && e1.path == e0.path && e1.size == match size {
                    Some(s) => s,
                    None => e0.size,
                }
            }),
            forall|q: Seq<char>|
                q != path@ ==> #[trigger] st_find(final(self).entries@, q) == st_find(
                    old(self).entries@,
                    q,
                ),
    {
        proof {
            self.lemma_unique_path(path@);
        }
        match self.find_idx(path) {
            Some(i) => {
                proof {
                    lemma_sel_present(self.entries@, st_by_path(path@), i as int);
                }
                let ghost old_rows = self.entries@;
                let ghost old_e = self.entries@[i as int];
                let mut e = self.entries.remove(i);
                e.status = status;
                match size {
                    Some(s) => {
                        e.size = s;
                    }
                    None => {}
                }
                let ghost new_e = e;
                self.entries.insert(i, e);
                proof {
                    let rows = self.entries@;
                    assert(rows =~= old_rows.update(i as int, new_e));
                    assert forall|a: int, b: int|
                        0 <= a < rows.len() && 0 <= b < rows.len() && a != b
                        implies #[trigger] rows[a].path.relative_path@
                        != #[trigger] rows[b].path.relative_path@ by {
                        assert(rows[a] == if a == i as int { new_e } else { old_rows[a] });
                        assert(rows[b] == if b == i as int { new_e } else { old_rows[b] });
                    }
                    assert forall|q: Seq<char>| q != path@ implies #[trigger] st_find(rows, q)
                        == st_find(old_rows, q) by {
                        old(self).lemma_unique_path(q);
                        lemma_sel_update(old_rows, st_by_path(q), i as int, new_e);
                        assert(!(st_by_path(q)(old_e)));
                        assert(!(st_by_path(q)(new_e)));
                    }
                    old(self).lemma_unique_path(path@);
                    lemma_sel_update(old_rows, st_by_path(path@), i as int, new_e);
                }
            }
            None => {
                proof {
                    lemma_sel_absent(self.entries@, st_by_path(path@));
                    assert(false);
                }
            }
        }
    }
}

/// Everything one pass of the reconciler touches: the sync root, the
/// three sources of truth, and the UI's status listing.
#[derive(Debug)]
pub struct SyncWorld {
    pub sync_dir: String,
    pub local: LocalDir,
    pub journal: Journal,
    pub server: ServerState,
    pub statuses: StatusTable,
}

impl SyncWorld {
    /// The components are well formed, and the journal agrees with the
    /// server about identities: every recorded id was assigned by this
    /// server, and where the server still has the id, it has it at the
    /// recorded path.
    pub open spec fn wf(self) -> bool {
        &&& self.sync_dir@.len() > 0
        &&& self.sync_dir@.last() != '/'
        &&& self.local.wf()
        &&& self.journal.wf()
        &&& self.server.wf()
        &&& self.statuses.wf()
        &&& forall|i: int|
            0 <= i < self.journal.entries@.len() ==> {
                let e = #[trigger] self.journal.entries@[i];
                &&& e.id < self.server.next_id
                &&& match s_find_id(self.server.files@, e.id) {
                    Some(sf) => sf.path@ == e.path@,
                    None => true,
                }
            }
    }
}

/// One path is in step: either none of the three sources has it, or
/// all three have it with one and the same hash.
pub open spec fn path_synced(w: SyncWorld, p: Seq<char>) -> bool {
    let l = l_find(w.local.files@, p);
    let j = j_find_path(w.journal.entries@, p);
    let r = s_find_path(w.server.files@, p);
    ||| (l is None && j is None && r is None)
    ||| {
        &&& l is Some
        &&& j is Some
        &&& r is Some
        &&& digest_of(l.unwrap().content@) == j.unwrap().hash@
        &&& j.unwrap().hash@ == r.unwrap().hash@
    }
}

/// What the decision table says about one path of the world.
pub open spec fn decide_of(w: SyncWorld, p: Seq<char>) -> SyncAction {
    decide_spec(
        match l_find(w.local.files@, p) {
            Some(f) => Some(digest_of(f.content@)),
            None => None,
        },
        match j_find_path(w.journal.entries@, p) {
            Some(e) => Some(e.hash@),
            None => None,
        },
        match s_find_path(w.server.files@, p) {
            Some(f) => Some(f.hash@),
            None => None,
        },
    )
}

/// Reconciling one path touches nothing but that path's records (and
/// that path's download temporary), and never the quota setting.
pub open spec fn stores_frame(pre: SyncWorld, post: SyncWorld, p: Seq<char>) -> bool {
    &&& post.sync_dir == pre.sync_dir
    &&& forall|q: Seq<char>|
        q != p && q != temp_download_of(p) ==> #[trigger] l_find(post.local.files@, q) == l_find(
            pre.local.files@,
            q,
        )
    &&& forall|q: Seq<char>|
        q != p ==> #[trigger] j_find_path(post.journal.entries@, q) == j_find_path(
            pre.journal.entries@,
            q,
        )
    &&& forall|q: Seq<char>|
        q != p ==> #[trigger] s_find_path(post.server.files@, q) == s_find_path(
            pre.server.files@,
            q,
        )
    &&& post.server.user.storage_quota == pre.server.user.storage_quota
}

/// The three stores are exactly as they were.
pub open spec fn stores_eq(pre: SyncWorld, post: SyncWorld) -> bool {
    &&& post.sync_dir == pre.sync_dir
    &&& post.local == pre.local
    &&& post.journal == pre.journal
    &&& post.server == pre.server
}

/// What a successfully applied action leaves at its path: which side
/// won, row by row. Download actions leave the server row untouched
/// and give the local file the old remote hash; upload actions leave
/// the local file untouched and give the server the old local digest;
/// delete actions clear the named rows; record-keeping actions touch
/// the journal alone.
pub open spec fn action_effect(pre: SyncWorld, post: SyncWorld, p: Seq<char>, a: SyncAction) -> bool {
    let l0 = l_find(pre.local.files@, p);
    let j0 = j_find_path(pre.journal.entries@, p);
    let r0 = s_find_path(pre.server.files@, p);
    let l1 = l_find(post.local.files@, p);
    let j1 = j_find_path(post.journal.entries@, p);
    let r1 = s_find_path(post.server.files@, p);
    match a {
        SyncAction::Nothing => stores_eq(pre, post),
        SyncAction::PromptUser => stores_eq(pre, post),
        SyncAction::DownloadNew => {
            &&& r1 == r0
            &&& l1 is Some
            &&& digest_of(l1.unwrap().content@) == r0.unwrap().hash@
            &&& l1.unwrap().content@.len() == r0.unwrap().size
            &&& j1 == Some(crate::journal::entry_of(crate::server::remote_view(r0.unwrap())))
            &&& l_find(post.local.files@, temp_download_of(p)) is None
        },
        SyncAction::DropJournal => l1 == l0 && r1 == r0 && j1 is None && l_find(
            post.local.files@,
            temp_download_of(p),
        ) == l_find(pre.local.files@, temp_download_of(p)),
        SyncAction::DeleteRemote => l1 == l0 && r1 is None && j1 is None && l_find(
            post.local.files@,
            temp_download_of(p),
        ) == l_find(pre.local.files@, temp_download_of(p)),
        SyncAction::ReplaceFromRemote => {
            &&& r1 == r0
            &&& l1 is Some
            &&& digest_of(l1.unwrap().content@) == r0.unwrap().hash@
            &&& l1.unwrap().content@.len() == r0.unwrap().size
            &&& j1 == Some(crate::journal::entry_of(crate::server::remote_view(r0.unwrap())))
            &&& l_find(post.local.files@, temp_download_of(p)) is None
        },
        SyncAction::UploadNew => {
            &&& l1 == l0
            &&& post.local == pre.local
            &&& r1 is Some
            &&& r1.unwrap().hash@ == digest_of(l0.unwrap().content@)
            &&& r1.unwrap().size == l0.unwrap().content@.len()
            &&& j1 == Some(crate::journal::entry_of(crate::server::remote_view(r1.unwrap())))
        },
        SyncAction::AdoptRemote => {
            &&& l1 == l0
            &&& post.local == pre.local
            &&& r1 == r0
            &&& post.server == pre.server
            &&& j1 == Some(crate::journal::entry_of(crate::server::remote_view(r0.unwrap())))
        },
        SyncAction::DeleteLocal => l1 is None && j1 is None && r1 == r0 && post.server
            == pre.server && l_find(post.local.files@, temp_download_of(p)) == l_find(
            pre.local.files@,
            temp_download_of(p),
        ),
        SyncAction::ReUploadLocal => {
            &&& l1 == l0
            &&& post.local == pre.local
            &&& r1 is Some
            &&& r1.unwrap().hash@ == digest_of(l0.unwrap().content@)
            &&& r1.unwrap().size == l0.unwrap().content@.len()
            &&& j1 == Some(crate::journal::entry_of(crate::server::remote_view(r1.unwrap())))
        },
        SyncAction::DownloadNewer => {
            &&& r1 == r0
            &&& l1 is Some
            &&& digest_of(l1.unwrap().content@) == r0.unwrap().hash@
            &&& l1.unwrap().content@.len() == r0.unwrap().size
            &&& j1 == Some(crate::journal::rehashed(j0.unwrap(), r0.unwrap().hash))
            &&& l_find(post.local.files@, temp_download_of(p)) is None
        },
    }
}

/// Commit downloaded bytes at their destination: write them to the
/// reserved `.~download~` sibling, re-read and hash that temporary,
/// and only when the digest matches the advertised hash rename it onto
/// the destination. On a mismatch the temporary is deleted and the
/// destination is untouched, so at no point does the destination hold
/// bytes with the wrong digest.
pub fn install_download(local: &mut LocalDir, file: &RemoteFile, bytes: Vec<u8>) -> (r: Result<
    (),
    SyncError,
>)
    requires
        old(local).wf(),
        file.path@.len() > 0,
        file.path@[0] == '/',
        bytes@.len() <= u64::MAX,
    ensures
        final(local).wf(),
        r is Ok <==> digest_of(bytes@) == file.hash@,
        r is Err ==> r == Err::<(), SyncError>(SyncError::IntegrityError),
        l_find(final(local).files@, temp_download_of(file.path@)) is None,
        r is Ok ==> l_find(final(local).files@, file.path@) is Some && l_find(
            final(local).files@,
            file.path@,
        ).unwrap().content@ == bytes@ && l_find(final(local).files@, file.path@).unwrap().path@
            == file.path@,
        r is Err ==> l_find(final(local).files@, file.path@) == l_find(
            old(local).files@,
            file.path@,
        ),
        forall|q: Seq<char>|
            q != file.path@ && q != temp_download_of(file.path@) ==> #[trigger] l_find(
                final(local).files@,
                q,
            ) == l_find(old(local).files@, q),
{
    let temp = crate::paths::temp_download_path(file.path.as_str());
    proof {
        crate::paths::lemma_temp_download_shape(file.path@);
    }
    local.write(temp.as_str(), bytes);
    let stored = match local.read(temp.as_str()) {
        Some(c) => c,
        None => {
            proof {
                assert(false);
            }
            return Err(SyncError::IntegrityError);
        }
    };
    let meta = meta_of_bytes(&stored);
    if !crate::paths::str_eq_chars(meta.hash.as_str(), file.hash.as_str()) {
        match local.remove(temp.as_str()) {
            Ok(()) => {}
            Err(_) => {
                proof {
                    assert(false);
                }
            }
        }
        return Err(SyncError::IntegrityError);
    }
    match local.remove(temp.as_str()) {
        Ok(()) => {}
        Err(_) => {
            proof {
                assert(false);
            }
        }
    }
    local.write(file.path.as_str(), stored);
    Ok(())
}

/// Fetch a file's bytes from the server and commit them at the file's
/// destination. Succeeds exactly when the server still has the record
/// and its stored hash is the advertised one; on failure the
/// destination is exactly as it was.
pub fn download_file(local: &mut LocalDir, server: &ServerState, file: &RemoteFile) -> (r: Result<
    (),
    SyncError,
>)
    requires
        old(local).wf(),
        server.wf(),
        file.path@.len() > 0,
        file.path@[0] == '/',
    ensures
        final(local).wf(),
        r is Ok <==> (s_find_id(server.files@, file.id) is Some && s_find_id(
            server.files@,
            file.id,
        ).unwrap().hash@ == file.hash@),
        r is Ok ==> l_find(final(local).files@, file.path@) is Some && digest_of(
            l_find(final(local).files@, file.path@).unwrap().content@,
        ) == file.hash@ && l_find(final(local).files@, file.path@).unwrap().content@.len()
            == s_find_id(server.files@, file.id).unwrap().size,
        r is Ok ==> l_find(final(local).files@, file.path@).unwrap().content@
            == crate::server::b_find(
            server.blobs@,
            s_find_id(server.files@, file.id).unwrap().handle,
        ).unwrap().bytes@,
        r is Ok ==> l_find(final(local).files@, temp_download_of(file.path@)) is None,
        r is Err ==> l_find(final(local).files@, file.path@) == l_find(
            old(local).files@,
            file.path@,
        ),
        forall|q: Seq<char>|
            q != file.path@ && q != temp_download_of(file.path@) ==> #[trigger] l_find(
                final(local).files@,
                q,
            ) == l_find(old(local).files@, q),
{
    let bytes = match server.download(file.id) {
        Ok(b) => b,
        Err(e) => {
            return Err(e);
        }
    };
    install_download(local, file, bytes)
}

/// Build the framed upload stream for one file: the announcement with
/// the precomputed digest and size, then the bytes.
pub fn make_upload_frames(rel: &str, content: &Vec<u8>, file_meta: &LocalMeta) -> (frames: Vec<
    UploadFrame,
>)
    ensures
        frames@.len() == 2,
        frames@[0] is Info,
        frames@[0]->Info_0.path@ == rel@,
        frames@[0]->Info_0.hash == file_meta.hash,
        frames@[0]->Info_0.size == file_meta.size,
        frames@[1] is Chunk,
        upload_bytes(frames@) == content@,
        file_meta.size == content@.len() ==> crate::server::stream_err(
            frames@,
            file_meta.size,
            1,
            0,
        ) is None,
{
    let info = crate::remote::UploadInfo {
        path: rel.to_owned(),
        hash: file_meta.hash.clone(),
        size: file_meta.size,
    };
    let mut frames: Vec<UploadFrame> = Vec::new();
    frames.push(UploadFrame::Info(info));
    frames.push(UploadFrame::Chunk(copy_bytes(content)));
    proof {
        assert(upload_bytes(frames@) == crate::server::chunks_from(frames@, 1));
        assert(crate::server::chunks_from(frames@, 2) =~= Seq::<u8>::empty());
        assert(crate::server::chunks_from(frames@, 1) =~= crate::server::chunk_bytes(frames@[1])
            + crate::server::chunks_from(frames@, 2));
        assert(upload_bytes(frames@) =~= content@);
        if file_meta.size == content@.len() {
            assert(crate::server::stream_err(frames@, file_meta.size, 2, content@.len() as int)
                is None);
        }
    }
    frames
}

/// Read the local file and stream it to the server under its relative
/// path. The outcome is exactly the server's.
pub fn upload_file(
    server: &mut ServerState,
    file_path: &FilePath,
    content: &Vec<u8>,
    file_meta: &LocalMeta,
    now: u64,
) -> (r: Result<RemoteFile, SyncError>)
    requires
        old(server).wf(),
    ensures
        final(server).wf(),
        r is Err ==> *final(server) == *old(server),
        r is Ok ==> r.unwrap().hash@ == digest_of(content@),
        r is Ok ==> {
            let row = s_find_path(final(server).files@, file_path.relative_path@);
            &&& row is Some
            &&& row.unwrap().hash == file_meta.hash
            &&& row.unwrap().size == file_meta.size
            &&& r.unwrap().path@ == file_path.relative_path@
            &&& r.unwrap().hash == file_meta.hash
            &&& r.unwrap().size == file_meta.size
            &&& r.unwrap() == crate::server::remote_view(row.unwrap())
            &&& forall|q: Seq<char>|
                q != file_path.relative_path@ ==> #[trigger] s_find_path(final(server).files@, q)
                    == s_find_path(old(server).files@, q)
            &&& final(server).user.storage_quota == old(server).user.storage_quota
            &&& final(server).next_id >= old(server).next_id
            &&& forall|id2: u64|
                id2 != r.unwrap().id ==> #[trigger] s_find_id(final(server).files@, id2)
                    == s_find_id(old(server).files@, id2)
            &&& s_find_id(final(server).files@, r.unwrap().id) == s_find_path(
                final(server).files@,
                file_path.relative_path@,
            )
            &&& match s_find_id(old(server).files@, r.unwrap().id) {
                Some(sf) => sf.path@ == file_path.relative_path@,
                None => r.unwrap().id >= old(server).next_id,
            }
        },
        file_meta.hash@ == digest_of(content@) && file_meta.size == content@.len() ==> (r is Ok
            <==> (crate::paths::valid_rel_path(file_path.relative_path@) && crate::server::quota_admits(
            old(server).user,
            file_meta.size,
        ) && old(server).next_id != u64::MAX && old(server).next_handle != u64::MAX)),
{
    let frames = make_upload_frames(file_path.get_rel().as_str(), content, file_meta);
    let r = server.upload(&frames, now);
    proof {
        let pre = *old(server);
        let fs = frames@;
        if file_meta.hash@ == digest_of(content@) && file_meta.size == content@.len() {
            let info = fs[0]->Info_0;
            assert(upload_outcome(pre, fs) is None <==> (crate::paths::valid_rel_path(info.path@)
                && crate::server::quota_admits(pre.user, info.size) && pre.next_id != u64::MAX
                && pre.next_handle != u64::MAX));
        }
        if r is Ok {
            let info = fs[0]->Info_0;
            let row = crate::server::committed_row(pre, info, now);
            assert(crate::server::upload_ok_post(pre, *server, fs, r.unwrap(), now));
            assert(s_find_path(server.files@, info.path@) == Some(row));
            assert(info.path@ == file_path.relative_path@);
            assert(row.hash == info.hash && info.hash == file_meta.hash);
            assert(s_find_id(server.files@, row.id) == Some(row));
            match s_find_path(pre.files@, info.path@) {
                Some(old_row) => {
                    assert(row.id == old_row.id);
                    let w = crate::table::lemma_sel_some(pre.files@, crate::server::s_by_path(
                        info.path@,
                    ));
                    pre.lemma_unique_id(old_row.id);
                    lemma_sel_present(pre.files@, crate::server::s_by_id(old_row.id), w);
                    assert(s_find_id(pre.files@, row.id) == Some(old_row));
                    assert(old_row.path@ == info.path@);
                }
                None => {
                    assert(row.id == pre.next_id);
                    assert forall|k: int| 0 <= k < pre.files@.len()
                        implies !(crate::server::s_by_id(row.id)(#[trigger] pre.files@[k])) by {
                        assert(pre.files@[k].id < pre.next_id);
                    }
                    crate::table::lemma_sel_absent(pre.files@, crate::server::s_by_id(row.id));
                }
            }
        }
    }
    r
}


/// The journal-server link of `SyncWorld::wf`, alone.
pub open spec fn journal_server_link(j: Journal, s: ServerState) -> bool {
    forall|i: int|
        0 <= i < j.entries@.len() ==> {
            let e = #[trigger] j.entries@[i];
            &&& e.id < s.next_id
            &&& match s_find_id(s.files@, e.id) {
                Some(sf) => sf.path@ == e.path@,
                None => true,
            }
        }
}

/// The link survives any journal change that only drops or re-hashes
/// rows, as long as the server is unchanged.
proof fn lemma_link_same_server(prej: Journal, postj: Journal, s: ServerState)
    requires
        prej.wf(),
        postj.wf(),
        journal_server_link(prej, s),
        forall|id2: u64|
            #[trigger] crate::journal::j_find_id(postj.entries@, id2) is Some ==> crate::journal::j_find_id(
                prej.entries@,
                id2,
            ) is Some && crate::journal::j_find_id(prej.entries@, id2).unwrap().path@
                == crate::journal::j_find_id(postj.entries@, id2).unwrap().path@,
    ensures
        journal_server_link(postj, s),
{
    assert forall|i: int| 0 <= i < postj.entries@.len() implies {
        let e = #[trigger] postj.entries@[i];
        &&& e.id < s.next_id
        &&& match s_find_id(s.files@, e.id) {
            Some(sf) => sf.path@ == e.path@,
            None => true,
        }
    } by {
        let e = postj.entries@[i];
        postj.lemma_unique_id(e.id);
        lemma_sel_present(postj.entries@, crate::journal::j_by_id(e.id), i);
        assert(crate::journal::j_find_id(postj.entries@, e.id) == Some(e));
        let w = crate::table::lemma_sel_some(prej.entries@, crate::journal::j_by_id(e.id));
        assert(prej.entries@[w].id == e.id);
        assert(prej.entries@[w].path@ == e.path@);
        assert(prej.entries@[w].id < s.next_id);
    }
}


/// The upload an action at `p` would make fits the account: the quota
/// admits the local file's size and the server can still assign fresh
/// identifiers.
pub open spec fn upload_would_fit(w: SyncWorld, p: Seq<char>) -> bool {
    &&& l_find(w.local.files@, p) is Some
    &&& crate::server::quota_admits(
        w.server.user,
        l_find(w.local.files@, p).unwrap().content@.len() as u64,
    )
    &&& w.server.next_id != u64::MAX
    &&& w.server.next_handle != u64::MAX
}

/// The decided action at `p` cannot fail: record-keeping, deletion of
/// the local copy, prompting and every download always go through;
/// deleting or re-recording against the server goes through when the
/// recorded id still matches; an upload goes through when the path is
/// valid and the quota admits the file.
pub open spec fn decision_success_owed(w: SyncWorld, p: Seq<char>) -> bool {
    let a = decide_of(w, p);
    ||| decision_success_stable(w, p)
    ||| ((a == SyncAction::UploadNew || a == SyncAction::ReUploadLocal)
        && crate::paths::valid_rel_path(p) && upload_would_fit(w, p))
}

/// The part of [`decision_success_owed`] that reads only this path's
/// records, never the quota counter: it keeps its truth while other
/// paths of the same pass are reconciled.
pub open spec fn decision_success_stable(w: SyncWorld, p: Seq<char>) -> bool {
    let a = decide_of(w, p);
    ||| a == SyncAction::Nothing
    ||| a == SyncAction::PromptUser
    ||| a == SyncAction::DropJournal
    ||| a == SyncAction::DeleteLocal
    ||| a == SyncAction::AdoptRemote
    ||| a == SyncAction::DownloadNew
    ||| a == SyncAction::ReplaceFromRemote
    ||| (a == SyncAction::DeleteRemote && s_find_id(
        w.server.files@,
        j_find_path(w.journal.entries@, p).unwrap().id,
    ) is Some)
    ||| (a == SyncAction::DownloadNewer && j_find_path(w.journal.entries@, p).unwrap().id
        == s_find_path(w.server.files@, p).unwrap().id)
}

/// The three stores hold the same records at `p` in both worlds.
pub open spec fn records_eq_at(a: SyncWorld, b: SyncWorld, p: Seq<char>) -> bool {
    &&& l_find(b.local.files@, p) == l_find(a.local.files@, p)
    &&& j_find_path(b.journal.entries@, p) == j_find_path(a.journal.entries@, p)
    &&& s_find_path(b.server.files@, p) == s_find_path(a.server.files@, p)
}

/// A path whose records are untouched decides the same action, and a
/// decision that cannot fail still cannot: the only ingredient beyond
/// the records themselves, the server's row under the recorded id,
/// sits at this very path and so is untouched too.
proof fn lemma_stable_transfer(pre: SyncWorld, cur: SyncWorld, p: Seq<char>)
    requires
        pre.wf(),
        cur.wf(),
        records_eq_at(pre, cur, p),
        decision_success_stable(pre, p),
    ensures
        decide_of(cur, p) == decide_of(pre, p),
        decision_success_stable(cur, p),
{
    let a = decide_of(pre, p);
    if a == SyncAction::DeleteRemote && s_find_id(
        pre.server.files@,
        j_find_path(pre.journal.entries@, p).unwrap().id,
    ) is Some {
        let jrow = j_find_path(pre.journal.entries@, p).unwrap();
        let w = crate::table::lemma_sel_some(pre.journal.entries@, crate::journal::j_by_path(p));
        assert(pre.journal.entries@[w] == jrow);
        let sf = s_find_id(pre.server.files@, jrow.id).unwrap();
        assert(sf.path@ == p);
        let ws = crate::table::lemma_sel_some(pre.server.files@, crate::server::s_by_id(
            jrow.id,
        ));
        pre.server.lemma_unique_path(p);
        lemma_sel_present(pre.server.files@, crate::server::s_by_path(p), ws);
        assert(s_find_path(pre.server.files@, p) == Some(sf));
        assert(s_find_path(cur.server.files@, p) == Some(sf));
        let wc = crate::table::lemma_sel_some(cur.server.files@, crate::server::s_by_path(p));
        cur.server.lemma_unique_id(sf.id);
        lemma_sel_present(cur.server.files@, crate::server::s_by_id(sf.id), wc);
        assert(s_find_id(cur.server.files@, jrow.id) is Some);
    }
}

/// When the server holds `id` at `p` and the journal has no row at
/// `p`, the journal has no row with `id` either.
proof fn lemma_add_free(j: Journal, s: ServerState, id: u64, p: Seq<char>)
    requires
        j.wf(),
        journal_server_link(j, s),
        match s_find_id(s.files@, id) {
            Some(sf) => sf.path@ == p,
            None => id >= s.next_id,
        },
        j_find_path(j.entries@, p) is None,
    ensures
        crate::journal::j_find_id(j.entries@, id) is None,
{
    if crate::journal::j_find_id(j.entries@, id) is Some {
        let w = crate::table::lemma_sel_some(j.entries@, crate::journal::j_by_id(id));
        let e = j.entries@[w];
        assert(e.id < s.next_id);
        match s_find_id(s.files@, id) {
            Some(sf) => {
                assert(e.path@ == p);
                j.lemma_unique_path(p);
                lemma_sel_present(j.entries@, crate::journal::j_by_path(p), w);
            }
            None => {}
        }
    }
}

/// A world whose triple is in step at `p` decides `Nothing` there.
pub proof fn lemma_synced_decides_nothing(w: SyncWorld, p: Seq<char>)
    requires
        path_synced(w, p),
    ensures
        decide_of(w, p) == SyncAction::Nothing,
{
}

/// Reconcile one path to completion: gather the three views, dispatch
/// on the triple, and apply the decision. Touches nothing but this
/// path's records; leaves everything untouched when the table says
/// `Nothing` or asks the user; and on any successful terminal status
/// the path is in step afterwards.
pub fn sync_file(world: &mut SyncWorld, file_path: &FilePath, now: u64) -> (r: Result<
    FileStatus,
    SyncError,
>)
    requires
        old(world).wf(),
        file_path.wf(),
        file_path.sync_dir@ == old(world).sync_dir@,
    ensures
        final(world).wf(),
        final(world).statuses == old(world).statuses,
        stores_frame(*old(world), *final(world), file_path.relative_path@),
        r matches Ok(st) && status_good(st) ==> path_synced(
            *final(world),
            file_path.relative_path@,
        ),
        r matches Ok(st) && status_good(st) ==> action_effect(
            *old(world),
            *final(world),
            file_path.relative_path@,
            decide_of(*old(world), file_path.relative_path@),
        ),
        r matches Ok(st) ==> action_status_matches(
            decide_of(*old(world), file_path.relative_path@),
            st,
        ),
        r matches Ok(st) && st is WaitingUser ==> *final(world) == *old(world),
        decide_of(*old(world), file_path.relative_path@) == SyncAction::Nothing ==> *final(world)
            == *old(world) && r == Ok::<FileStatus, SyncError>(FileStatus::Success),
        decision_success_owed(*old(world), file_path.relative_path@) ==> r is Ok,
        r matches Ok(FileStatus::WaitingUser(keep)) ==> {
            &&& keep.file_path == *file_path
            &&& keep.sql_file == j_find_path(
                old(world).journal.entries@,
                file_path.relative_path@,
            )
            &&& s_find_path(old(world).server.files@, file_path.relative_path@) is Some
            &&& keep.remote_file == crate::server::remote_view(
                s_find_path(old(world).server.files@, file_path.relative_path@).unwrap(),
            )
            &&& l_find(old(world).local.files@, file_path.relative_path@) is Some
            &&& keep.local_meta.hash@ == digest_of(
                l_find(old(world).local.files@, file_path.relative_path@).unwrap().content@,
            )
            &&& keep.local_meta.size == l_find(
                old(world).local.files@,
                file_path.relative_path@,
            ).unwrap().content@.len()
        },
{
    let ghost pre = *old(world);
    let ghost relg = file_path.relative_path@;
    let rel = file_path.to_rel_str();

    let sql_file = world.journal.find_file_by_path(rel.as_str());
    let remote_file = world.server.find_by_path(rel.as_str());
    let local_content = world.local.read(rel.as_str());
    proof {
        crate::paths::lemma_temp_download_shape(relg);
        // name the matching rows, so that the stores' row-level
        // well-formedness facts are in scope for every branch
        if l_find(pre.local.files@, relg) is Some {
            let w = crate::table::lemma_sel_some(pre.local.files@, crate::localdir::l_by_path(
                relg,
            ));
        }
        if s_find_path(pre.server.files@, relg) is Some {
            let w = crate::table::lemma_sel_some(pre.server.files@, crate::server::s_by_path(
                relg,
            ));
        }
        if j_find_path(pre.journal.entries@, relg) is Some {
            let w = crate::table::lemma_sel_some(pre.journal.entries@, crate::journal::j_by_path(
                relg,
            ));
        }
    }
    match (local_content, sql_file, remote_file) {
        (Option::None, Option::None, Option::None) => {
            // nothing anywhere: already in step
            Ok(FileStatus::Success)
        }
        (Option::None, Option::None, Option::Some(remote_file)) => {
            // only the server has it: download and record
            match download_file(&mut world.local, &world.server, &remote_file) {
                Ok(()) => {}
                Err(e) => {
                    return Err(e);
                }
            }
            match world.journal.add_file(&remote_file) {
                Ok(()) => {}
                Err(e) => {
                    proof {
                        lemma_link_same_server(pre.journal, world.journal, world.server);
                    }
                    return Err(e);
                }
            }
            proof {
                assert(world.journal.entries@ == pre.journal.entries@.push(
                    crate::journal::entry_of(remote_file),
                ));
                assert forall|i: int| 0 <= i < world.journal.entries@.len() implies {
                    let e = #[trigger] world.journal.entries@[i];
                    &&& e.id < world.server.next_id
                    &&& match s_find_id(world.server.files@, e.id) {
                        Some(sf) => sf.path@ == e.path@,
                        None => true,
                    }
                } by {
                    if i < pre.journal.entries@.len() {
                        assert(world.journal.entries@[i] == pre.journal.entries@[i]);
                    } else {
                        assert(world.journal.entries@[i] == crate::journal::entry_of(remote_file));
                    }
                }
            }
            Ok(FileStatus::Added)
        }
        (Option::None, Option::Some(sql_file), Option::None) => {
            // only the journal remembers it: drop the stale row
            match world.journal.delete_file_by_id(sql_file.id) {
                Ok(()) => {}
                Err(e) => {
                    return Err(e);
                }
            }
            proof {
                lemma_link_same_server(pre.journal, world.journal, world.server);
            }
            Ok(FileStatus::Success)
        }
        (Option::None, Option::Some(sql_file), Option::Some(remote_file)) => {
            if crate::paths::str_eq_chars(sql_file.hash.as_str(), remote_file.hash.as_str()) {
                // deleted locally: delete on the server too
                match world.server.delete(sql_file.id) {
                    Ok(()) => {}
                    Err(e) => {
                        return Err(e);
                    }
                }
                proof {
                    let gone = s_find_id(pre.server.files@, sql_file.id).unwrap();
                    assert(gone.path@ == sql_file.path@);
                    assert(sql_file.path@ == relg);
                    assert forall|i: int| 0 <= i < world.journal.entries@.len() implies {
                        let e = #[trigger] world.journal.entries@[i];
                        &&& e.id < world.server.next_id
                        &&& match s_find_id(world.server.files@, e.id) {
                            Some(sf) => sf.path@ == e.path@,
                            None => true,
                        }
                    } by {
                        assert(world.journal.entries@[i] == pre.journal.entries@[i]);
                    }
                }
                match world.journal.delete_file_by_id(sql_file.id) {
                    Ok(()) => {}
                    Err(e) => {
                        proof {
                            lemma_link_same_server(pre.journal, world.journal, world.server);
                        }
                        return Err(e);
                    }
                }
                proof {
                    lemma_link_same_server(pre.journal, world.journal, world.server);
                }
                Ok(FileStatus::Deleted)
            } else {
                // replaced on the server while the local copy is gone
                match world.journal.delete_file_by_id(sql_file.id) {
                    Ok(()) => {}
                    Err(e) => {
                        proof {
                            lemma_link_same_server(pre.journal, world.journal, world.server);
                        }
                        return Err(e);
                    }
                }
                match download_file(&mut world.local, &world.server, &remote_file) {
                    Ok(()) => {}
                    Err(e) => {
                        proof {
                            lemma_link_same_server(pre.journal, world.journal, world.server);
                        }
                        return Err(e);
                    }
                }
                let ghost midj = world.journal;
                match world.journal.add_file(&remote_file) {
                    Ok(()) => {}
                    Err(e) => {
                        proof {
                            lemma_link_same_server(pre.journal, midj, world.server);
                            lemma_link_same_server(midj, world.journal, world.server);
                        }
                        return Err(e);
                    }
                }
                proof {
                    lemma_link_same_server(pre.journal, midj, world.server);
                    assert(world.journal.entries@ == midj.entries@.push(
                        crate::journal::entry_of(remote_file),
                    ));
                    assert forall|i: int| 0 <= i < world.journal.entries@.len() implies {
                        let e = #[trigger] world.journal.entries@[i];
                        &&& e.id < world.server.next_id
                        &&& match s_find_id(world.server.files@, e.id) {
                            Some(sf) => sf.path@ == e.path@,
                            None => true,
                        }
                    } by {
                        if i < midj.entries@.len() {
                            assert(world.journal.entries@[i] == midj.entries@[i]);
                        } else {
                            assert(world.journal.entries@[i] == crate::journal::entry_of(
                                remote_file,
                            ));
                        }
                    }
                }
                Ok(FileStatus::Success)
            }
        }
        (Option::Some(content), Option::None, Option::None) => {
            // only the filesystem has it: upload and record
            let file_meta = meta_of_bytes(&content);
            let uploaded = match upload_file(&mut world.server, file_path, &content, &file_meta,
                now) {
                Ok(f) => f,
                Err(e) => {
                    return Err(e);
                }
            };
            proof {
                lemma_link_after_upload(world.journal, pre.server, world.server, uploaded.id,
                    relg);
            }
            let ghost midw = *world;
            match world.journal.add_file(&uploaded) {
                Ok(()) => {}
                Err(e) => {
                    return Err(e);
                }
            }
            proof {
                lemma_link_push(midw.journal, world.journal, world.server, uploaded);
            }
            Ok(FileStatus::Added)
        }
        (Option::Some(content), Option::None, Option::Some(remote_file)) => {
            let file_meta = meta_of_bytes(&content);
            if crate::paths::str_eq_chars(file_meta.hash.as_str(), remote_file.hash.as_str()) {
                // already the same bytes on both sides: just record it
                let ghost midw = *world;
                match world.journal.add_file(&remote_file) {
                    Ok(()) => {}
                    Err(e) => {
                        return Err(e);
                    }
                }
                proof {
                    lemma_link_push(midw.journal, world.journal, world.server, remote_file);
                }
                Ok(FileStatus::Success)
            } else {
                // changed locally while never having been synced: ask
                Ok(FileStatus::WaitingUser(FilePromptKeep {
                    file_path: file_path.duplicate(),
                    local_meta: file_meta,
                    sql_file: None,
                    remote_file,
                }))
            }
        }
        (Option::Some(content), Option::Some(sql_file), Option::None) => {
            let file_meta = meta_of_bytes(&content);
            if crate::paths::str_eq_chars(file_meta.hash.as_str(), sql_file.hash.as_str()) {
                // deleted on the server: delete the local copy
                match world.local.remove(rel.as_str()) {
                    Ok(()) => {}
                    Err(e) => {
                        return Err(e);
                    }
                }
                match world.journal.delete_file_by_id(sql_file.id) {
                    Ok(()) => {}
                    Err(e) => {
                        proof {
                            lemma_link_same_server(pre.journal, world.journal, world.server);
                        }
                        return Err(e);
                    }
                }
                proof {
                    lemma_link_same_server(pre.journal, world.journal, world.server);
                }
                Ok(FileStatus::Deleted)
            } else {
                // changed locally: upload the new bytes
                match world.journal.delete_file_by_id(sql_file.id) {
                    Ok(()) => {}
                    Err(e) => {
                        proof {
                            lemma_link_same_server(pre.journal, world.journal, world.server);
                        }
                        return Err(e);
                    }
                }
                let ghost midw = *world;
                proof {
                    lemma_link_same_server(pre.journal, world.journal, world.server);
                }
                let uploaded = match upload_file(&mut world.server, file_path, &content,
                    &file_meta, now) {
                    Ok(f) => f,
                    Err(e) => {
                        return Err(e);
                    }
                };
                proof {
                    lemma_link_after_upload(world.journal, midw.server, world.server, uploaded.id,
                        relg);
                }
                let ghost midw2 = *world;
                match world.journal.add_file(&uploaded) {
                    Ok(()) => {}
                    Err(e) => {
                        return Err(e);
                    }
                }
                proof {
                    lemma_link_push(midw2.journal, world.journal, world.server, uploaded);
                }
                Ok(FileStatus::Success)
            }
        }
        (Option::Some(content), Option::Some(sql_file), Option::Some(remote_file)) => {
            let file_meta = meta_of_bytes(&content);
            let l_eq_j = crate::paths::str_eq_chars(file_meta.hash.as_str(),
                sql_file.hash.as_str());
            let l_eq_r = crate::paths::str_eq_chars(file_meta.hash.as_str(),
                remote_file.hash.as_str());
            let j_eq_r = crate::paths::str_eq_chars(sql_file.hash.as_str(),
                remote_file.hash.as_str());
            if l_eq_j && l_eq_r {
                // all three agree: nothing to do
                Ok(FileStatus::Success)
            } else if l_eq_j {
                // the server moved on: download the new content
                match download_file(&mut world.local, &world.server, &remote_file) {
                    Ok(()) => {}
                    Err(e) => {
                        proof {
                            crate::server::lemma_path_id(world.server, relg);
                        }
                        return Err(e);
                    }
                }
                match world.journal.replace_file_hash(&remote_file) {
                    Ok(()) => {}
                    Err(e) => {
                        proof {
                            lemma_link_same_server(pre.journal, world.journal, world.server);
                            let w = crate::table::lemma_sel_some(pre.journal.entries@,
                                crate::journal::j_by_path(relg));
                            pre.journal.lemma_unique_id(sql_file.id);
                            lemma_sel_present(pre.journal.entries@, crate::journal::j_by_id(
                                sql_file.id,
                            ), w);
                        }
                        return Err(e);
                    }
                }
                proof {
                    lemma_link_same_server(pre.journal, world.journal, world.server);
                }
                Ok(FileStatus::Success)
            } else if j_eq_r {
                // the local copy moved on: upload the new bytes
                match world.journal.delete_file_by_id(sql_file.id) {
                    Ok(()) => {}
                    Err(e) => {
                        proof {
                            lemma_link_same_server(pre.journal, world.journal, world.server);
                        }
                        return Err(e);
                    }
                }
                let ghost midw = *world;
                proof {
                    lemma_link_same_server(pre.journal, world.journal, world.server);
                }
                let uploaded = match upload_file(&mut world.server, file_path, &content,
                    &file_meta, now) {
                    Ok(f) => f,
                    Err(e) => {
                        return Err(e);
                    }
                };
                proof {
                    lemma_link_after_upload(world.journal, midw.server, world.server, uploaded.id,
                        relg);
                }
                let ghost midw2 = *world;
                match world.journal.add_file(&uploaded) {
                    Ok(()) => {}
                    Err(e) => {
                        return Err(e);
                    }
                }
                proof {
                    lemma_link_push(midw2.journal, world.journal, world.server, uploaded);
                }
                Ok(FileStatus::Success)
            } else {
                // both sides changed independently: ask
                Ok(FileStatus::WaitingUser(FilePromptKeep {
                    file_path: file_path.duplicate(),
                    local_meta: file_meta,
                    sql_file: Some(sql_file),
                    remote_file,
                }))
            }
        }
    }
}

/// The link survives an upload at `p`, which touches no other path's
/// row and assigns only fresh identifiers.
proof fn lemma_link_after_upload(
    j: Journal,
    pres: ServerState,
    posts: ServerState,
    row_id: u64,
    p: Seq<char>,
)
    requires
        j.wf(),
        journal_server_link(j, pres),
        pres.next_id <= posts.next_id,
        forall|id2: u64|
            id2 != row_id ==> #[trigger] s_find_id(posts.files@, id2) == s_find_id(
                pres.files@,
                id2,
            ),
        match s_find_id(pres.files@, row_id) {
            Some(sf) => sf.path@ == p,
            None => row_id >= pres.next_id,
        },
        match s_find_id(posts.files@, row_id) {
            Some(sf) => sf.path@ == p,
            None => true,
        },
    ensures
        journal_server_link(j, posts),
{
    assert forall|i: int| 0 <= i < j.entries@.len() implies {
        let e = #[trigger] j.entries@[i];
        &&& e.id < posts.next_id
        &&& match s_find_id(posts.files@, e.id) {
            Some(sf) => sf.path@ == e.path@,
            None => true,
        }
    } by {
        let e = j.entries@[i];
        assert(e.id < pres.next_id);
        if e.id == row_id {
            match s_find_id(pres.files@, row_id) {
                Some(sf) => {
                    assert(e.path@ == sf.path@);
                    assert(e.path@ == p);
                }
                None => {
                    assert(false);
                }
            }
        }
    }
}

/// The link survives recording a file whose id the server holds at
/// that very path.
proof fn lemma_link_push(
    prej: Journal,
    postj: Journal,
    s: ServerState,
    file: RemoteFile,
)
    requires
        journal_server_link(prej, s),
        postj.entries@ == prej.entries@.push(crate::journal::entry_of(file)),
        file.id < s.next_id,
        match s_find_id(s.files@, file.id) {
            Some(sf) => sf.path@ == file.path@,
            None => true,
        },
    ensures
        journal_server_link(postj, s),
{
    assert forall|i: int| 0 <= i < postj.entries@.len() implies {
        let e = #[trigger] postj.entries@[i];
        &&& e.id < s.next_id
        &&& match s_find_id(s.files@, e.id) {
            Some(sf) => sf.path@ == e.path@,
            None => true,
        }
    } by {
        if i < prej.entries@.len() {
            assert(postj.entries@[i] == prej.entries@[i]);
        } else {
            assert(postj.entries@[i] == crate::journal::entry_of(file));
        }
    }
}


/// Every non-reserved path that either side still has is in step.
pub open spec fn all_synced(w: SyncWorld) -> bool {
    forall|p: Seq<char>|
        !is_reserved_path(p) && (#[trigger] l_find(w.local.files@, p) is Some || #[trigger] s_find_path(
            w.server.files@,
            p,
        ) is Some) ==> path_synced(w, p)
}

/// Enumerate one path: skip it when it is reserved or already listed;
/// otherwise list it, reconcile it, and record the outcome (or
/// `Failed`) on its listing row.
pub fn process_path(world: &mut SyncWorld, file_path: FilePath, size: u64, now: u64)
    requires
        old(world).wf(),
        file_path.wf(),
        file_path.sync_dir@ == old(world).sync_dir@,
    ensures
        final(world).wf(),
        stores_frame(*old(world), *final(world), file_path.relative_path@),
        forall|q: Seq<char>|
            q != file_path.relative_path@ ==> #[trigger] st_find(final(world).statuses.entries@, q)
                == st_find(old(world).statuses.entries@, q),
        (is_reserved_path(file_path.relative_path@) || st_find(
            old(world).statuses.entries@,
            file_path.relative_path@,
        ) is Some) ==> *final(world) == *old(world),
        (!is_reserved_path(file_path.relative_path@) && st_find(
            old(world).statuses.entries@,
            file_path.relative_path@,
        ) is None) ==> {
            let entry = st_find(final(world).statuses.entries@, file_path.relative_path@);
            &&& entry is Some
            &&& entry.unwrap().path == file_path
            &&& (entry.unwrap().status is Failed || action_status_matches(
                decide_of(*old(world), file_path.relative_path@),
                entry.unwrap().status,
            ))
            &&& (decision_success_owed(*old(world), file_path.relative_path@)
                ==> action_status_matches(
                decide_of(*old(world), file_path.relative_path@),
                entry.unwrap().status,
            ))
            &&& !(entry.unwrap().status is WaitingQueue)
            &&& (entry.unwrap().status is WaitingUser ==> stores_eq(*old(world), *final(world)))
            &&& (status_good(entry.unwrap().status) ==> path_synced(
                *final(world),
                file_path.relative_path@,
            ) && action_effect(
                *old(world),
                *final(world),
                file_path.relative_path@,
                decide_of(*old(world), file_path.relative_path@),
            ))
        },
        (!is_reserved_path(file_path.relative_path@) && st_find(
            old(world).statuses.entries@,
            file_path.relative_path@,
        ) is None && path_synced(*old(world), file_path.relative_path@)) ==> stores_eq(
            *old(world),
            *final(world),
        ) && st_find(
            final(world).statuses.entries@,
            file_path.relative_path@,
        ).unwrap().status is Success,
{
    let ghost pre = *old(world);
    let ghost relg = file_path.relative_path@;
    let rel = file_path.to_rel_str();
    if world.statuses.has(rel.as_str()) {
        return;
    }
    if crate::paths::is_reserved(rel.as_str()) {
        return;
    }
    world.statuses.insert(FileElementProps {
        status: FileStatus::WaitingQueue,
        path: file_path.duplicate(),
        size,
    });
    let ghost midw = *world;
    proof {
        assert(path_synced(midw, relg) == path_synced(pre, relg));
        if path_synced(pre, relg) {
            lemma_synced_decides_nothing(midw, relg);
        }
    }
    let status = sync_file(world, &file_path, now);
    match status {
        Ok(st) => {
            world.statuses.set_status(rel.as_str(), st, None);
        }
        Err(_) => {
            world.statuses.set_status(rel.as_str(), FileStatus::Failed, None);
        }
    }
}

/// One full pass: clear the listing, reconcile every regular file
/// under the sync root, then every remote file not already seen, and
/// report the account's storage use.
///
/// After a pass whose every listed status is a good terminal one, all
/// paths are in step; and a pass over a world already in step changes
/// none of the three stores and lists every path as `Success`.
pub fn refresh(world: &mut SyncWorld, now: u64) -> (line: String)
    requires
        old(world).wf(),
    ensures
        final(world).wf(),
        refresh_post(*old(world), *final(world)),
        line@ == crate::format::storage_line_of(
            final(world).server.user.storage_used,
            final(world).server.user.storage_quota,
        ),
{
    let ghost pre = *old(world);
    let sd = world.sync_dir.clone();
    world.statuses.clear();

    let snap = world.local.paths_and_sizes();
    proof {
        assert(world.local == pre.local);
        assert forall|i: int| 0 <= i < snap@.len() implies (#[trigger] snap@[i]).0@.len() > 0
            && snap@[i].0@[0] == '/' by {
            assert(snap@[i].0@ == pre.local.files@[i].path@);
        }
        assert forall|p: Seq<char>| #[trigger] l_find(world.local.files@, p) is Some
            implies exists|i: int| 0 <= i < snap@.len() && (#[trigger] snap@[i]).0@ == p by {
            let w = crate::table::lemma_sel_some(world.local.files@, crate::localdir::l_by_path(
                p,
            ));
            assert(snap@[w].0@ == p);
        }
    }
    let mut k: usize = 0;
    while k < snap.len()
        invariant
            world.wf(),
            0 <= k <= snap@.len(),
            sd@ == world.sync_dir@,
            world.sync_dir == pre.sync_dir,
            world.server.user.storage_quota == pre.server.user.storage_quota,
            pre.wf(),
            snap@.len() == pre.local.files@.len(),
            forall|i: int|
                0 <= i < snap@.len() ==> (#[trigger] snap@[i]).0@ == pre.local.files@[i].path@,
            forall|i: int|
                0 <= i < snap@.len() ==> (#[trigger] snap@[i]).0@.len() > 0 && snap@[i].0@[0]
                    == '/',
            forall|p: Seq<char>|
                !is_reserved_path(p) && #[trigger] l_find(world.local.files@, p) is Some ==> (
                st_find(world.statuses.entries@, p) is Some || exists|i: int|
                    k <= i < snap@.len() && (#[trigger] snap@[i]).0@ == p),
            forall|i: int|
                0 <= i < world.statuses.entries@.len() ==> !is_reserved_path(
                    (#[trigger] world.statuses.entries@[i]).path.relative_path@,
                ),
            forall|i: int|
                0 <= i < world.statuses.entries@.len() ==> {
                    let e = #[trigger] world.statuses.entries@[i];
                    status_good(e.status) ==> path_synced(*world, e.path.relative_path@)
                },
            forall|p: Seq<char>|
                !is_reserved_path(p) && #[trigger] st_find(world.statuses.entries@, p) is None
                    ==> records_eq_at(pre, *world, p),
            forall|p: Seq<char>|
                !is_reserved_path(p) && decision_success_stable(pre, p) && #[trigger] st_find(
                    world.statuses.entries@,
                    p,
                ) is Some ==> action_status_matches(
                    decide_of(pre, p),
                    st_find(world.statuses.entries@, p).unwrap().status,
                ),
            all_synced(pre) ==> stores_eq(pre, *world) && (forall|i: int|
                0 <= i < world.statuses.entries@.len()
                    ==> (#[trigger] world.statuses.entries@[i]).status is Success),
        decreases snap@.len() - k,
    {
        let p = snap[k].0.clone();
        let size = snap[k].1;
        let file_path = FilePath::from_rel(sd.as_str(), p.as_str());
        let ghost loop_pre = *world;
        proof {
            if all_synced(pre) && !is_reserved_path(p@) && st_find(
                world.statuses.entries@,
                p@,
            ) is None {
                assert(stores_eq(pre, loop_pre));
                assert(snap@[k as int].0@ == pre.local.files@[k as int].path@);
                pre.local.lemma_unique_path(p@);
                lemma_sel_present(pre.local.files@, crate::localdir::l_by_path(p@), k as int);
                assert(l_find(pre.local.files@, p@) is Some);
                assert(path_synced(pre, p@));
                assert(path_synced(loop_pre, p@));
            }
        }
        process_path(world, file_path, size, now);
        proof {
            lemma_refresh_step(loop_pre, *world, p@);
            assert forall|p2: Seq<char>|
                !is_reserved_path(p2) && #[trigger] l_find(world.local.files@, p2) is Some
                implies (st_find(world.statuses.entries@, p2) is Some || exists|i: int|
                    k + 1 <= i < snap@.len() && (#[trigger] snap@[i]).0@ == p2) by {
                crate::paths::lemma_temp_download_shape(p@);
                if p2 == p@ {
                    assert(st_find(world.statuses.entries@, p2) is Some);
                } else {
                    assert(p2 != temp_download_of(p@));
                    assert(l_find(loop_pre.local.files@, p2) is Some);
                    if st_find(loop_pre.statuses.entries@, p2) is Some {
                        assert(st_find(world.statuses.entries@, p2) is Some);
                    } else {
                        let i = choose|i: int|
                            k <= i < snap@.len() && (#[trigger] snap@[i]).0@ == p2;
                        assert(i != k);
                        assert(k + 1 <= i < snap@.len() && snap@[i].0@ == p2);
                    }
                }
            }
            if all_synced(pre) {
                if is_reserved_path(p@) || st_find(loop_pre.statuses.entries@, p@) is Some {
                    assert(*world == loop_pre);
                } else {
                    assert(stores_eq(loop_pre, *world));
                    assert(st_find(
                        world.statuses.entries@,
                        p@,
                    ).unwrap().status is Success);
                    assert forall|i: int| 0 <= i < world.statuses.entries@.len()
                        implies (#[trigger] world.statuses.entries@[i]).status is Success by {
                        let e = world.statuses.entries@[i];
                        let q = e.path.relative_path@;
                        world.statuses.lemma_unique_path(q);
                        lemma_sel_present(world.statuses.entries@, st_by_path(q), i);
                        if q == p@ {
                        } else {
                            assert(st_find(world.statuses.entries@, q) == st_find(
                                loop_pre.statuses.entries@,
                                q,
                            ));
                            let w = crate::table::lemma_sel_some(loop_pre.statuses.entries@,
                                st_by_path(q));
                            assert(loop_pre.statuses.entries@[w].status is Success);
                        }
                    }
                }
            }

            assert forall|p2: Seq<char>|
                !is_reserved_path(p2) && #[trigger] st_find(world.statuses.entries@, p2) is None
                implies records_eq_at(pre, *world, p2) by {
                crate::paths::lemma_temp_download_shape(p@);
                if p2 == p@ {
                    if is_reserved_path(p@) {
                    } else if st_find(loop_pre.statuses.entries@, p@) is Some {
                        assert(*world == loop_pre);
                        assert(false);
                    } else {
                        assert(st_find(world.statuses.entries@, p@) is Some);
                        assert(false);
                    }
                } else {
                    assert(st_find(world.statuses.entries@, p2) == st_find(
                        loop_pre.statuses.entries@,
                        p2,
                    ));
                    assert(records_eq_at(pre, loop_pre, p2));
                    assert(p2 != temp_download_of(p@));
                    assert(l_find(world.local.files@, p2) == l_find(loop_pre.local.files@, p2));
                    assert(j_find_path(world.journal.entries@, p2) == j_find_path(
                        loop_pre.journal.entries@,
                        p2,
                    ));
                    assert(s_find_path(world.server.files@, p2) == s_find_path(
                        loop_pre.server.files@,
                        p2,
                    ));
                }
            }
            assert forall|p2: Seq<char>|
                !is_reserved_path(p2) && decision_success_stable(pre, p2) && #[trigger] st_find(
                    world.statuses.entries@,
                    p2,
                ) is Some implies action_status_matches(
                decide_of(pre, p2),
                st_find(world.statuses.entries@, p2).unwrap().status,
            ) by {
                if p2 == p@ {
                    if is_reserved_path(p@) {
                    } else if st_find(loop_pre.statuses.entries@, p@) is Some {
                        assert(*world == loop_pre);
                    } else {
                        assert(records_eq_at(pre, loop_pre, p@));
                        lemma_stable_transfer(pre, loop_pre, p@);
                        assert(decision_success_owed(loop_pre, p@));
                        assert(action_status_matches(
                            decide_of(loop_pre, p@),
                            st_find(world.statuses.entries@, p@).unwrap().status,
                        ));
                    }
                } else {
                    assert(st_find(world.statuses.entries@, p2) == st_find(
                        loop_pre.statuses.entries@,
                        p2,
                    ));
                }
            }
        }
        k += 1;
    }

    let listing = world.server.get_all();
    let ghost mid = *world;
    proof {
        assert forall|i: int| 0 <= i < listing@.len() implies (#[trigger] listing@[i]).path@.len()
            > 0 && listing@[i].path@[0] == '/' && !is_reserved_path(listing@[i].path@) by {
            assert(listing@[i] == crate::server::remote_view(mid.server.files@[i]));
            assert(crate::paths::valid_rel_path(mid.server.files@[i].path@));
        }
        assert forall|p: Seq<char>| #[trigger] s_find_path(world.server.files@, p) is Some
            implies exists|i: int| 0 <= i < listing@.len() && (#[trigger] listing@[i]).path@
            == p by {
            let w = crate::table::lemma_sel_some(world.server.files@, crate::server::s_by_path(
                p,
            ));
            assert(listing@[w].path@ == p);
        }
    }
    let mut k2: usize = 0;
    while k2 < listing.len()
        invariant
            world.wf(),
            0 <= k2 <= listing@.len(),
            sd@ == world.sync_dir@,
            world.sync_dir == pre.sync_dir,
            world.server.user.storage_quota == pre.server.user.storage_quota,
            pre.wf(),
            mid.server.wf(),
            listing@.len() == mid.server.files@.len(),
            forall|i: int|
                0 <= i < listing@.len() ==> #[trigger] listing@[i] == crate::server::remote_view(
                    mid.server.files@[i],
                ),
            forall|i: int|
                0 <= i < listing@.len() ==> (#[trigger] listing@[i]).path@.len() > 0
                    && listing@[i].path@[0] == '/' && !is_reserved_path(listing@[i].path@),
            forall|p: Seq<char>|
                !is_reserved_path(p) && #[trigger] l_find(world.local.files@, p) is Some
                    ==> st_find(world.statuses.entries@, p) is Some,
            forall|p: Seq<char>|
                !is_reserved_path(p) && #[trigger] s_find_path(world.server.files@, p) is Some
                    ==> (st_find(world.statuses.entries@, p) is Some || exists|i: int|
                    k2 <= i < listing@.len() && (#[trigger] listing@[i]).path@ == p),
            forall|i: int|
                0 <= i < world.statuses.entries@.len() ==> !is_reserved_path(
                    (#[trigger] world.statuses.entries@[i]).path.relative_path@,
                ),
            forall|i: int|
                0 <= i < world.statuses.entries@.len() ==> {
                    let e = #[trigger] world.statuses.entries@[i];
                    status_good(e.status) ==> path_synced(*world, e.path.relative_path@)
                },
            forall|p: Seq<char>|
                !is_reserved_path(p) && #[trigger] st_find(world.statuses.entries@, p) is None
                    ==> records_eq_at(pre, *world, p),
            forall|p: Seq<char>|
                !is_reserved_path(p) && decision_success_stable(pre, p) && #[trigger] st_find(
                    world.statuses.entries@,
                    p,
                ) is Some ==> action_status_matches(
                    decide_of(pre, p),
                    st_find(world.statuses.entries@, p).unwrap().status,
                ),
            all_synced(pre) ==> stores_eq(pre, *world) && stores_eq(pre, mid) && (forall|i: int|
                0 <= i < world.statuses.entries@.len()
                    ==> (#[trigger] world.statuses.entries@[i]).status is Success),
        decreases listing@.len() - k2,
    {
        let size = listing[k2].size;
        let file_path = FilePath::from_rel(sd.as_str(), listing[k2].path.as_str());
        let ghost loop_pre = *world;
        let ghost pg = listing@[k2 as int].path@;
        proof {
            if all_synced(pre) && !is_reserved_path(pg) && st_find(
                world.statuses.entries@,
                pg,
            ) is None {
                assert(listing@[k2 as int] == crate::server::remote_view(
                    mid.server.files@[k2 as int],
                ));
                assert(stores_eq(pre, mid));
                pre.server.lemma_unique_path(pg);
                lemma_sel_present(pre.server.files@, crate::server::s_by_path(pg), k2 as int);
                assert(s_find_path(pre.server.files@, pg) is Some);
                assert(path_synced(pre, pg));
                assert(path_synced(loop_pre, pg));
            }
        }
        process_path(world, file_path, size, now);
        proof {
            lemma_refresh_step(loop_pre, *world, pg);
            crate::paths::lemma_temp_download_shape(pg);
            assert forall|p2: Seq<char>|
                !is_reserved_path(p2) && #[trigger] l_find(world.local.files@, p2) is Some
                implies st_find(world.statuses.entries@, p2) is Some by {
                if p2 == pg {
                    assert(st_find(world.statuses.entries@, p2) is Some);
                } else {
                    assert(p2 != temp_download_of(pg));
                    assert(l_find(loop_pre.local.files@, p2) is Some);
                    assert(st_find(loop_pre.statuses.entries@, p2) is Some);
                    assert(st_find(world.statuses.entries@, p2) is Some);
                }
            }
            assert forall|p2: Seq<char>|
                !is_reserved_path(p2) && #[trigger] s_find_path(world.server.files@, p2) is Some
                implies (st_find(world.statuses.entries@, p2) is Some || exists|i: int|
                    k2 + 1 <= i < listing@.len() && (#[trigger] listing@[i]).path@ == p2) by {
                if p2 == pg {
                    assert(st_find(world.statuses.entries@, p2) is Some);
                } else {
                    assert(s_find_path(loop_pre.server.files@, p2) is Some);
                    if st_find(loop_pre.statuses.entries@, p2) is Some {
                        assert(st_find(world.statuses.entries@, p2) is Some);
                    } else {
                        let i = choose|i: int|
                            k2 <= i < listing@.len() && (#[trigger] listing@[i]).path@ == p2;
                        assert(i != k2);
                        assert(k2 + 1 <= i < listing@.len() && listing@[i].path@ == p2);
                    }
                }
            }
            if all_synced(pre) {
                if is_reserved_path(pg) || st_find(loop_pre.statuses.entries@, pg) is Some {
                    assert(*world == loop_pre);
                } else {
                    assert(stores_eq(loop_pre, *world));
                    assert(st_find(
                        world.statuses.entries@,
                        pg,
                    ).unwrap().status is Success);
                    assert forall|i: int| 0 <= i < world.statuses.entries@.len()
                        implies (#[trigger] world.statuses.entries@[i]).status is Success by {
                        let e = world.statuses.entries@[i];
                        let q = e.path.relative_path@;
                        world.statuses.lemma_unique_path(q);
                        lemma_sel_present(world.statuses.entries@, st_by_path(q), i);
                        if q == pg {
                        } else {
                            assert(st_find(world.statuses.entries@, q) == st_find(
                                loop_pre.statuses.entries@,
                                q,
                            ));
                            let w = crate::table::lemma_sel_some(loop_pre.statuses.entries@,
                                st_by_path(q));
                            assert(loop_pre.statuses.entries@[w].status is Success);
                        }
                    }
                }
            }

            assert forall|p2: Seq<char>|
                !is_reserved_path(p2) && #[trigger] st_find(world.statuses.entries@, p2) is None
                implies records_eq_at(pre, *world, p2) by {
                crate::paths::lemma_temp_download_shape(pg);
                if p2 == pg {
                    if is_reserved_path(pg) {
                    } else if st_find(loop_pre.statuses.entries@, pg) is Some {
                        assert(*world == loop_pre);
                        assert(false);
                    } else {
                        assert(st_find(world.statuses.entries@, pg) is Some);
                        assert(false);
                    }
                } else {
                    assert(st_find(world.statuses.entries@, p2) == st_find(
                        loop_pre.statuses.entries@,
                        p2,
                    ));
                    assert(records_eq_at(pre, loop_pre, p2));
                    assert(p2 != temp_download_of(pg));
                    assert(l_find(world.local.files@, p2) == l_find(loop_pre.local.files@, p2));
                    assert(j_find_path(world.journal.entries@, p2) == j_find_path(
                        loop_pre.journal.entries@,
                        p2,
                    ));
                    assert(s_find_path(world.server.files@, p2) == s_find_path(
                        loop_pre.server.files@,
                        p2,
                    ));
                }
            }
            assert forall|p2: Seq<char>|
                !is_reserved_path(p2) && decision_success_stable(pre, p2) && #[trigger] st_find(
                    world.statuses.entries@,
                    p2,
                ) is Some implies action_status_matches(
                decide_of(pre, p2),
                st_find(world.statuses.entries@, p2).unwrap().status,
            ) by {
                if p2 == pg {
                    if is_reserved_path(pg) {
                    } else if st_find(loop_pre.statuses.entries@, pg) is Some {
                        assert(*world == loop_pre);
                    } else {
                        assert(records_eq_at(pre, loop_pre, pg));
                        lemma_stable_transfer(pre, loop_pre, pg);
                        assert(decision_success_owed(loop_pre, pg));
                        assert(action_status_matches(
                            decide_of(loop_pre, pg),
                            st_find(world.statuses.entries@, pg).unwrap().status,
                        ));
                    }
                } else {
                    assert(st_find(world.statuses.entries@, p2) == st_find(
                        loop_pre.statuses.entries@,
                        p2,
                    ));
                }
            }
        }
        k2 += 1;
    }

    proof {
        if forall|i: int|
            0 <= i < world.statuses.entries@.len() ==> status_good(
                (#[trigger] world.statuses.entries@[i]).status,
            ) {
            assert forall|p: Seq<char>|
                !is_reserved_path(p) && (#[trigger] l_find(world.local.files@, p) is Some
                    || #[trigger] s_find_path(world.server.files@, p) is Some) implies path_synced(
                *world,
                p,
            ) by {
                let w = crate::table::lemma_sel_some(world.statuses.entries@, st_by_path(p));
                assert(status_good(world.statuses.entries@[w].status));
            }
        }
        assert forall|p: Seq<char>|
            !is_reserved_path(p) && (#[trigger] l_find(pre.local.files@, p) is Some
                || #[trigger] s_find_path(pre.server.files@, p) is Some)
                && decision_success_stable(pre, p) implies st_find(
            world.statuses.entries@,
            p,
        ) is Some && action_status_matches(
            decide_of(pre, p),
            st_find(world.statuses.entries@, p).unwrap().status,
        ) by {
            if st_find(world.statuses.entries@, p) is None {
                assert(records_eq_at(pre, *world, p));
                assert(l_find(world.local.files@, p) == l_find(pre.local.files@, p));
                assert(s_find_path(world.server.files@, p) == s_find_path(
                    pre.server.files@,
                    p,
                ));
                assert(st_find(world.statuses.entries@, p) is Some);
                assert(false);
            }
        }
    }

    let u = world.server.get_self();
    crate::format::storage_status_line(u.storage_used, u.storage_quota)
}

/// After one enumeration step at `p`, the reserved-free and
/// good-implies-in-step facts about the listing still hold.
proof fn lemma_refresh_step(loop_pre: SyncWorld, post: SyncWorld, p: Seq<char>)
    requires
        p.len() > 0,
        p[0] == '/',
        loop_pre.wf(),
        post.wf(),
        stores_frame(loop_pre, post, p),
        forall|q: Seq<char>|
            q != p ==> #[trigger] st_find(post.statuses.entries@, q) == st_find(
                loop_pre.statuses.entries@,
                q,
            ),
        forall|i: int|
            0 <= i < loop_pre.statuses.entries@.len() ==> !is_reserved_path(
                (#[trigger] loop_pre.statuses.entries@[i]).path.relative_path@,
            ),
        forall|i: int|
            0 <= i < loop_pre.statuses.entries@.len() ==> {
                let e = #[trigger] loop_pre.statuses.entries@[i];
                status_good(e.status) ==> path_synced(loop_pre, e.path.relative_path@)
            },
        is_reserved_path(p) ==> post == loop_pre,
        !is_reserved_path(p) ==> match st_find(post.statuses.entries@, p) {
            Some(e) => e.path.relative_path@ == p && (status_good(e.status) ==> path_synced(
                post,
                p,
            )),
            None => st_find(loop_pre.statuses.entries@, p) is None,
        },
    ensures
        forall|i: int|
            0 <= i < post.statuses.entries@.len() ==> !is_reserved_path(
                (#[trigger] post.statuses.entries@[i]).path.relative_path@,
            ),
        forall|i: int|
            0 <= i < post.statuses.entries@.len() ==> {
                let e = #[trigger] post.statuses.entries@[i];
                status_good(e.status) ==> path_synced(post, e.path.relative_path@)
            },
{
    if is_reserved_path(p) {
    } else {
        crate::paths::lemma_temp_download_shape(p);
        assert forall|i: int| 0 <= i < post.statuses.entries@.len() implies !is_reserved_path(
            (#[trigger] post.statuses.entries@[i]).path.relative_path@,
        ) && ({
            let e = post.statuses.entries@[i];
            status_good(e.status) ==> path_synced(post, e.path.relative_path@)
        }) by {
            let e = post.statuses.entries@[i];
            let q = e.path.relative_path@;
            post.statuses.lemma_unique_path(q);
            lemma_sel_present(post.statuses.entries@, st_by_path(q), i);
            if q == p {
                assert(st_find(post.statuses.entries@, p) == Some(e));
            } else {
                assert(st_find(post.statuses.entries@, q) == st_find(
                    loop_pre.statuses.entries@,
                    q,
                ));
                let w = crate::table::lemma_sel_some(loop_pre.statuses.entries@, st_by_path(q));
                assert(!is_reserved_path(q));
                if status_good(e.status) {
                    assert(path_synced(loop_pre, q));
                    assert(q != temp_download_of(p));
                    assert(l_find(post.local.files@, q) == l_find(loop_pre.local.files@, q));
                    assert(j_find_path(post.journal.entries@, q) == j_find_path(
                        loop_pre.journal.entries@,
                        q,
                    ));
                    assert(s_find_path(post.server.files@, q) == s_find_path(
                        loop_pre.server.files@,
                        q,
                    ));
                }
            }
        }
    }
}


/// A command the UI sends the long-lived reconciler task.
#[derive(Debug)]
pub enum HandleFileCommand {
    /// Run a full pass.
    Refresh,
    /// Resolve a prompt by leaving all three sources untouched.
    Skip(FilePath),
    /// Resolve a prompt by uploading the local copy.
    KeepLocal(FilePromptKeep),
    /// Resolve a prompt by downloading the remote copy.
    KeepRemote(FilePromptKeep),
}

/// Everything one pass promises of the world it leaves behind: every
/// surviving non-reserved path is listed; every well-ended row is in
/// step; a listing with only good rows means the whole world is in
/// step; and a pass over an in-step world changes none of the three
/// stores and lists every path as `Success`.
pub open spec fn refresh_post(pre: SyncWorld, post: SyncWorld) -> bool {
    &&& post.sync_dir == pre.sync_dir
    &&& post.server.user.storage_quota == pre.server.user.storage_quota
    &&& forall|p: Seq<char>|
        !is_reserved_path(p) && (#[trigger] l_find(post.local.files@, p) is Some
            || #[trigger] s_find_path(post.server.files@, p) is Some) ==> st_find(
            post.statuses.entries@,
            p,
        ) is Some
    &&& forall|i: int|
        0 <= i < post.statuses.entries@.len() ==> {
            let e = #[trigger] post.statuses.entries@[i];
            status_good(e.status) ==> path_synced(post, e.path.relative_path@)
        }
    &&& (forall|i: int|
        0 <= i < post.statuses.entries@.len() ==> status_good(
            (#[trigger] post.statuses.entries@[i]).status,
        )) ==> all_synced(post)
    &&& all_synced(pre) ==> stores_eq(pre, post) && (forall|i: int|
        0 <= i < post.statuses.entries@.len()
            ==> (#[trigger] post.statuses.entries@[i]).status is Success)
    &&& forall|p: Seq<char>|
        !is_reserved_path(p) && (#[trigger] l_find(pre.local.files@, p) is Some
            || #[trigger] s_find_path(pre.server.files@, p) is Some) && decision_success_stable(
            pre,
            p,
        ) ==> st_find(post.statuses.entries@, p) is Some && action_status_matches(
            decide_of(pre, p),
            st_find(post.statuses.entries@, p).unwrap().status,
        )
}

/// What resolving a prompt with `skip` promises: nothing moves, the
/// path's row turns `Success`, every other row stays.
pub open spec fn skip_post(pre: SyncWorld, post: SyncWorld, path: FilePath) -> bool {
    &&& stores_eq(pre, post)
    &&& st_find(post.statuses.entries@, path.relative_path@) is Some
    &&& st_find(post.statuses.entries@, path.relative_path@).unwrap().status is Success
    &&& forall|q: Seq<char>|
        q != path.relative_path@ ==> #[trigger] st_find(post.statuses.entries@, q) == st_find(
            pre.statuses.entries@,
            q,
        )
}

/// What resolving a prompt with `keep_local` promises: only this
/// path's records move, the local file is untouched, the row ends
/// `Success` or `Failed` — `Success` whenever the file still carries
/// the prompt's hash, the path and quota admit the upload, and the
/// recorded row is still there to drop — and on `Success` the server
/// and the journal both carry the prompt's local hash.
pub open spec fn keep_local_post(pre: SyncWorld, post: SyncWorld, keep: FilePromptKeep) -> bool {
    let rel = keep.file_path.relative_path@;
    let row = st_find(post.statuses.entries@, rel);
    &&& stores_frame(pre, post, rel)
    &&& post.local == pre.local
    &&& forall|q: Seq<char>|
        q != rel ==> #[trigger] st_find(post.statuses.entries@, q) == st_find(
            pre.statuses.entries@,
            q,
        )
    &&& row is Some
    &&& (row.unwrap().status is Success || row.unwrap().status is Failed)
    &&& ({
        &&& l_find(pre.local.files@, rel) is Some
        &&& digest_of(l_find(pre.local.files@, rel).unwrap().content@) == keep.local_meta.hash@
        &&& keep.local_meta.size == l_find(pre.local.files@, rel).unwrap().content@.len()
        &&& crate::paths::valid_rel_path(rel)
        &&& crate::server::quota_admits(pre.server.user, keep.local_meta.size)
        &&& pre.server.next_id != u64::MAX
        &&& pre.server.next_handle != u64::MAX
        &&& match keep.sql_file {
            Some(sql) => crate::journal::j_find_id(pre.journal.entries@, sql.id) is Some,
            None => j_find_path(pre.journal.entries@, rel) is None,
        }
    }) ==> row.unwrap().status is Success
    &&& row.unwrap().status is Success ==> {
        &&& l_find(post.local.files@, rel) is Some
        &&& s_find_path(post.server.files@, rel) is Some
        &&& s_find_path(post.server.files@, rel).unwrap().hash@ == keep.local_meta.hash@
        &&& s_find_path(post.server.files@, rel).unwrap().hash@ == digest_of(
            l_find(post.local.files@, rel).unwrap().content@,
        )
        &&& j_find_path(post.journal.entries@, rel) is Some
        &&& j_find_path(post.journal.entries@, rel).unwrap().hash@ == keep.local_meta.hash@
        &&& j_find_path(post.journal.entries@, rel).unwrap().hash@ == digest_of(
            l_find(post.local.files@, rel).unwrap().content@,
        )
    }
}

/// What resolving a prompt with `keep_remote` promises: only this
/// path's records move, the row ends `Success` or `Failed` —
/// `Success` whenever the server still holds the prompted bytes and
/// the recorded row is still there to drop — and on `Success` the
/// local file carries the prompt's remote hash and the journal records
/// the prompted file.
pub open spec fn keep_remote_post(pre: SyncWorld, post: SyncWorld, keep: FilePromptKeep) -> bool {
    let rel = keep.file_path.relative_path@;
    let row = st_find(post.statuses.entries@, rel);
    &&& stores_frame(pre, post, rel)
    &&& forall|q: Seq<char>|
        q != rel ==> #[trigger] st_find(post.statuses.entries@, q) == st_find(
            pre.statuses.entries@,
            q,
        )
    &&& row is Some
    &&& (row.unwrap().status is Success || row.unwrap().status is Failed)
    &&& ({
        &&& l_find(pre.local.files@, rel) is Some
        &&& match s_find_id(pre.server.files@, keep.remote_file.id) {
            Some(sf) => sf.hash@ == keep.remote_file.hash@,
            None => false,
        }
        &&& match keep.sql_file {
            Some(sql) => crate::journal::j_find_id(pre.journal.entries@, sql.id) is Some,
            None => j_find_path(pre.journal.entries@, rel) is None,
        }
    }) ==> row.unwrap().status is Success
    &&& row.unwrap().status is Success ==> {
        &&& l_find(post.local.files@, rel) is Some
        &&& digest_of(l_find(post.local.files@, rel).unwrap().content@)
            == keep.remote_file.hash@
        &&& j_find_path(post.journal.entries@, rel) == Some(
            crate::journal::entry_of(keep.remote_file),
        )
    }
}

/// Resolve a prompt by touching nothing: the path's listing row turns
/// `Success`, the three stores stay exactly as they were.
pub fn skip(world: &mut SyncWorld, path: &FilePath)
    requires
        old(world).wf(),
        st_find(old(world).statuses.entries@, path.relative_path@) is Some,
    ensures
        final(world).wf(),
        skip_post(*old(world), *final(world), *path),
{
    let rel = path.to_rel_str();
    world.statuses.set_status(rel.as_str(), FileStatus::Success, None);
}

/// Resolve a prompt in favour of the local copy: drop the recorded
/// row if one was recorded, upload the local bytes, and record the
/// result. Any failure marks the path `Failed` and stops.
pub fn keep_local(world: &mut SyncWorld, keep: &FilePromptKeep, now: u64)
    requires
        old(world).wf(),
        keep.file_path.wf(),
        keep.file_path.sync_dir@ == old(world).sync_dir@,
        st_find(old(world).statuses.entries@, keep.file_path.relative_path@) is Some,
        match keep.sql_file {
            Some(sql) => match crate::journal::j_find_id(old(world).journal.entries@, sql.id) {
                Some(e) => e.path@ == keep.file_path.relative_path@,
                None => true,
            },
            None => true,
        },
    ensures
        final(world).wf(),
        keep_local_post(*old(world), *final(world), *keep),
{
    let ghost pre = *old(world);
    let ghost relg = keep.file_path.relative_path@;
    let rel = keep.file_path.to_rel_str();
    world.statuses.set_status(rel.as_str(), FileStatus::WaitingQueue, Some(keep.local_meta.size));
    match &keep.sql_file {
        Option::Some(sql_file) => {
            match world.journal.delete_file_by_id(sql_file.id) {
                Ok(()) => {}
                Err(_) => {
                    world.statuses.set_status(rel.as_str(), FileStatus::Failed, None);
                    return;
                }
            }
        }
        Option::None => {}
    }
    proof {
        lemma_link_same_server(pre.journal, world.journal, world.server);
    }
    let content = match world.local.read(rel.as_str()) {
        Some(c) => c,
        None => {
            world.statuses.set_status(rel.as_str(), FileStatus::Failed, None);
            return;
        }
    };
    let ghost midw = *world;
    let uploaded = match upload_file(&mut world.server, &keep.file_path, &content,
        &keep.local_meta, now) {
        Ok(f) => f,
        Err(_) => {
            world.statuses.set_status(rel.as_str(), FileStatus::Failed, None);
            return;
        }
    };
    proof {
        lemma_link_after_upload(world.journal, midw.server, world.server, uploaded.id, relg);
    }
    let ghost midw2 = *world;
    match world.journal.add_file(&uploaded) {
        Ok(()) => {}
        Err(_) => {
            world.statuses.set_status(rel.as_str(), FileStatus::Failed, None);
            return;
        }
    }
    proof {
        lemma_link_push(midw2.journal, world.journal, world.server, uploaded);
    }
    world.statuses.set_status(rel.as_str(), FileStatus::Success, None);
}

/// Resolve a prompt in favour of the remote copy: drop the recorded
/// row if one was recorded, delete the local copy, download the remote
/// bytes, and record them. Any failure marks the path `Failed` and
/// stops.
pub fn keep_remote(world: &mut SyncWorld, keep: &FilePromptKeep, now: u64)
    requires
        old(world).wf(),
        keep.file_path.wf(),
        keep.file_path.sync_dir@ == old(world).sync_dir@,
        keep.remote_file.path@ == keep.file_path.relative_path@,
        st_find(old(world).statuses.entries@, keep.file_path.relative_path@) is Some,
        match s_find_id(old(world).server.files@, keep.remote_file.id) {
            Some(sf) => sf.path@ == keep.file_path.relative_path@ && keep.remote_file.id
                < old(world).server.next_id,
            None => true,
        },
        match keep.sql_file {
            Some(sql) => match crate::journal::j_find_id(old(world).journal.entries@, sql.id) {
                Some(e) => e.path@ == keep.file_path.relative_path@,
                None => true,
            },
            None => true,
        },
    ensures
        final(world).wf(),
        keep_remote_post(*old(world), *final(world), *keep),
{
    let ghost pre = *old(world);
    let ghost relg = keep.file_path.relative_path@;
    let rel = keep.file_path.to_rel_str();
    world.statuses.set_status(rel.as_str(), FileStatus::WaitingQueue, Some(keep.remote_file.size));
    match &keep.sql_file {
        Option::Some(sql_file) => {
            match world.journal.delete_file_by_id(sql_file.id) {
                Ok(()) => {}
                Err(_) => {
                    world.statuses.set_status(rel.as_str(), FileStatus::Failed, None);
                    return;
                }
            }
        }
        Option::None => {}
    }
    proof {
        lemma_link_same_server(pre.journal, world.journal, world.server);
    }
    match world.local.remove(rel.as_str()) {
        Ok(()) => {}
        Err(_) => {
            world.statuses.set_status(rel.as_str(), FileStatus::Failed, None);
            return;
        }
    }
    match download_file(&mut world.local, &world.server, &keep.remote_file) {
        Ok(()) => {}
        Err(_) => {
            world.statuses.set_status(rel.as_str(), FileStatus::Failed, None);
            return;
        }
    }
    let ghost midw2 = *world;
    match world.journal.add_file(&keep.remote_file) {
        Ok(()) => {}
        Err(_) => {
            world.statuses.set_status(rel.as_str(), FileStatus::Failed, None);
            return;
        }
    }
    proof {
        lemma_link_push(midw2.journal, world.journal, world.server, keep.remote_file);
    }
    world.statuses.set_status(rel.as_str(), FileStatus::Success, None);
}

/// Dispatch one command from the UI, as the long-lived reconciler
/// task does; a `Refresh` hands back the storage status line. Each
/// command carries the full promise of the operation it dispatches:
/// what a pass guarantees, or what the chosen prompt resolution does.
pub fn handle_file_command(world: &mut SyncWorld, cmd: &HandleFileCommand, now: u64) -> (r:
    Option<String>)
    requires
        old(world).wf(),
        match cmd {
            HandleFileCommand::Refresh => true,
            HandleFileCommand::Skip(path) => st_find(
                old(world).statuses.entries@,
                path.relative_path@,
            ) is Some,
            HandleFileCommand::KeepLocal(keep) => keep.file_path.wf()
                && keep.file_path.sync_dir@ == old(world).sync_dir@ && st_find(
                old(world).statuses.entries@,
                keep.file_path.relative_path@,
            ) is Some && match keep.sql_file {
                Some(sql) => match crate::journal::j_find_id(
                    old(world).journal.entries@,
                    sql.id,
                ) {
                    Some(e) => e.path@ == keep.file_path.relative_path@,
                    None => true,
                },
                None => true,
            },
            HandleFileCommand::KeepRemote(keep) => keep.file_path.wf()
                && keep.file_path.sync_dir@ == old(world).sync_dir@ && keep.remote_file.path@
                == keep.file_path.relative_path@ && st_find(
                old(world).statuses.entries@,
                keep.file_path.relative_path@,
            ) is Some && match s_find_id(old(world).server.files@, keep.remote_file.id) {
                Some(sf) => sf.path@ == keep.file_path.relative_path@ && keep.remote_file.id
                    < old(world).server.next_id,
                None => true,
            } && match keep.sql_file {
                Some(sql) => match crate::journal::j_find_id(
                    old(world).journal.entries@,
                    sql.id,
                ) {
                    Some(e) => e.path@ == keep.file_path.relative_path@,
                    None => true,
                },
                None => true,
            },
        },
    ensures
        final(world).wf(),
        cmd is Refresh <==> r is Some,
        r matches Some(line) ==> line@ == crate::format::storage_line_of(
            final(world).server.user.storage_used,
            final(world).server.user.storage_quota,
        ),
        match cmd {
            HandleFileCommand::Refresh => refresh_post(*old(world), *final(world)),
            HandleFileCommand::Skip(path) => skip_post(*old(world), *final(world), *path),
            HandleFileCommand::KeepLocal(keep) => keep_local_post(
                *old(world),
                *final(world),
                *keep,
            ),
            HandleFileCommand::KeepRemote(keep) => keep_remote_post(
                *old(world),
                *final(world),
                *keep,
            ),
        },
{
    match cmd {
        HandleFileCommand::Refresh => Some(refresh(world, now)),
        HandleFileCommand::Skip(path) => {
            skip(world, path);
            None
        }
        HandleFileCommand::KeepLocal(keep) => {
            keep_local(world, keep, now);
            None
        }
        HandleFileCommand::KeepRemote(keep) => {
            keep_remote(world, keep, now);
            None
        }
    }
}

} // verus!