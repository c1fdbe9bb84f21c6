//! The server's side of the protocol for one user: the content-addressed
//! blob bucket, the per-owner file index with quota accounting, and the
//! handlers behind the upload, download, lookup, listing and delete
//! calls.
//!
//! The state models the slice of the server a single authenticated user
//! sees; the real persistence behind it is the caller's concern.

use vstd::prelude::*;

use crate::hashing::digest_of;
use crate::paths::valid_rel_path;
use crate::remote::{RemoteFile, UploadFrame, UploadInfo, UserView};
use crate::table::{at_most_one, lemma_sel_absent, lemma_sel_present, lemma_sel_remove,
    lemma_sel_push, lemma_sel_update, sel};
use crate::SyncError;

verus! {

/// One user account as the server stores it.
#[derive(Debug)]
pub struct UserAccount {
    pub id: u64,
    /// Stored lowercased; unique across users.
    pub email: String,
    pub username: String,
    /// The password verifier; opaque to the sync logic.
    pub password_verifier: String,
    /// `None` means unlimited.
    pub storage_quota: Option<u64>,
    /// Always the sum of the sizes of the user's files.
    pub storage_used: u64,
}

/// One committed byte sequence in the bucket.
#[derive(Debug)]
pub struct Blob {
    pub handle: u64,
    pub bytes: Vec<u8>,
}

/// One row of the file index.
#[derive(Debug)]
pub struct StoredFile {
    pub id: u64,
    /// Unique within one owner.
    pub path: String,
    /// Equals the digest of the referenced blob's bytes.
    pub hash: String,
    /// Equals the referenced blob's length.
    pub size: u64,
    /// The blob the row's bytes live in.
    pub handle: u64,
    pub created_at: u64,
    pub modified_at: u64,
}

/// Matches the index row keyed by `path`.
pub open spec fn s_by_path(p: Seq<char>) -> spec_fn(StoredFile) -> bool {
    |f: StoredFile| f.path@ == p
}

/// Matches the index row keyed by `id`.
pub open spec fn s_by_id(id: u64) -> spec_fn(StoredFile) -> bool {
    |f: StoredFile| f.id == id
}

/// Matches the blob keyed by `handle`.
pub open spec fn b_by_handle(h: u64) -> spec_fn(Blob) -> bool {
    |b: Blob| b.handle == h
}

/// The index row at `path`, if any.
pub open spec fn s_find_path(rows: Seq<StoredFile>, p: Seq<char>) -> Option<StoredFile> {
    sel(rows, s_by_path(p))
}

/// The index row with identifier `id`, if any.
pub open spec fn s_find_id(rows: Seq<StoredFile>, id: u64) -> Option<StoredFile> {
    sel(rows, s_by_id(id))
}

/// The blob with the given handle, if any.
pub open spec fn b_find(blobs: Seq<Blob>, h: u64) -> Option<Blob> {
    sel(blobs, b_by_handle(h))
}

/// The remote-file record a row is reported as.
pub open spec fn remote_view(f: StoredFile) -> RemoteFile {
    RemoteFile {
        id: f.id,
        path: f.path,
        hash: f.hash,
        size: f.size,
        created_at: f.created_at,
        modified_at: f.modified_at,
    }
}

/// The sum of the sizes of all rows.
pub open spec fn sum_sizes(rows: Seq<StoredFile>) -> int
    decreases rows.len(),
{
    if rows.len() == 0 {
        0
    } else {
        rows[0].size + sum_sizes(rows.drop_first())
    }
}

pub proof fn lemma_sum_push(rows: Seq<StoredFile>, x: StoredFile)
    ensures
        sum_sizes(rows.push(x)) == sum_sizes(rows) + x.size,
    decreases rows.len(),
{
    assert(rows.push(x).len() == rows.len() + 1);
    if rows.len() == 0 {
        assert(rows.push(x)[0] == x);
        assert(rows.push(x).drop_first() =~= Seq::<StoredFile>::empty());
        assert(sum_sizes(rows.push(x).drop_first()) == 0);
        assert(sum_sizes(rows.push(x)) == x.size + sum_sizes(rows.push(x).drop_first()));
    } else {
        assert(rows.push(x)[0] == rows[0]);
        assert(rows.push(x).drop_first() =~= rows.drop_first().push(x));
        lemma_sum_push(rows.drop_first(), x);
        assert(sum_sizes(rows.push(x)) == rows[0].size + sum_sizes(rows.push(x).drop_first()));
    }
}

pub proof fn lemma_sum_remove(rows: Seq<StoredFile>, i: int)
    requires
        0 <= i < rows.len(),
    ensures
        sum_sizes(rows.remove(i)) == sum_sizes(rows) - rows[i].size,
    decreases rows.len(),
{
    if i == 0 {
        assert(rows.remove(0) =~= rows.drop_first());
    } else {
        assert(rows.remove(i).drop_first() =~= rows.drop_first().remove(i - 1));
        lemma_sum_remove(rows.drop_first(), i - 1);
    }
}

pub proof fn lemma_sum_update(rows: Seq<StoredFile>, i: int, x: StoredFile)
    requires
        0 <= i < rows.len(),
    ensures
        sum_sizes(rows.update(i, x)) == sum_sizes(rows) - rows[i].size + x.size,
    decreases rows.len(),
{
    if i == 0 {
        assert(rows.update(0, x).drop_first() =~= rows.drop_first());
        assert(rows.update(0, x)[0] == x);
    } else {
        assert(rows.update(i, x).drop_first() =~= rows.drop_first().update(i - 1, x));
        lemma_sum_update(rows.drop_first(), i - 1, x);
    }
}

/// Every row's size is bounded by the total, and the total is nonnegative.
pub proof fn lemma_sum_member(rows: Seq<StoredFile>, i: int)
    requires
        0 <= i < rows.len(),
    ensures
        sum_sizes(rows) >= rows[i].size,
        sum_sizes(rows) >= 0,
    decreases rows.len(),
{
    lemma_sum_nonneg(rows.drop_first());
    if i > 0 {
        lemma_sum_member(rows.drop_first(), i - 1);
    }
}

pub proof fn lemma_sum_nonneg(rows: Seq<StoredFile>)
    ensures
        sum_sizes(rows) >= 0,
    decreases rows.len(),
{
    if rows.len() > 0 {
        lemma_sum_nonneg(rows.drop_first());
    }
}

/// The server's state for one user: the account row, the file index,
/// and the blob bucket, plus the two allocation counters.
#[derive(Debug)]
pub struct ServerState {
    pub user: UserAccount,
    pub files: Vec<StoredFile>,
    pub blobs: Vec<Blob>,
    pub next_id: u64,
    pub next_handle: u64,
}

impl ServerState {
    /// The server's invariants for one user.
    ///
    /// Identifiers, paths and blob handles are unique; every index row
    /// points at a committed blob whose bytes carry exactly the row's
    /// hash and size; the bucket holds no orphans; every stored path is
    /// valid; and the account's `storage_used` is exactly the sum of
    /// the user's file sizes, within the quota when one is set.
    pub open spec fn wf(self) -> bool {
        &&& forall|i: int, k: int|
            #![trigger self.files@[i], self.files@[k]]
            0 <= i < self.files@.len() && 0 <= k < self.files@.len() && i != k
                ==> self.files@[i].id != self.files@[k].id && self.files@[i].path@
                != self.files@[k].path@ && self.files@[i].handle != self.files@[k].handle
        &&& forall|i: int|
            0 <= i < self.files@.len() ==> (#[trigger] self.files@[i]).id < self.next_id
                && self.files@[i].handle < self.next_handle
        &&& forall|i: int, k: int|
            #![trigger self.blobs@[i], self.blobs@[k]]
            0 <= i < self.blobs@.len() && 0 <= k < self.blobs@.len() && i != k
                ==> self.blobs@[i].handle != self.blobs@[k].handle
        &&& forall|i: int|
            0 <= i < self.blobs@.len() ==> (#[trigger] self.blobs@[i]).handle < self.next_handle
        &&& forall|i: int|
            0 <= i < self.files@.len() ==> blob_backs(self.blobs@, #[trigger] self.files@[i])
        &&& self.blobs@.len() == self.files@.len()
        &&& forall|i: int|
            0 <= i < self.files@.len() ==> valid_rel_path((#[trigger] self.files@[i]).path@)
        &&& self.user.storage_used == sum_sizes(self.files@)
        &&& match self.user.storage_quota {
            Some(q) => self.user.storage_used <= q,
            None => true,
        }
    }

    pub proof fn lemma_unique_path(self, p: Seq<char>)
        requires
            self.wf(),
        ensures
            at_most_one(self.files@, s_by_path(p)),
    {
        assert forall|i: int, k: int|
            0 <= i < self.files@.len() && 0 <= k < self.files@.len() && #[trigger] s_by_path(p)(
                self.files@[i],
            ) && #[trigger] s_by_path(p)(self.files@[k]) implies i == k by {
            if i != k {
                assert(self.files@[i].path@ != self.files@[k].path@);
            }
        }
    }

    pub proof fn lemma_unique_id(self, id: u64)
        requires
            self.wf(),
        ensures
            at_most_one(self.files@, s_by_id(id)),
    {
        assert forall|i: int, k: int|
            0 <= i < self.files@.len() && 0 <= k < self.files@.len() && #[trigger] s_by_id(id)(
                self.files@[i],
            ) && #[trigger] s_by_id(id)(self.files@[k]) implies i == k by {
            if i != k {
                assert(self.files@[i].id != self.files@[k].id);
            }
        }
    }

    pub proof fn lemma_unique_handle(self, h: u64)
        requires
            self.wf(),
        ensures
            at_most_one(self.blobs@, b_by_handle(h)),
    {
        assert forall|i: int, k: int|
            0 <= i < self.blobs@.len() && 0 <= k < self.blobs@.len() && #[trigger] b_by_handle(h)(
                self.blobs@[i],
            ) && #[trigger] b_by_handle(h)(self.blobs@[k]) implies i == k by {
            if i != k {
                assert(self.blobs@[i].handle != self.blobs@[k].handle);
            }
        }
    }

    /// A fresh account with nothing stored.
    pub fn new(id: u64, email: String, username: String, password_verifier: String,
        storage_quota: Option<u64>) -> (r: ServerState)
        ensures
            r.wf(),
            r.files@.len() == 0,
            r.blobs@.len() == 0,
            r.user.storage_used == 0,
            r.user.storage_quota == storage_quota,
            r.user.id == id,
            r.user.email == email,
            r.user.username == username,
            r.user.password_verifier == password_verifier,
            r.next_id == 0,
            r.next_handle == 0,
    {
        ServerState {
            user: UserAccount {
                id,
                email,
                username,
                password_verifier,
                storage_quota,
                storage_used: 0,
            },
            files: Vec::new(),
            blobs: Vec::new(),
            next_id: 0,
            next_handle: 0,
        }
    }

    /// The index of the row at `path`, if any.
    fn find_idx_by_path(&self, path: &str) -> (r: Option<usize>)
        ensures
            match r {
                Some(i) => i < self.files@.len() && self.files@[i as int].path@ == path@,
                None => forall|k: int|
                    0 <= k < self.files@.len() ==> (#[trigger] self.files@[k].path)@ != path@,
            },
    {
        let mut i: usize = 0;
        while i < self.files.len()
            invariant
                0 <= i <= self.files@.len(),
                forall|k: int| 0 <= k < i ==> (#[trigger] self.files@[k].path)@ != path@,
            decreases self.files@.len() - i,
        {
            if crate::paths::str_eq_chars(self.files[i].path.as_str(), path) {
                return Some(i);
            }
            i += 1;
        }
        None
    }

    /// The index of the row with identifier `id`, if any.
    fn find_idx_by_id(&self, id: u64) -> (r: Option<usize>)
        ensures
            match r {
                Some(i) => i < self.files@.len() && self.files@[i as int].id == id,
                None => forall|k: int|
                    0 <= k < self.files@.len() ==> (#[trigger] self.files@[k]).id != id,
            },
    {
        let mut i: usize = 0;
        while i < self.files.len()
            invariant
                0 <= i <= self.files@.len(),
                forall|k: int| 0 <= k < i ==> (#[trigger] self.files@[k]).id != id,
            decreases self.files@.len() - i,
        {
            if self.files[i].id == id {
                return Some(i);
            }
            i += 1;
        }
        None
    }

    /// The index of the blob with the given handle, if any.
    fn find_blob_idx(&self, handle: u64) -> (r: Option<usize>)
        ensures
            match r {
                Some(i) => i < self.blobs@.len() && self.blobs@[i as int].handle == handle,
                None => forall|k: int|
                    0 <= k < self.blobs@.len() ==> (#[trigger] self.blobs@[k]).handle != handle,
            },
    {
        let mut i: usize = 0;
        while i < self.blobs.len()
            invariant
                0 <= i <= self.blobs@.len(),
                forall|k: int| 0 <= k < i ==> (#[trigger] self.blobs@[k]).handle != handle,
            decreases self.blobs@.len() - i,
        {
            if self.blobs[i].handle == handle {
                return Some(i);
            }
            i += 1;
        }
        None
    }

    /// Look a file up by path. The reconciler reads `None` as the
    /// normal "no remote file" answer.
    pub fn find_by_path(&self, path: &str) -> (r: Option<RemoteFile>)
        requires
            self.wf(),
        ensures
            r == match s_find_path(self.files@, path@) {
                Some(f) => Some(remote_view(f)),
                None => None::<RemoteFile>,
            },
    {
        proof {
            self.lemma_unique_path(path@);
        }
        match self.find_idx_by_path(path) {
            Some(i) => {
                proof {
                    lemma_sel_present(self.files@, s_by_path(path@), i as int);
                }
                let f = &self.files[i];
                Some(RemoteFile {
                    id: f.id,
                    path: f.path.clone(),
                    hash: f.hash.clone(),
                    size: f.size,
                    created_at: f.created_at,
                    modified_at: f.modified_at,
                })
            }
            None => {
                proof {
                    lemma_sel_absent(self.files@, s_by_path(path@));
                }
                None
            }
        }
    }

    /// Look a file up by its identifier.
    pub fn get(&self, id: u64) -> (r: Result<RemoteFile, SyncError>)
        requires
            self.wf(),
        ensures
            r == match s_find_id(self.files@, id) {
                Some(f) => Ok::<RemoteFile, SyncError>(remote_view(f)),
                None => Err::<RemoteFile, SyncError>(SyncError::NotFound),
            },
    {
        proof {
            self.lemma_unique_id(id);
        }
        match self.find_idx_by_id(id) {
            Some(i) => {
                proof {
                    lemma_sel_present(self.files@, s_by_id(id), i as int);
                }
                let f = &self.files[i];
                Ok(RemoteFile {
                    id: f.id,
                    path: f.path.clone(),
                    hash: f.hash.clone(),
                    size: f.size,
                    created_at: f.created_at,
                    modified_at: f.modified_at,
                })
            }
            None => {
                proof {
                    lemma_sel_absent(self.files@, s_by_id(id));
                }
                Err(SyncError::NotFound)
            }
        }
    }

    /// The listing of all the user's files, in index order.
    pub fn get_all(&self) -> (r: Vec<RemoteFile>)
        requires
            self.wf(),
        ensures
            r@.len() == self.files@.len(),
            forall|i: int| 0 <= i < r@.len() ==> r@[i] == remote_view(#[trigger] self.files@[i]),
    {
        let mut out: Vec<RemoteFile> = Vec::new();
        let mut i: usize = 0;
        while i < self.files.len()
            invariant
                0 <= i <= self.files@.len(),
                out@.len() == i,
                forall|k: int| 0 <= k < i ==> out@[k] == remote_view(#[trigger] self.files@[k]),
            decreases self.files@.len() - i,
        {
            let f = &self.files[i];
            out.push(RemoteFile {
                id: f.id,
                path: f.path.clone(),
                hash: f.hash.clone(),
                size: f.size,
                created_at: f.created_at,
                modified_at: f.modified_at,
            });
            i += 1;
        }
        out
    }

    /// What the user sees of their own account.
    pub fn get_self(&self) -> (r: UserView)
        ensures
            r.id == self.user.id,
            r.username == self.user.username,
            r.storage_quota == self.user.storage_quota,
            r.storage_used == self.user.storage_used,
    {
        UserView {
            id: self.user.id,
            username: self.user.username.clone(),
            storage_quota: self.user.storage_quota,
            storage_used: self.user.storage_used,
        }
    }

    /// The bytes of the file with identifier `id`. Their digest is the
    /// stored hash and their length the stored size.
    pub fn download(&self, id: u64) -> (r: Result<Vec<u8>, SyncError>)
        requires
            self.wf(),
        ensures
            r is Ok <==> s_find_id(self.files@, id) is Some,
            r is Err ==> r == Err::<Vec<u8>, SyncError>(SyncError::NotFound),
            r is Ok ==> {
                let f = s_find_id(self.files@, id).unwrap();
                digest_of(r.unwrap()@) == f.hash@ && r.unwrap()@.len() == f.size
            },
            r is Ok ==> r.unwrap()@ == b_find(
                self.blobs@,
                s_find_id(self.files@, id).unwrap().handle,
            ).unwrap().bytes@,
    {
        proof {
            self.lemma_unique_id(id);
        }
        match self.find_idx_by_id(id) {
            Some(i) => {
                proof {
                    lemma_sel_present(self.files@, s_by_id(id), i as int);
                    self.lemma_unique_handle(self.files@[i as int].handle);
                }
                let handle = self.files[i].handle;
                match self.find_blob_idx(handle) {
                    Some(b) => {
                        proof {
                            lemma_sel_present(self.blobs@, b_by_handle(handle), b as int);
                        }
                        let mut bytes: Vec<u8> = Vec::new();
                        bytes.extend_from_slice(self.blobs[b].bytes.as_slice());
                        proof {
                            assert(bytes@ =~= self.blobs@[b as int].bytes@);
                        }
                        Ok(bytes)
                    }
                    None => {
                        proof {
                            lemma_sel_absent(self.blobs@, b_by_handle(handle));
                            assert(blob_backs(self.blobs@, self.files@[i as int]));
                            assert(false);
                        }
                        Err(SyncError::NotFound)
                    }
                }
            }
            None => {
                proof {
                    lemma_sel_absent(self.files@, s_by_id(id));
                }
                Err(SyncError::NotFound)
            }
        }
    }
}

/// A row found by path is the same row its identifier finds.
pub proof fn lemma_path_id(s: ServerState, p: Seq<char>)
    requires
        s.wf(),
        s_find_path(s.files@, p) is Some,
    ensures
        s_find_id(s.files@, s_find_path(s.files@, p).unwrap().id) == s_find_path(s.files@, p),
{
    let w = crate::table::lemma_sel_some(s.files@, s_by_path(p));
    let sf = s.files@[w];
    s.lemma_unique_id(sf.id);
    lemma_sel_present(s.files@, s_by_id(sf.id), w);
}

/// The quota law: a well-formed server state charges the account
/// exactly the sum of its file sizes, and never beyond its quota.
/// Every handler keeps this, and a rejected upload leaves both the
/// bucket and the index unchanged.
pub proof fn lemma_storage_used_is_sum(s: ServerState)
    requires
        s.wf(),
    ensures
        s.user.storage_used == sum_sizes(s.files@),
        match s.user.storage_quota {
            Some(q) => s.user.storage_used <= q,
            None => true,
        },
{
}

/// The bucket holds a blob under the row's handle whose bytes carry the
/// row's hash and size.
pub open spec fn blob_backs(blobs: Seq<Blob>, f: StoredFile) -> bool {
    match b_find(blobs, f.handle) {
        Some(b) => digest_of(b.bytes@) == f.hash@ && b.bytes@.len() == f.size,
        None => false,
    }
}

/// Does the quota admit `size` more bytes? Without a quota only the
/// width of the counter itself bounds the account.
pub open spec fn quota_admits(user: UserAccount, size: u64) -> bool {
    match user.storage_quota {
        Some(q) => user.storage_used + size <= q,
        None => user.storage_used + size <= u64::MAX,
    }
}

/// The payload a frame contributes to the uploaded bytes.
pub open spec fn chunk_bytes(fr: UploadFrame) -> Seq<u8> {
    match fr {
        UploadFrame::Chunk(c) => c@,
        UploadFrame::Info(_) => Seq::empty(),
    }
}

/// The concatenation of the chunk payloads from frame `i` on.
pub open spec fn chunks_from(frames: Seq<UploadFrame>, i: int) -> Seq<u8>
    decreases frames.len() - i,
{
    if 0 <= i < frames.len() {
        chunk_bytes(frames[i]) + chunks_from(frames, i + 1)
    } else {
        Seq::empty()
    }
}

/// All the bytes an upload stream carries, in frame order.
pub open spec fn upload_bytes(frames: Seq<UploadFrame>) -> Seq<u8> {
    chunks_from(frames, 1)
}

/// How the server reads the stream after the announcement: a second
/// announcement fails the call, and the bytes must never exceed the
/// announced size while they arrive.
pub open spec fn stream_err(frames: Seq<UploadFrame>, announced: u64, i: int, got: int) -> Option<
    SyncError,
>
    decreases frames.len() - i,
{
    if 0 <= i < frames.len() {
        match frames[i] {
            UploadFrame::Info(_) => Some(SyncError::InvalidArgument),
            UploadFrame::Chunk(c) => if got + c@.len() > announced {
                Some(SyncError::Aborted)
            } else {
                stream_err(frames, announced, i + 1, got + c@.len())
            },
        }
    } else {
        None
    }
}

/// The exact outcome of an upload against a given server state, in the
/// order the server applies its checks: the announcement must come
/// first and alone, the quota is checked against the announced size,
/// the path must be valid, the bytes must stay within the announced
/// size, and at commit the received bytes must carry exactly the
/// announced hash and size.
pub open spec fn upload_outcome(s: ServerState, frames: Seq<UploadFrame>) -> Option<SyncError> {
    if frames.len() == 0 {
        Some(SyncError::InvalidArgument)
    } else if !(frames[0] is Info) {
        Some(SyncError::InvalidArgument)
    } else {
        let info = frames[0]->Info_0;
        if !quota_admits(s.user, info.size) {
            Some(SyncError::ResourceExhausted)
        } else if !valid_rel_path(info.path@) {
            Some(SyncError::InvalidArgument)
        } else if s.next_id == u64::MAX || s.next_handle == u64::MAX {
            Some(SyncError::ResourceExhausted)
        } else {
            match stream_err(frames, info.size, 1, 0) {
                Some(e) => Some(e),
                None => if digest_of(upload_bytes(frames)) != info.hash@ || upload_bytes(
                    frames,
                ).len() != info.size {
                    Some(SyncError::DataLoss)
                } else {
                    None
                },
            }
        }
    }
}

/// The index row a successful upload commits: a replacement keeps the
/// row's identity and creation time, a first upload gets fresh ones.
pub open spec fn committed_row(pre: ServerState, info: UploadInfo, now: u64) -> StoredFile {
    match s_find_path(pre.files@, info.path@) {
        Some(f) => StoredFile {
            id: f.id,
            path: info.path,
            hash: info.hash,
            size: info.size,
            handle: pre.next_handle,
            created_at: f.created_at,
            modified_at: now,
        },
        None => StoredFile {
            id: pre.next_id,
            path: info.path,
            hash: info.hash,
            size: info.size,
            handle: pre.next_handle,
            created_at: now,
            modified_at: now,
        },
    }
}

/// Everything a successful upload guarantees: the returned record and
/// the index row carry the announced path, hash and size; the hash is
/// the digest of the received bytes; every other row is untouched; and
/// the quota counter moves by exactly the size delta.
pub open spec fn upload_ok_post(
    pre: ServerState,
    post: ServerState,
    frames: Seq<UploadFrame>,
    ret: RemoteFile,
    now: u64,
) -> bool {
    let info = frames[0]->Info_0;
    let replaced = s_find_path(pre.files@, info.path@);
    let row = committed_row(pre, info, now);
    &&& ret == remote_view(row)
    &&& ret.path@ == info.path@
    &&& ret.hash@ == info.hash@
    &&& ret.hash@ == digest_of(upload_bytes(frames))
    &&& ret.size == info.size
    &&& post.next_id == if replaced is Some {
        pre.next_id as int
    } else {
        pre.next_id + 1
    }
    &&& post.user.id == pre.user.id
    &&& post.user.email == pre.user.email
    &&& post.user.username == pre.user.username
    &&& post.user.password_verifier == pre.user.password_verifier
    &&& post.user.storage_quota == pre.user.storage_quota
    &&& post.user.storage_used == pre.user.storage_used - (match replaced {
        Some(f) => f.size,
        None => 0u64,
    }) + info.size
    &&& forall|p: Seq<char>|
        #[trigger] s_find_path(post.files@, p) == if p == info.path@ {
            Some(row)
        } else {
            s_find_path(pre.files@, p)
        }
    &&& forall|id2: u64|
        #[trigger] s_find_id(post.files@, id2) == if id2 == row.id {
            Some(row)
        } else {
            s_find_id(pre.files@, id2)
        }
}

impl ServerState {
    /// Store a file from its upload stream: the announcement frame,
    /// then the bytes. On any failure nothing changes; on success the
    /// blob is committed, the index row inserted or replaced, and the
    /// quota counter moved, all together.
    pub fn upload(&mut self, frames: &Vec<UploadFrame>, now: u64) -> (r: Result<
        RemoteFile,
        SyncError,
    >)
        requires
            old(self).wf(),
        ensures
            final(self).wf(),
            r is Ok <==> upload_outcome(*old(self), frames@) is None,
            r is Err ==> *final(self) == *old(self) && r == Err::<RemoteFile, SyncError>(
                upload_outcome(*old(self), frames@).unwrap(),
            ),
            r is Ok ==> upload_ok_post(*old(self), *final(self), frames@, r.unwrap(), now),
    {
        if frames.len() == 0 {
            return Err(SyncError::InvalidArgument);
        }
        let info: UploadInfo = match &frames[0] {
            UploadFrame::Info(i) => i.duplicate(),
            UploadFrame::Chunk(_) => {
                return Err(SyncError::InvalidArgument);
            }
        };
        let admits: bool = match self.user.storage_quota {
            Some(q) => self.user.storage_used <= q && info.size <= q - self.user.storage_used,
            None => info.size <= u64::MAX - self.user.storage_used,
        };
        if !admits {
            return Err(SyncError::ResourceExhausted);
        }
        match crate::paths::validate_rel_path(info.path.as_str()) {
            Ok(()) => {}
            Err(_) => {
                return Err(SyncError::InvalidArgument);
            }
        }
        if self.next_id == u64::MAX || self.next_handle == u64::MAX {
            return Err(SyncError::ResourceExhausted);
        }

        let mut hasher = crate::hashing::ContentHasher::new();
        let mut buffer: Vec<u8> = Vec::new();
        let mut got: u64 = 0;
        proof {
            assert(Seq::<u8>::empty() + chunks_from(frames@, 1) =~= chunks_from(frames@, 1));
        }
        let mut i: usize = 1;
        while i < frames.len()
            invariant
                *self == *old(self),
                old(self).wf(),
                frames@.len() > 0,
                frames@[0] is Info,
                info == frames@[0]->Info_0,
                quota_admits(old(self).user, info.size),
                valid_rel_path(info.path@),
                old(self).next_id != u64::MAX,
                old(self).next_handle != u64::MAX,
                1 <= i <= frames@.len(),
                hasher.wf(),
                hasher.fed@ == buffer@,
                got == buffer@.len(),
                got <= info.size,
                stream_err(frames@, info.size, 1, 0) == stream_err(
                    frames@,
                    info.size,
                    i as int,
                    got as int,
                ),
                upload_bytes(frames@) == buffer@ + chunks_from(frames@, i as int),
            decreases frames@.len() - i,
        {
            match &frames[i] {
                UploadFrame::Info(_) => {
                    return Err(SyncError::InvalidArgument);
                }
                UploadFrame::Chunk(c) => {
                    if c.len() as u64 > info.size - got {
                        return Err(SyncError::Aborted);
                    }
                    proof {
                        assert(chunks_from(frames@, i as int) == chunk_bytes(frames@[i as int])
                            + chunks_from(frames@, i as int + 1));
                        assert((buffer@ + c@) + chunks_from(frames@, i as int + 1) =~= buffer@ + (
                        c@ + chunks_from(frames@, i as int + 1)));
                    }
                    hasher.update(c.as_slice());
                    crate::hashing::append_bytes(&mut buffer, c.as_slice());
                    got = got + c.len() as u64;
                }
            }
            i += 1;
        }
        proof {
            assert(chunks_from(frames@, frames@.len() as int) =~= Seq::<u8>::empty());
            assert(upload_bytes(frames@) =~= buffer@);
        }
        let computed = hasher.finalize();
        if !crate::paths::str_eq_chars(computed.as_str(), info.hash.as_str()) {
            return Err(SyncError::DataLoss);
        }
        if got != info.size {
            return Err(SyncError::DataLoss);
        }

        let ghost pre = *old(self);
        let handle = self.next_handle;
        self.next_handle = self.next_handle + 1;
        proof {
            pre.lemma_unique_path(info.path@);
        }
        let ghost nbg = Blob { handle, bytes: buffer };
        self.blobs.push(Blob { handle, bytes: buffer });
        proof {
            assert forall|k: int| 0 <= k < pre.blobs@.len()
                implies !(b_by_handle(handle)(#[trigger] pre.blobs@[k])) by {
                assert(pre.blobs@[k].handle < pre.next_handle);
            }
        }
        match self.find_idx_by_path(info.path.as_str()) {
            Some(idx) => {
                proof {
                    lemma_sel_present(pre.files@, s_by_path(info.path@), idx as int);
                }
                let old_handle = self.files[idx].handle;
                let old_size = self.files[idx].size;
                let ghost old_row = pre.files@[idx as int];
                let bidx = match self.find_blob_idx(old_handle) {
                    Some(b) => b,
                    None => {
                        proof {
                            assert(blob_backs(pre.blobs@, old_row));
                            let w = crate::table::lemma_sel_some(pre.blobs@, b_by_handle(
                                old_handle,
                            ));
                            assert(self.blobs@[w] == pre.blobs@[w]);
                            assert(false);
                        }
                        return Err(SyncError::NotFound);
                    }
                };
                proof {
                    assert(old_row.handle < pre.next_handle);
                    if bidx as int == pre.blobs@.len() as int {
                        assert(self.blobs@[bidx as int] == nbg);
                        assert(false);
                    }
                    assert(self.blobs@[bidx as int] == pre.blobs@[bidx as int]);
                }
                self.blobs.remove(bidx);
                let mut row = self.files.remove(idx);
                row.path = info.path.clone();
                row.hash = info.hash.clone();
                row.size = info.size;
                row.handle = handle;
                row.modified_at = now;
                self.files.insert(idx, row);
                proof {
                    lemma_sum_member(pre.files@, idx as int);
                }
                self.user.storage_used = self.user.storage_used - old_size + info.size;
                let result = RemoteFile {
                    id: self.files[idx].id,
                    path: info.path.clone(),
                    hash: info.hash.clone(),
                    size: info.size,
                    created_at: self.files[idx].created_at,
                    modified_at: now,
                };
                proof {
                    let info_g = frames@[0]->Info_0;
                    let rowg = committed_row(pre, info_g, now);
                    let files2 = self.files@;
                    let blobs2 = self.blobs@;
                    let mid_blobs = pre.blobs@.push(nbg);
                    assert(files2 =~= pre.files@.update(idx as int, rowg));
                    assert(blobs2 =~= mid_blobs.remove(bidx as int));
                    lemma_upload_replace_wf(pre, *self, info_g, now, idx as int, bidx as int, nbg);
                    assert(result == remote_view(rowg));
                }
                Ok(result)
            }
            None => {
                proof {
                    lemma_sel_absent(pre.files@, s_by_path(info.path@));
                }
                let id = self.next_id;
                self.next_id = self.next_id + 1;
                self.files.push(StoredFile {
                    id,
                    path: info.path.clone(),
                    hash: info.hash.clone(),
                    size: info.size,
                    handle,
                    created_at: now,
                    modified_at: now,
                });
                self.user.storage_used = self.user.storage_used + info.size;
                let result = RemoteFile {
                    id,
                    path: info.path.clone(),
                    hash: info.hash.clone(),
                    size: info.size,
                    created_at: now,
                    modified_at: now,
                };
                proof {
                    let info_g = frames@[0]->Info_0;
                    let rowg = committed_row(pre, info_g, now);
                    assert(self.files@ =~= pre.files@.push(rowg));
                    assert(self.blobs@ =~= pre.blobs@.push(nbg));
                    lemma_upload_insert_wf(pre, *self, info_g, now, nbg);
                    assert(result == remote_view(rowg));
                }
                Ok(result)
            }
        }
    }
}

impl ServerState {
    /// Delete a file by its identifier: the index row, its blob, and
    /// the quota charge go together. Fails with `NotFound`, changing
    /// nothing, when the user has no such file.
    pub fn delete(&mut self, id: u64) -> (r: Result<(), SyncError>)
        requires
            old(self).wf(),
        ensures
            final(self).wf(),
            r is Ok <==> s_find_id(old(self).files@, id) is Some,
            r is Err ==> *final(self) == *old(self) && r == Err::<(), SyncError>(
                SyncError::NotFound,
            ),
            r is Ok ==> {
                let gone = s_find_id(old(self).files@, id).unwrap();
                &&& final(self).user.storage_used == old(self).user.storage_used - gone.size
                &&& final(self).user.id == old(self).user.id
                &&& final(self).user.email == old(self).user.email
                &&& final(self).user.username == old(self).user.username
                &&& final(self).user.password_verifier == old(self).user.password_verifier
                &&& final(self).user.storage_quota == old(self).user.storage_quota
                &&& final(self).next_id == old(self).next_id
                &&& final(self).next_handle == old(self).next_handle
                &&& forall|p: Seq<char>|
                    #[trigger] s_find_path(final(self).files@, p) == if p == gone.path@ {
                        None::<StoredFile>
                    } else {
                        s_find_path(old(self).files@, p)
                    }
                &&& forall|id2: u64|
                    #[trigger] s_find_id(final(self).files@, id2) == if id2 == id {
                        None::<StoredFile>
                    } else {
                        s_find_id(old(self).files@, id2)
                    }
            },
    {
        proof {
            self.lemma_unique_id(id);
        }
        let idx = match self.find_idx_by_id(id) {
            Some(i) => i,
            None => {
                proof {
                    lemma_sel_absent(self.files@, s_by_id(id));
                }
                return Err(SyncError::NotFound);
            }
        };
        proof {
            lemma_sel_present(self.files@, s_by_id(id), idx as int);
        }
        let ghost pre = *old(self);
        let ghost gone = self.files@[idx as int];
        let old_handle = self.files[idx].handle;
        let old_size = self.files[idx].size;
        let bidx = match self.find_blob_idx(old_handle) {
            Some(b) => b,
            None => {
                proof {
                    assert(blob_backs(pre.blobs@, gone));
                    let w = crate::table::lemma_sel_some(pre.blobs@, b_by_handle(old_handle));
                    assert(false);
                }
                return Err(SyncError::NotFound);
            }
        };
        self.blobs.remove(bidx);
        self.files.remove(idx);
        proof {
            lemma_sum_member(pre.files@, idx as int);
        }
        self.user.storage_used = self.user.storage_used - old_size;
        proof {
            lemma_delete_wf(pre, *self, id, idx as int, bidx as int);
        }
        Ok(())
    }
}

/// Re-establishing the server invariants after a delete.
proof fn lemma_delete_wf(pre: ServerState, post: ServerState, id: u64, idx: int, bidx: int)
    requires
        pre.wf(),
        0 <= idx < pre.files@.len(),
        pre.files@[idx].id == id,
        s_find_id(pre.files@, id) == Some(pre.files@[idx]),
        0 <= bidx < pre.blobs@.len(),
        pre.blobs@[bidx].handle == pre.files@[idx].handle,
        post.files@ == pre.files@.remove(idx),
        post.blobs@ == pre.blobs@.remove(bidx),
        post.next_id == pre.next_id,
        post.next_handle == pre.next_handle,
        post.user.id == pre.user.id,
        post.user.email == pre.user.email,
        post.user.username == pre.user.username,
        post.user.password_verifier == pre.user.password_verifier,
        post.user.storage_quota == pre.user.storage_quota,
        post.user.storage_used == pre.user.storage_used - pre.files@[idx].size,
    ensures
        post.wf(),
        forall|p: Seq<char>|
            #[trigger] s_find_path(post.files@, p) == if p == pre.files@[idx].path@ {
                None::<StoredFile>
            } else {
                s_find_path(pre.files@, p)
            },
        forall|id2: u64|
            #[trigger] s_find_id(post.files@, id2) == if id2 == id {
                None::<StoredFile>
            } else {
                s_find_id(pre.files@, id2)
            },
{
    let gone = pre.files@[idx];
    let files2 = post.files@;
    let blobs2 = post.blobs@;
    assert(forall|k: int| 0 <= k < idx ==> files2[k] == pre.files@[k]);
    assert(forall|k: int| idx <= k < files2.len() ==> files2[k] == pre.files@[k + 1]);
    assert(forall|k: int| 0 <= k < bidx ==> blobs2[k] == pre.blobs@[k]);
    assert(forall|k: int| bidx <= k < blobs2.len() ==> blobs2[k] == pre.blobs@[k + 1]);

    assert forall|i: int, k: int|
        0 <= i < files2.len() && 0 <= k < files2.len() && i != k
        implies #[trigger] files2[i].id != #[trigger] files2[k].id && files2[i].path@
        != files2[k].path@ && files2[i].handle != files2[k].handle by {
        let ir = if i < idx { i } else { i + 1 };
        let kr = if k < idx { k } else { k + 1 };
        assert(files2[i] == pre.files@[ir]);
        assert(files2[k] == pre.files@[kr]);
    }
    assert forall|i: int| 0 <= i < files2.len() implies (#[trigger] files2[i]).id < post.next_id
        && files2[i].handle < post.next_handle by {
        let ir = if i < idx { i } else { i + 1 };
        assert(files2[i] == pre.files@[ir]);
    }
    assert forall|i: int, k: int| 0 <= i < blobs2.len() && 0 <= k < blobs2.len() && i != k
        implies #[trigger] blobs2[i].handle != #[trigger] blobs2[k].handle by {
        let ir = if i < bidx { i } else { i + 1 };
        let kr = if k < bidx { k } else { k + 1 };
        assert(blobs2[i] == pre.blobs@[ir]);
        assert(blobs2[k] == pre.blobs@[kr]);
    }
    assert forall|i: int| 0 <= i < blobs2.len() implies (#[trigger] blobs2[i]).handle
        < post.next_handle by {
        let ir = if i < bidx { i } else { i + 1 };
        assert(blobs2[i] == pre.blobs@[ir]);
    }
    assert forall|i: int| 0 <= i < files2.len() implies blob_backs(blobs2, #[trigger] files2[i]) by {
        let ir = if i < idx { i } else { i + 1 };
        let f = pre.files@[ir];
        assert(files2[i] == f);
        assert(blob_backs(pre.blobs@, f));
        pre.lemma_unique_handle(f.handle);
        lemma_sel_remove(pre.blobs@, b_by_handle(f.handle), bidx);
        assert(f.handle != gone.handle);
        assert(!(b_by_handle(f.handle)(pre.blobs@[bidx])));
    }
    assert(blobs2.len() == files2.len());
    assert forall|i: int| 0 <= i < files2.len() implies valid_rel_path(
        (#[trigger] files2[i]).path@,
    ) by {
        let ir = if i < idx { i } else { i + 1 };
        assert(files2[i] == pre.files@[ir]);
        assert(valid_rel_path(pre.files@[ir].path@));
    }
    lemma_sum_remove(pre.files@, idx);
    lemma_sum_member(pre.files@, idx);
    assert forall|p: Seq<char>|
        #[trigger] s_find_path(files2, p) == if p == gone.path@ {
            None::<StoredFile>
        } else {
            s_find_path(pre.files@, p)
        } by {
        pre.lemma_unique_path(p);
        lemma_sel_remove(pre.files@, s_by_path(p), idx);
        if p == gone.path@ {
        } else {
            assert(!(s_by_path(p)(gone)));
        }
    }
    assert forall|id2: u64|
        #[trigger] s_find_id(files2, id2) == if id2 == id {
            None::<StoredFile>
        } else {
            s_find_id(pre.files@, id2)
        } by {
        pre.lemma_unique_id(id2);
        lemma_sel_remove(pre.files@, s_by_id(id2), idx);
        if id2 == id {
        } else {
            assert(!(s_by_id(id2)(gone)));
        }
    }
}

/// Re-establishing the server invariants after a replacement commit.
proof fn lemma_upload_replace_wf(
    pre: ServerState,
    post: ServerState,
    info: UploadInfo,
    now: u64,
    idx: int,
    bidx: int,
    nb: Blob,
)
    requires
        pre.wf(),
        pre.next_id < u64::MAX,
        pre.next_handle < u64::MAX,
        valid_rel_path(info.path@),
        quota_admits(pre.user, info.size),
        nb.handle == pre.next_handle,
        digest_of(nb.bytes@) == info.hash@,
        nb.bytes@.len() == info.size,
        0 <= idx < pre.files@.len(),
        pre.files@[idx].path@ == info.path@,
        s_find_path(pre.files@, info.path@) == Some(pre.files@[idx]),
        0 <= bidx < pre.blobs@.len(),
        pre.blobs@[bidx].handle == pre.files@[idx].handle,
        post.files@ == pre.files@.update(idx, committed_row(pre, info, now)),
        post.blobs@ == pre.blobs@.push(nb).remove(bidx),
        post.next_id == pre.next_id,
        post.next_handle == pre.next_handle + 1,
        post.user.id == pre.user.id,
        post.user.email == pre.user.email,
        post.user.username == pre.user.username,
        post.user.password_verifier == pre.user.password_verifier,
        post.user.storage_quota == pre.user.storage_quota,
        post.user.storage_used == pre.user.storage_used - pre.files@[idx].size + info.size,
    ensures
        post.wf(),
        forall|p: Seq<char>|
            #[trigger] s_find_path(post.files@, p) == if p == info.path@ {
                Some(committed_row(pre, info, now))
            } else {
                s_find_path(pre.files@, p)
            },
        forall|id2: u64|
            #[trigger] s_find_id(post.files@, id2) == if id2 == committed_row(pre, info, now).id {
                Some(committed_row(pre, info, now))
            } else {
                s_find_id(pre.files@, id2)
            },
{
    let row = committed_row(pre, info, now);
    let old_row = pre.files@[idx];
    let mid = pre.blobs@.push(nb);
    let files2 = post.files@;
    let blobs2 = post.blobs@;

    // pairwise distinctness of the new index
    assert forall|i: int, k: int|
        0 <= i < files2.len() && 0 <= k < files2.len() && i != k
        implies #[trigger] files2[i].id != #[trigger] files2[k].id && files2[i].path@
        != files2[k].path@ && files2[i].handle != files2[k].handle by {
        assert(files2[i] == if i == idx { row } else { pre.files@[i] });
        assert(files2[k] == if k == idx { row } else { pre.files@[k] });
        if i == idx || k == idx {
            let other = if i == idx { k } else { i };
            assert(pre.files@[other].handle < pre.next_handle);
            assert(pre.files@[other].id != old_row.id && pre.files@[other].path@ != old_row.path@);
        }
    }
    // bounds
    assert forall|i: int| 0 <= i < files2.len() implies (#[trigger] files2[i]).id < post.next_id
        && files2[i].handle < post.next_handle by {
        assert(files2[i] == if i == idx { row } else { pre.files@[i] });
    }
    // blob distinctness and bounds
    assert(forall|k: int| 0 <= k < mid.len() - 1 ==> mid[k] == pre.blobs@[k]);
    assert(mid[mid.len() - 1] == nb);
    assert forall|i: int, k: int| 0 <= i < blobs2.len() && 0 <= k < blobs2.len() && i != k
        implies #[trigger] blobs2[i].handle != #[trigger] blobs2[k].handle by {
        let ir = if i < bidx { i } else { i + 1 };
        let kr = if k < bidx { k } else { k + 1 };
        assert(blobs2[i] == mid[ir]);
        assert(blobs2[k] == mid[kr]);
        if ir < pre.blobs@.len() && kr < pre.blobs@.len() {
        } else if ir < pre.blobs@.len() {
            assert(mid[kr] == nb);
            assert(pre.blobs@[ir].handle < pre.next_handle);
        } else {
            assert(mid[ir] == nb);
            assert(pre.blobs@[kr].handle < pre.next_handle);
        }
    }
    assert forall|i: int| 0 <= i < blobs2.len() implies (#[trigger] blobs2[i]).handle
        < post.next_handle by {
        let ir = if i < bidx { i } else { i + 1 };
        assert(blobs2[i] == mid[ir]);
        if ir < pre.blobs@.len() {
            assert(pre.blobs@[ir].handle < pre.next_handle);
        }
    }
    // the new blob is found under the new handle
    assert forall|k: int| 0 <= k < pre.blobs@.len()
        implies !(b_by_handle(pre.next_handle)(#[trigger] pre.blobs@[k])) by {
        assert(pre.blobs@[k].handle < pre.next_handle);
    }
    pre.lemma_unique_handle(pre.next_handle);
    lemma_sel_push(pre.blobs@, b_by_handle(pre.next_handle), nb);
    assert(at_most_one(mid, b_by_handle(pre.next_handle))) by {
        lemma_at_most_one_push(pre.blobs@, b_by_handle(pre.next_handle), nb);
    }
    lemma_sel_remove(mid, b_by_handle(pre.next_handle), bidx);
    assert(mid[bidx] == pre.blobs@[bidx]);
    assert(!(b_by_handle(pre.next_handle)(mid[bidx])));
    assert(b_find(blobs2, pre.next_handle) == Some(nb));
    // every row is backed
    assert forall|i: int| 0 <= i < files2.len() implies blob_backs(blobs2, #[trigger] files2[i]) by {
        if i == idx {
            assert(files2[i] == row);
            assert(b_find(blobs2, row.handle) == Some(nb));
        } else {
            let f = pre.files@[i];
            assert(files2[i] == f);
            assert(blob_backs(pre.blobs@, f));
            assert(f.handle != pre.next_handle);
            assert(f.handle != old_row.handle);
            pre.lemma_unique_handle(f.handle);
            lemma_sel_push(pre.blobs@, b_by_handle(f.handle), nb);
            assert(at_most_one(mid, b_by_handle(f.handle))) by {
                lemma_at_most_one_push(pre.blobs@, b_by_handle(f.handle), nb);
            }
            lemma_sel_remove(mid, b_by_handle(f.handle), bidx);
            assert(!(b_by_handle(f.handle)(mid[bidx])));
        }
    }
    assert(blobs2.len() == files2.len());
    // paths stay valid
    assert forall|i: int| 0 <= i < files2.len() implies valid_rel_path(
        (#[trigger] files2[i]).path@,
    ) by {
        assert(files2[i] == if i == idx { row } else { pre.files@[i] });
    }
    // the quota counter is the sum again
    lemma_sum_update(pre.files@, idx, row);
    lemma_sum_member(pre.files@, idx);
    // index selections
    assert forall|p: Seq<char>|
        #[trigger] s_find_path(files2, p) == if p == info.path@ {
            Some(row)
        } else {
            s_find_path(pre.files@, p)
        } by {
        pre.lemma_unique_path(p);
        if s_by_path(p)(row) {
            assert forall|k: int| 0 <= k < pre.files@.len() && k != idx
                implies !(s_by_path(p)(#[trigger] pre.files@[k])) by {
                assert(pre.files@[k].path@ != old_row.path@);
            }
        }
        lemma_sel_update(pre.files@, s_by_path(p), idx, row);
        if p == info.path@ {
        } else {
            assert(!(s_by_path(p)(old_row)));
            assert(!(s_by_path(p)(row)));
        }
    }
    assert forall|id2: u64|
        #[trigger] s_find_id(files2, id2) == if id2 == row.id {
            Some(row)
        } else {
            s_find_id(pre.files@, id2)
        } by {
        pre.lemma_unique_id(id2);
        if s_by_id(id2)(row) {
            assert forall|k: int| 0 <= k < pre.files@.len() && k != idx
                implies !(s_by_id(id2)(#[trigger] pre.files@[k])) by {
                assert(pre.files@[k].id != old_row.id);
            }
        }
        lemma_sel_update(pre.files@, s_by_id(id2), idx, row);
        if id2 == row.id {
        } else {
            assert(!(s_by_id(id2)(old_row)));
            assert(!(s_by_id(id2)(row)));
        }
    }
}

/// Re-establishing the server invariants after a first-upload commit.
proof fn lemma_upload_insert_wf(
    pre: ServerState,
    post: ServerState,
    info: UploadInfo,
    now: u64,
    nb: Blob,
)
    requires
        pre.wf(),
        pre.next_id < u64::MAX,
        pre.next_handle < u64::MAX,
        valid_rel_path(info.path@),
        quota_admits(pre.user, info.size),
        nb.handle == pre.next_handle,
        digest_of(nb.bytes@) == info.hash@,
        nb.bytes@.len() == info.size,
        s_find_path(pre.files@, info.path@) is None,
        forall|k: int| 0 <= k < pre.files@.len() ==> (#[trigger] pre.files@[k].path)@ != info.path@,
        post.files@ == pre.files@.push(committed_row(pre, info, now)),
        post.blobs@ == pre.blobs@.push(nb),
        post.next_id == (pre.next_id + 1),
        post.next_handle == pre.next_handle + 1,
        post.user.id == pre.user.id,
        post.user.email == pre.user.email,
        post.user.username == pre.user.username,
        post.user.password_verifier == pre.user.password_verifier,
        post.user.storage_quota == pre.user.storage_quota,
        post.user.storage_used == pre.user.storage_used + info.size,
    ensures
        post.wf(),
        forall|p: Seq<char>|
            #[trigger] s_find_path(post.files@, p) == if p == info.path@ {
                Some(committed_row(pre, info, now))
            } else {
                s_find_path(pre.files@, p)
            },
        forall|id2: u64|
            #[trigger] s_find_id(post.files@, id2) == if id2 == committed_row(pre, info, now).id {
                Some(committed_row(pre, info, now))
            } else {
                s_find_id(pre.files@, id2)
            },
{
    let row = committed_row(pre, info, now);
    let files2 = post.files@;
    let blobs2 = post.blobs@;

    assert(forall|k: int| 0 <= k < pre.files@.len() ==> files2[k] == pre.files@[k]);
    assert(files2[pre.files@.len() as int] == row);
    assert(forall|k: int| 0 <= k < pre.blobs@.len() ==> blobs2[k] == pre.blobs@[k]);
    assert(blobs2[pre.blobs@.len() as int] == nb);

    assert forall|i: int, k: int|
        0 <= i < files2.len() && 0 <= k < files2.len() && i != k
        implies #[trigger] files2[i].id != #[trigger] files2[k].id && files2[i].path@
        != files2[k].path@ && files2[i].handle != files2[k].handle by {
        if i < pre.files@.len() && k < pre.files@.len() {
        } else if i < pre.files@.len() {
            assert(files2[k] == row);
            assert(pre.files@[i].id < pre.next_id && pre.files@[i].handle < pre.next_handle);
        } else {
            assert(files2[i] == row);
            assert(pre.files@[k].id < pre.next_id && pre.files@[k].handle < pre.next_handle);
        }
    }
    assert forall|i: int| 0 <= i < files2.len() implies (#[trigger] files2[i]).id < post.next_id
        && files2[i].handle < post.next_handle by {
        if i < pre.files@.len() {
            assert(pre.files@[i].id < pre.next_id);
        }
    }
    assert forall|i: int, k: int| 0 <= i < blobs2.len() && 0 <= k < blobs2.len() && i != k
        implies #[trigger] blobs2[i].handle != #[trigger] blobs2[k].handle by {
        if i < pre.blobs@.len() && k < pre.blobs@.len() {
        } else if i < pre.blobs@.len() {
            assert(pre.blobs@[i].handle < pre.next_handle);
        } else {
            assert(pre.blobs@[k].handle < pre.next_handle);
        }
    }
    assert forall|i: int| 0 <= i < blobs2.len() implies (#[trigger] blobs2[i]).handle
        < post.next_handle by {
        if i < pre.blobs@.len() {
            assert(pre.blobs@[i].handle < pre.next_handle);
        }
    }
    assert forall|k: int| 0 <= k < pre.blobs@.len()
        implies !(b_by_handle(pre.next_handle)(#[trigger] pre.blobs@[k])) by {
        assert(pre.blobs@[k].handle < pre.next_handle);
    }
    pre.lemma_unique_handle(pre.next_handle);
    lemma_sel_push(pre.blobs@, b_by_handle(pre.next_handle), nb);
    assert forall|i: int| 0 <= i < files2.len() implies blob_backs(blobs2, #[trigger] files2[i]) by {
        if i == pre.files@.len() {
            assert(files2[i] == row);
            assert(b_find(blobs2, row.handle) == Some(nb));
        } else {
            let f = pre.files@[i];
            assert(blob_backs(pre.blobs@, f));
            assert(f.handle < pre.next_handle);
            pre.lemma_unique_handle(f.handle);
            lemma_sel_push(pre.blobs@, b_by_handle(f.handle), nb);
        }
    }
    assert forall|i: int| 0 <= i < files2.len() implies valid_rel_path(
        (#[trigger] files2[i]).path@,
    ) by {
        if i < pre.files@.len() {
            assert(valid_rel_path(pre.files@[i].path@));
        } else {
            assert(files2[i] == row);
        }
    }
    lemma_sum_push(pre.files@, row);
    assert forall|p: Seq<char>|
        #[trigger] s_find_path(files2, p) == if p == info.path@ {
            Some(row)
        } else {
            s_find_path(pre.files@, p)
        } by {
        pre.lemma_unique_path(p);
        if s_by_path(p)(row) {
            assert forall|k: int| 0 <= k < pre.files@.len()
                implies !(s_by_path(p)(#[trigger] pre.files@[k])) by {
                assert(pre.files@[k].path@ != info.path@);
            }
        }
        lemma_sel_push(pre.files@, s_by_path(p), row);
        if p == info.path@ {
        } else {
            assert(!(s_by_path(p)(row)));
        }
    }
    assert forall|id2: u64|
        #[trigger] s_find_id(files2, id2) == if id2 == row.id {
            Some(row)
        } else {
            s_find_id(pre.files@, id2)
        } by {
        pre.lemma_unique_id(id2);
        if s_by_id(id2)(row) {
            assert forall|k: int| 0 <= k < pre.files@.len()
                implies !(s_by_id(id2)(#[trigger] pre.files@[k])) by {
                assert(pre.files@[k].id < pre.next_id);
            }
        }
        lemma_sel_push(pre.files@, s_by_id(id2), row);
        if id2 == row.id {
        } else {
            assert(!(s_by_id(id2)(row)));
        }
    }
}

/// Pushing onto a table with at most one match keeps at most one match
/// when the new row matches nothing already there.
proof fn lemma_at_most_one_push<T>(rows: Seq<T>, f: spec_fn(T) -> bool, x: T)
    requires
        at_most_one(rows, f),
        f(x) ==> forall|i: int| 0 <= i < rows.len() ==> !f(#[trigger] rows[i]),
    ensures
        at_most_one(rows.push(x), f),
{
    let pushed = rows.push(x);
    assert forall|a: int, b: int|
        0 <= a < pushed.len() && 0 <= b < pushed.len() && #[trigger] f(pushed[a]) && #[trigger] f(
        pushed[b],
    ) implies a == b by {
        if a < rows.len() {
            assert(pushed[a] == rows[a]);
        } else {
            assert(pushed[a] == x);
        }
        if b < rows.len() {
            assert(pushed[b] == rows[b]);
        } else {
            assert(pushed[b] == x);
        }
    }
}

} // verus!
