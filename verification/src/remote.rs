//! The records the client and the server exchange: the remote file
//! record, the announcement that opens an upload, and the frames of the
//! upload stream.

use vstd::prelude::*;

verus! {

/// A user's remote file as the server reports it.
#[derive(Debug, Clone)]
pub struct RemoteFile {
    /// The server-assigned identifier.
    pub id: u64,
    /// The sync-root-relative path, the key within one owner.
    pub path: String,
    /// Lowercase hexadecimal digest of the file's bytes.
    pub hash: String,
    /// Byte count of the file's bytes.
    pub size: u64,
    pub created_at: u64,
    pub modified_at: u64,
}

impl RemoteFile {
    pub fn duplicate(&self) -> (r: RemoteFile)
        ensures
            r == *self,
    {
        RemoteFile {
            id: self.id,
            path: self.path.clone(),
            hash: self.hash.clone(),
            size: self.size,
            created_at: self.created_at,
            modified_at: self.modified_at,
        }
    }
}

/// What the server reports about the calling user.
#[derive(Debug, Clone)]
pub struct UserView {
    pub id: u64,
    pub username: String,
    /// `None` means unlimited.
    pub storage_quota: Option<u64>,
    pub storage_used: u64,
}

/// The announcement that opens an upload: the path to store under, and
/// the digest and size the client computed up front.
#[derive(Debug, Clone)]
pub struct UploadInfo {
    pub path: String,
    pub hash: String,
    pub size: u64,
}

impl UploadInfo {
    pub fn duplicate(&self) -> (r: UploadInfo)
        ensures
            r == *self,
    {
        UploadInfo { path: self.path.clone(), hash: self.hash.clone(), size: self.size }
    }
}

/// One frame of the upload stream: first the announcement, then the
/// file's bytes in order.
#[derive(Debug, Clone)]
pub enum UploadFrame {
    Info(UploadInfo),
    Chunk(Vec<u8>),
}

} // verus!
