//! The three-way reconciliation decision: given what the filesystem,
//! the journal and the server each know of one path, choose the one
//! action that brings them back in step.
//!
//! Hash equality is the sole equivalence; modification times are never
//! consulted.

use vstd::prelude::*;

use crate::hashing::LocalMeta;
use crate::journal::JournalEntry;
use crate::paths::str_eq_chars;
use crate::remote::RemoteFile;

verus! {

/// What the reconciler does to one path.
#[derive(Clone, Copy, Debug, PartialEq, Eq, Structural)]
pub enum SyncAction {
    /// All three sources agree (or none has the file): touch nothing.
    Nothing,
    /// Only the server has the file: download it and record it.
    DownloadNew,
    /// Only the journal remembers the file: drop the stale row.
    DropJournal,
    /// The file was deleted locally: delete it on the server and drop
    /// the journal row.
    DeleteRemote,
    /// The local copy is gone and the server has moved on: drop the
    /// row, download the new content, and record it.
    ReplaceFromRemote,
    /// Only the filesystem has the file: upload it and record it.
    UploadNew,
    /// Filesystem and server already agree; only the journal is
    /// missing the row: record it.
    AdoptRemote,
    /// The file was deleted on the server: delete the local copy and
    /// drop the journal row.
    DeleteLocal,
    /// The local copy changed: upload it and re-record it.
    ReUploadLocal,
    /// The server copy changed: download it and update the recorded
    /// hash.
    DownloadNewer,
    /// Both sides changed independently: ask the user.
    PromptUser,
}

/// The decision table over the presence and hashes of the three
/// sources, exactly as the reconciler dispatches.
pub open spec fn decide_spec(
    l: Option<Seq<char>>,
    j: Option<Seq<char>>,
    r: Option<Seq<char>>,
) -> SyncAction {
    match (l, j, r) {
        (Option::None, Option::None, Option::None) => SyncAction::Nothing,
        (Option::None, Option::None, Option::Some(_)) => SyncAction::DownloadNew,
        (Option::None, Option::Some(_), Option::None) => SyncAction::DropJournal,
        (Option::None, Option::Some(jh), Option::Some(rh)) => if jh == rh {
            SyncAction::DeleteRemote
        } else {
            SyncAction::ReplaceFromRemote
        },
        (Option::Some(_), Option::None, Option::None) => SyncAction::UploadNew,
        (Option::Some(lh), Option::None, Option::Some(rh)) => if lh == rh {
            SyncAction::AdoptRemote
        } else {
            SyncAction::PromptUser
        },
        (Option::Some(lh), Option::Some(jh), Option::None) => if lh == jh {
            SyncAction::DeleteLocal
        } else {
            SyncAction::ReUploadLocal
        },
        (Option::Some(lh), Option::Some(jh), Option::Some(rh)) => if lh == jh && lh == rh {
            SyncAction::Nothing
        } else if lh == jh {
            SyncAction::DownloadNewer
        } else if jh == rh {
            SyncAction::ReUploadLocal
        } else {
            SyncAction::PromptUser
        },
    }
}

/// The hash the filesystem reports, if the file exists.
pub open spec fn local_hash(l: Option<&LocalMeta>) -> Option<Seq<char>> {
    match l {
        Option::Some(m) => Some(m.hash@),
        Option::None => None,
    }
}

/// The hash the journal recorded, if a row exists.
pub open spec fn journal_hash(j: Option<&JournalEntry>) -> Option<Seq<char>> {
    match j {
        Option::Some(e) => Some(e.hash@),
        Option::None => None,
    }
}

/// The hash the server advertises, if the file exists there.
pub open spec fn remote_hash(r: Option<&RemoteFile>) -> Option<Seq<char>> {
    match r {
        Option::Some(f) => Some(f.hash@),
        Option::None => None,
    }
}

/// Dispatch on the triple-presence of one path and, where several
/// sources have the file, on hash equality. Honors the decision table
/// exactly.
pub fn decide(
    local: Option<&LocalMeta>,
    journal: Option<&JournalEntry>,
    remote: Option<&RemoteFile>,
) -> (action: SyncAction)
    ensures
        action == decide_spec(local_hash(local), journal_hash(journal), remote_hash(remote)),
{
    match (local, journal, remote) {
        (Option::None, Option::None, Option::None) => SyncAction::Nothing,
        (Option::None, Option::None, Option::Some(_)) => SyncAction::DownloadNew,
        (Option::None, Option::Some(_), Option::None) => SyncAction::DropJournal,
        (Option::None, Option::Some(sql_file), Option::Some(remote_file)) => {
            if str_eq_chars(sql_file.hash.as_str(), remote_file.hash.as_str()) {
                SyncAction::DeleteRemote
            } else {
                SyncAction::ReplaceFromRemote
            }
        }
        (Option::Some(_), Option::None, Option::None) => SyncAction::UploadNew,
        (Option::Some(local_meta), Option::None, Option::Some(remote_file)) => {
            if str_eq_chars(local_meta.hash.as_str(), remote_file.hash.as_str()) {
                SyncAction::AdoptRemote
            } else {
                SyncAction::PromptUser
            }
        }
        (Option::Some(local_meta), Option::Some(sql_file), Option::None) => {
            if str_eq_chars(local_meta.hash.as_str(), sql_file.hash.as_str()) {
                SyncAction::DeleteLocal
            } else {
                SyncAction::ReUploadLocal
            }
        }
        (Option::Some(local_meta), Option::Some(sql_file), Option::Some(remote_file)) => {
            let l_eq_j = str_eq_chars(local_meta.hash.as_str(), sql_file.hash.as_str());
            let l_eq_r = str_eq_chars(local_meta.hash.as_str(), remote_file.hash.as_str());
            let j_eq_r = str_eq_chars(sql_file.hash.as_str(), remote_file.hash.as_str());
            if l_eq_j && l_eq_r {
                SyncAction::Nothing
            } else if l_eq_j {
                SyncAction::DownloadNewer
            } else if j_eq_r {
                SyncAction::ReUploadLocal
            } else {
                SyncAction::PromptUser
            }
        }
    }
}

} // verus!
