use cloud_sync::hashing::LocalMeta;
use cloud_sync::journal::JournalEntry;
use cloud_sync::reconcile::{decide, SyncAction};
use cloud_sync::remote::RemoteFile;

fn meta(hash: &str) -> LocalMeta {
    LocalMeta { hash: hash.to_string(), size: 1 }
}

fn row(hash: &str) -> JournalEntry {
    JournalEntry { id: 1, path: "/f".to_string(), hash: hash.to_string() }
}

fn remote(hash: &str) -> RemoteFile {
    RemoteFile {
        id: 1,
        path: "/f".to_string(),
        hash: hash.to_string(),
        size: 1,
        created_at: 0,
        modified_at: 0,
    }
}

// The whole decision table, row by row: every presence combination and
// every hash-equivalence pattern.
#[test]
fn decision_table_absent_rows() {
    assert_eq!(SyncAction::Nothing, decide(None, None, None));
    assert_eq!(SyncAction::DownloadNew, decide(None, None, Some(&remote("a"))));
    assert_eq!(SyncAction::DropJournal, decide(None, Some(&row("a")), None));
    assert_eq!(SyncAction::UploadNew, decide(Some(&meta("a")), None, None));
}

#[test]
fn decision_table_journal_remote() {
    assert_eq!(
        SyncAction::DeleteRemote,
        decide(None, Some(&row("a")), Some(&remote("a")))
    );
    assert_eq!(
        SyncAction::ReplaceFromRemote,
        decide(None, Some(&row("a")), Some(&remote("b")))
    );
}

#[test]
fn decision_table_local_remote() {
    assert_eq!(
        SyncAction::AdoptRemote,
        decide(Some(&meta("a")), None, Some(&remote("a")))
    );
    assert_eq!(
        SyncAction::PromptUser,
        decide(Some(&meta("a")), None, Some(&remote("b")))
    );
}

#[test]
fn decision_table_local_journal() {
    assert_eq!(
        SyncAction::DeleteLocal,
        decide(Some(&meta("a")), Some(&row("a")), None)
    );
    assert_eq!(
        SyncAction::ReUploadLocal,
        decide(Some(&meta("a")), Some(&row("b")), None)
    );
}

#[test]
fn decision_table_all_present() {
    assert_eq!(
        SyncAction::Nothing,
        decide(Some(&meta("a")), Some(&row("a")), Some(&remote("a")))
    );
    assert_eq!(
        SyncAction::DownloadNewer,
        decide(Some(&meta("a")), Some(&row("a")), Some(&remote("b")))
    );
    assert_eq!(
        SyncAction::ReUploadLocal,
        decide(Some(&meta("a")), Some(&row("b")), Some(&remote("b")))
    );
    assert_eq!(
        SyncAction::PromptUser,
        decide(Some(&meta("a")), Some(&row("b")), Some(&remote("c")))
    );
    // the local and remote copies agreeing against the journal is still
    // a conflict the user must settle
    assert_eq!(
        SyncAction::PromptUser,
        decide(Some(&meta("a")), Some(&row("b")), Some(&remote("a")))
    );
}
