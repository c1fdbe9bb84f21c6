use cloud_sync::engine::{
    install_download, keep_local, keep_remote, refresh, skip, FileStatus, SyncWorld,
};
use cloud_sync::hashing::hash_bytes;
use cloud_sync::journal::Journal;
use cloud_sync::localdir::LocalDir;
use cloud_sync::engine::StatusTable;
use cloud_sync::remote::{RemoteFile, UploadFrame, UploadInfo};
use cloud_sync::server::ServerState;

fn fresh_world(quota: Option<u64>) -> SyncWorld {
    SyncWorld {
        sync_dir: "/home/test/cloud".to_string(),
        local: LocalDir::new(),
        journal: Journal::new(),
        server: ServerState::new(
            1,
            "user@example.com".to_string(),
            "user".to_string(),
            "verifier".to_string(),
            quota,
        ),
        statuses: StatusTable::new(),
    }
}

fn frames_for(path: &str, bytes: &[u8]) -> Vec<UploadFrame> {
    vec![
        UploadFrame::Info(UploadInfo {
            path: path.to_string(),
            hash: hash_bytes(&bytes.to_vec()),
            size: bytes.len() as u64,
        }),
        UploadFrame::Chunk(bytes.to_vec()),
    ]
}

fn status_of<'a>(world: &'a SyncWorld, rel: &str) -> &'a FileStatus {
    &world
        .statuses
        .entries
        .iter()
        .find(|e| e.path.get_rel().as_str() == rel)
        .expect("path must be listed")
        .status
}

#[test]
fn upload_new_file() {
    // local /note.txt with bytes "hello"; journal and server empty
    let mut world = fresh_world(None);
    world.local.write("/note.txt", b"hello".to_vec());

    refresh(&mut world, 100);

    let f = world.server.find_by_path("/note.txt").expect("uploaded");
    assert_eq!(5, f.size);
    assert_eq!(hash_bytes(&b"hello".to_vec()).as_str(), f.hash.as_str());
    let entry = world.journal.find_file_by_path("/note.txt").expect("journaled");
    assert_eq!(f.id, entry.id);
    assert!(matches!(status_of(&world, "/note.txt"), FileStatus::Added));
}

#[test]
fn pure_download() {
    // server has /report.pdf of 12345 bytes; sync root and journal empty
    let mut world = fresh_world(None);
    let payload = vec![42u8; 12345];
    let f = world.server.upload(&frames_for("/report.pdf", &payload), 1).unwrap();

    refresh(&mut world, 100);

    let bytes = world.local.read("/report.pdf").expect("downloaded");
    assert_eq!(12345, bytes.len());
    assert_eq!(f.hash.as_str(), hash_bytes(&bytes).as_str());
    let entry = world.journal.find_file_by_path("/report.pdf").expect("journaled");
    assert_eq!(f.id, entry.id);
    assert!(matches!(status_of(&world, "/report.pdf"), FileStatus::Added));
}

#[test]
fn local_delete_propagates() {
    // /a synced everywhere, then deleted locally
    let mut world = fresh_world(None);
    world.local.write("/a", b"data".to_vec());
    refresh(&mut world, 1);
    world.local.remove("/a").unwrap();

    refresh(&mut world, 2);

    assert!(world.server.find_by_path("/a").is_none());
    assert!(world.journal.find_file_by_path("/a").is_none());
    assert!(matches!(status_of(&world, "/a"), FileStatus::Deleted));
}

#[test]
fn remote_delete_propagates() {
    // /b synced everywhere, then deleted on the server out-of-band
    let mut world = fresh_world(None);
    world.local.write("/b", b"data".to_vec());
    refresh(&mut world, 1);
    let f = world.server.find_by_path("/b").unwrap();
    world.server.delete(f.id).unwrap();

    refresh(&mut world, 2);

    assert!(world.local.read("/b").is_none());
    assert!(world.journal.find_file_by_path("/b").is_none());
    assert!(matches!(status_of(&world, "/b"), FileStatus::Deleted));
}

fn conflicted_world() -> (SyncWorld, RemoteFile) {
    // /c synced with hash Hc, then edited to Hc1 locally while the
    // server independently moved to Hc2
    let mut world = fresh_world(None);
    world.local.write("/c", b"original".to_vec());
    refresh(&mut world, 1);
    world.local.write("/c", b"local edit".to_vec());
    let f = world.server.upload(&frames_for("/c", b"remote edit"), 2).unwrap();
    (world, f)
}

#[test]
fn true_conflict_prompts() {
    let (mut world, _f) = conflicted_world();
    refresh(&mut world, 3);
    assert!(matches!(status_of(&world, "/c"), FileStatus::WaitingUser(_)));
    // nothing moved while the prompt is open
    assert_eq!(b"local edit".to_vec(), world.local.read("/c").unwrap());
    assert_eq!(
        hash_bytes(&b"remote edit".to_vec()).as_str(),
        world.server.find_by_path("/c").unwrap().hash.as_str()
    );
}

#[test]
fn conflict_keep_local_wins() {
    let (mut world, _f) = conflicted_world();
    refresh(&mut world, 3);
    let keep = match status_of(&world, "/c") {
        FileStatus::WaitingUser(k) => cloud_sync::engine::FilePromptKeep {
            file_path: k.file_path.duplicate(),
            local_meta: k.local_meta.clone(),
            sql_file: k.sql_file.as_ref().map(|e| e.duplicate()),
            remote_file: k.remote_file.duplicate(),
        },
        _ => panic!("expected a prompt"),
    };

    keep_local(&mut world, &keep, 4);

    let local_hash = hash_bytes(&b"local edit".to_vec());
    assert!(matches!(status_of(&world, "/c"), FileStatus::Success));
    assert_eq!(local_hash.as_str(), world.server.find_by_path("/c").unwrap().hash.as_str());
    assert_eq!(local_hash.as_str(), world.journal.find_file_by_path("/c").unwrap().hash.as_str());
    assert_eq!(b"local edit".to_vec(), world.local.read("/c").unwrap());
}

#[test]
fn conflict_keep_remote_wins() {
    let (mut world, _f) = conflicted_world();
    refresh(&mut world, 3);
    let keep = match status_of(&world, "/c") {
        FileStatus::WaitingUser(k) => cloud_sync::engine::FilePromptKeep {
            file_path: k.file_path.duplicate(),
            local_meta: k.local_meta.clone(),
            sql_file: k.sql_file.as_ref().map(|e| e.duplicate()),
            remote_file: k.remote_file.duplicate(),
        },
        _ => panic!("expected a prompt"),
    };

    keep_remote(&mut world, &keep, 4);

    let remote_hash = hash_bytes(&b"remote edit".to_vec());
    assert!(matches!(status_of(&world, "/c"), FileStatus::Success));
    assert_eq!(b"remote edit".to_vec(), world.local.read("/c").unwrap());
    assert_eq!(remote_hash.as_str(), world.journal.find_file_by_path("/c").unwrap().hash.as_str());
}

#[test]
fn conflict_skip_touches_nothing() {
    let (mut world, _f) = conflicted_world();
    refresh(&mut world, 3);
    let path = match status_of(&world, "/c") {
        FileStatus::WaitingUser(k) => k.file_path.duplicate(),
        _ => panic!("expected a prompt"),
    };
    skip(&mut world, &path);
    assert!(matches!(status_of(&world, "/c"), FileStatus::Success));
    assert_eq!(b"local edit".to_vec(), world.local.read("/c").unwrap());
    assert_eq!(
        hash_bytes(&b"remote edit".to_vec()).as_str(),
        world.server.find_by_path("/c").unwrap().hash.as_str()
    );
}

#[test]
fn keep_local_with_stale_hash_fails() {
    // the prompt's precomputed hash travels with the upload; if the
    // file changed again since the prompt, the server must refuse
    let (mut world, _f) = conflicted_world();
    refresh(&mut world, 3);
    let keep = match status_of(&world, "/c") {
        FileStatus::WaitingUser(k) => cloud_sync::engine::FilePromptKeep {
            file_path: k.file_path.duplicate(),
            local_meta: k.local_meta.clone(),
            sql_file: k.sql_file.as_ref().map(|e| e.duplicate()),
            remote_file: k.remote_file.duplicate(),
        },
        _ => panic!("expected a prompt"),
    };
    world.local.write("/c", b"changed again".to_vec());

    keep_local(&mut world, &keep, 4);

    assert!(matches!(status_of(&world, "/c"), FileStatus::Failed));
    // the server kept its copy
    assert_eq!(
        hash_bytes(&b"remote edit".to_vec()).as_str(),
        world.server.find_by_path("/c").unwrap().hash.as_str()
    );
}

#[test]
fn quota_exceeded_marks_failed() {
    // quota 1024, 1000 used: a 100-byte upload must fail
    let mut world = fresh_world(Some(1024));
    let payload = vec![7u8; 1000];
    world.server.upload(&frames_for("/big", &payload), 1).unwrap();
    world.local.write("/big", payload);
    refresh(&mut world, 2);
    assert_eq!(1000, world.server.get_self().storage_used);

    world.local.write("/more", vec![1u8; 100]);
    refresh(&mut world, 3);

    assert!(matches!(status_of(&world, "/more"), FileStatus::Failed));
    assert!(world.server.find_by_path("/more").is_none());
    assert_eq!(1000, world.server.get_self().storage_used);
    assert_eq!(1, world.server.get_all().len());
}

#[test]
fn second_pass_changes_nothing() {
    // after a clean pass, a second pass performs zero mutations and
    // reports Success everywhere
    let mut world = fresh_world(None);
    world.local.write("/one.txt", b"first".to_vec());
    world.server.upload(&frames_for("/two.txt", b"second"), 1).unwrap();
    refresh(&mut world, 2);

    let journal_before: Vec<(u64, String, String)> = world
        .journal
        .entries
        .iter()
        .map(|e| (e.id, e.path.clone(), e.hash.clone()))
        .collect();
    let listing_before: Vec<(u64, String, String, u64)> = world
        .server
        .get_all()
        .iter()
        .map(|f| (f.id, f.path.clone(), f.hash.clone(), f.size))
        .collect();
    let used_before = world.server.get_self().storage_used;

    refresh(&mut world, 3);

    let journal_after: Vec<(u64, String, String)> = world
        .journal
        .entries
        .iter()
        .map(|e| (e.id, e.path.clone(), e.hash.clone()))
        .collect();
    let listing_after: Vec<(u64, String, String, u64)> = world
        .server
        .get_all()
        .iter()
        .map(|f| (f.id, f.path.clone(), f.hash.clone(), f.size))
        .collect();

    assert_eq!(journal_before, journal_after);
    assert_eq!(listing_before, listing_after);
    assert_eq!(used_before, world.server.get_self().storage_used);
    assert_eq!(b"first".to_vec(), world.local.read("/one.txt").unwrap());
    assert_eq!(b"second".to_vec(), world.local.read("/two.txt").unwrap());
    for e in &world.statuses.entries {
        assert!(matches!(e.status, FileStatus::Success));
    }
}

#[test]
fn corrupted_download_leaves_no_file() {
    // a tampered byte stream must never land at the destination
    let mut world = fresh_world(None);
    let f = world.server.upload(&frames_for("/doc", b"good bytes"), 1).unwrap();
    let r = install_download(&mut world.local, &f, b"bad bytes!".to_vec());
    assert_eq!(Err(cloud_sync::SyncError::IntegrityError), r);
    assert!(world.local.read("/doc").is_none());
    assert!(world.local.read("/.~download~doc").is_none());
}

#[test]
fn interrupted_download_remnant_is_ignored() {
    // a crash mid-download leaves only the temporary, which the next
    // pass skips entirely
    let mut world = fresh_world(None);
    world.local.write("/.~download~doc", b"half written".to_vec());
    refresh(&mut world, 1);
    assert!(world
        .statuses
        .entries
        .iter()
        .all(|e| e.path.get_rel().as_str() != "/.~download~doc"));
    assert!(world.server.find_by_path("/.~download~doc").is_none());
    // the remnant itself is untouched
    assert_eq!(b"half written".to_vec(), world.local.read("/.~download~doc").unwrap());
}

#[test]
fn journal_only_rows_are_dropped() {
    // a stale journal row whose file is gone on both sides
    let mut world = fresh_world(None);
    world.local.write("/gone", b"x".to_vec());
    refresh(&mut world, 1);
    world.local.remove("/gone").unwrap();
    let f = world.server.find_by_path("/gone").unwrap();
    world.server.delete(f.id).unwrap();
    // the journal still remembers the file, but neither side has it;
    // the row is only visited if something enumerates the path, so
    // reconcile it directly
    let fp = cloud_sync::paths::FilePath::from_rel("/home/test/cloud", "/gone");
    let st = cloud_sync::engine::sync_file(&mut world, &fp, 2).unwrap();
    assert!(matches!(st, FileStatus::Success));
    assert!(world.journal.find_file_by_path("/gone").is_none());
}

#[test]
fn command_dispatch_matches_direct_calls() {
    let mut world = fresh_world(None);
    world.local.write("/d", b"payload".to_vec());
    let line = cloud_sync::engine::handle_file_command(
        &mut world,
        &cloud_sync::engine::HandleFileCommand::Refresh,
        5,
    );
    assert!(line.is_some());
    assert!(matches!(status_of(&world, "/d"), FileStatus::Added));

    let path = world.statuses.entries[0].path.duplicate();
    let none = cloud_sync::engine::handle_file_command(
        &mut world,
        &cloud_sync::engine::HandleFileCommand::Skip(path),
        6,
    );
    assert!(none.is_none());
    assert!(matches!(status_of(&world, "/d"), FileStatus::Success));
}

#[test]
fn status_line_reports_usage() {
    let mut world = fresh_world(Some(2048));
    world.local.write("/f", vec![0u8; 1024]);
    let line = refresh(&mut world, 1);
    assert_eq!("1 KiB / 2 KiB used", line.as_str());

    let mut unlimited = fresh_world(None);
    let line2 = refresh(&mut unlimited, 1);
    assert_eq!("0 B / ∞ used", line2.as_str());
}
