use cloud_sync::hashing::hash_bytes;
use cloud_sync::remote::{UploadFrame, UploadInfo};
use cloud_sync::server::ServerState;
use cloud_sync::SyncError;

fn fresh_server(quota: Option<u64>) -> ServerState {
    ServerState::new(
        1,
        "user@example.com".to_string(),
        "user".to_string(),
        "verifier".to_string(),
        quota,
    )
}

fn frames_for(path: &str, bytes: &[u8]) -> Vec<UploadFrame> {
    vec![
        UploadFrame::Info(UploadInfo {
            path: path.to_string(),
            hash: hash_bytes(&bytes.to_vec()),
            size: bytes.len() as u64,
        }),
        UploadFrame::Chunk(bytes.to_vec()),
    ]
}

#[test]
fn upload_stores_announced_hash_and_size() {
    let mut s = fresh_server(None);
    let f = s.upload(&frames_for("/note.txt", b"hello"), 7).unwrap();
    assert_eq!("/note.txt", f.path.as_str());
    assert_eq!(5, f.size);
    assert_eq!(hash_bytes(&b"hello".to_vec()).as_str(), f.hash.as_str());
    // the stored record carries the same hash, and the bytes round-trip
    let got = s.get(f.id).unwrap();
    assert_eq!(f.hash.as_str(), got.hash.as_str());
    let bytes = s.download(f.id).unwrap();
    assert_eq!(b"hello".to_vec(), bytes);
}

#[test]
fn upload_corrupted_chunk_is_data_loss() {
    let mut s = fresh_server(None);
    let mut frames = frames_for("/note.txt", b"hello");
    // flip one byte in transit; the announced hash no longer matches
    frames[1] = UploadFrame::Chunk(b"hellp".to_vec());
    assert_eq!(Err(SyncError::DataLoss), s.upload(&frames, 7).map(|_| ()));
    assert!(s.find_by_path("/note.txt").is_none());
    assert_eq!(0, s.get_self().storage_used);
}

#[test]
fn upload_size_mismatch_is_data_loss() {
    let mut s = fresh_server(None);
    let mut frames = frames_for("/note.txt", b"hello");
    if let UploadFrame::Info(info) = &mut frames[0] {
        info.size = 6;
    }
    assert_eq!(Err(SyncError::DataLoss), s.upload(&frames, 7).map(|_| ()));
}

#[test]
fn upload_overrun_is_aborted() {
    let mut s = fresh_server(None);
    let mut frames = frames_for("/note.txt", b"hello");
    if let UploadFrame::Info(info) = &mut frames[0] {
        info.size = 3;
    }
    assert_eq!(Err(SyncError::Aborted), s.upload(&frames, 7).map(|_| ()));
}

#[test]
fn upload_rejects_invalid_paths() {
    let mut s = fresh_server(None);
    for path in [
        "note.txt",
        "/.sync.db",
        "/a/.sync.db",
        "/.~download~x",
        "/dir/",
        "/../evil",
        "/a/./b",
        "/a//b",
    ] {
        let r = s.upload(&frames_for(path, b"hello"), 7).map(|_| ());
        assert_eq!(Err(SyncError::InvalidArgument), r, "path {path} must be rejected");
    }
    assert_eq!(0, s.get_self().storage_used);
}

#[test]
fn upload_stream_shape_is_checked() {
    let mut s = fresh_server(None);
    // no frames at all
    assert_eq!(Err(SyncError::InvalidArgument), s.upload(&Vec::new(), 7).map(|_| ()));
    // bytes before the announcement
    let frames = vec![UploadFrame::Chunk(b"hello".to_vec())];
    assert_eq!(Err(SyncError::InvalidArgument), s.upload(&frames, 7).map(|_| ()));
    // a second announcement mid-stream
    let mut frames = frames_for("/note.txt", b"hello");
    frames.push(UploadFrame::Info(UploadInfo {
        path: "/note.txt".to_string(),
        hash: hash_bytes(&b"hello".to_vec()),
        size: 5,
    }));
    assert_eq!(Err(SyncError::InvalidArgument), s.upload(&frames, 7).map(|_| ()));
}

#[test]
fn quota_is_sum_of_sizes_under_uploads_and_deletes() {
    let mut s = fresh_server(None);
    let a = s.upload(&frames_for("/a", b"aaaa"), 1).unwrap();
    let _b = s.upload(&frames_for("/b", b"bbbbbb"), 2).unwrap();
    assert_eq!(10, s.get_self().storage_used);
    // replacing a file swaps its charge, not adds to it
    let a2 = s.upload(&frames_for("/a", b"xy"), 3).unwrap();
    assert_eq!(a.id, a2.id);
    assert_eq!(8, s.get_self().storage_used);
    s.delete(a2.id).unwrap();
    assert_eq!(6, s.get_self().storage_used);
    assert!(s.find_by_path("/a").is_none());
    assert!(s.find_by_path("/b").is_some());
}

#[test]
fn quota_exceeded_rejects_and_leaves_everything_unchanged() {
    let mut s = fresh_server(Some(1024));
    let payload = [7u8; 1000];
    s.upload(&frames_for("/big", &payload), 1).unwrap();
    assert_eq!(1000, s.get_self().storage_used);

    let extra = [1u8; 100];
    let r = s.upload(&frames_for("/more", &extra), 2).map(|_| ());
    assert_eq!(Err(SyncError::ResourceExhausted), r);
    assert_eq!(1000, s.get_self().storage_used);
    assert!(s.find_by_path("/more").is_none());
    assert_eq!(1, s.get_all().len());
}

#[test]
fn delete_unknown_id_is_not_found() {
    let mut s = fresh_server(None);
    assert_eq!(Err(SyncError::NotFound), s.delete(42).map(|_| ()));
    assert_eq!(Err(SyncError::NotFound), s.get(42).map(|_| ()));
    assert_eq!(Err(SyncError::NotFound), s.download(42).map(|_| ()));
}

#[test]
fn listing_and_find_agree() {
    let mut s = fresh_server(None);
    s.upload(&frames_for("/x", b"1"), 1).unwrap();
    s.upload(&frames_for("/y", b"22"), 2).unwrap();
    let all = s.get_all();
    assert_eq!(2, all.len());
    for f in &all {
        let found = s.find_by_path(f.path.as_str()).unwrap();
        assert_eq!(f.id, found.id);
        assert_eq!(f.hash.as_str(), found.hash.as_str());
    }
}
