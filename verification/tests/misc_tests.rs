use cloud_sync::auth::{make_claims, parse_bearer, AuthInterceptor};
use cloud_sync::engine::FileStatus;
use cloud_sync::format::storage_status_line;
use cloud_sync::hashing::{hash_bytes, ContentHasher};
use cloud_sync::journal::Journal;
use cloud_sync::remote::RemoteFile;
use cloud_sync::SyncError;

fn remote(id: u64, path: &str, hash: &str) -> RemoteFile {
    RemoteFile {
        id,
        path: path.to_string(),
        hash: hash.to_string(),
        size: 1,
        created_at: 0,
        modified_at: 0,
    }
}

#[test]
fn digest_matches_reference_implementation() {
    // the trusted hashing wrapper must agree with the hash library it
    // wraps, and must not hand its input back
    let expected = blake3::hash(b"hello").to_hex().to_string();
    let got = hash_bytes(&b"hello".to_vec());
    assert_eq!(expected.as_str(), got.as_str());
    assert_ne!("hello", got.as_str());
    assert_eq!(64, got.len());
}

#[test]
fn streaming_digest_equals_one_shot() {
    let mut h = ContentHasher::new();
    h.update(b"hel");
    h.update(b"lo");
    assert_eq!(5, h.size());
    assert_eq!(hash_bytes(&b"hello".to_vec()).as_str(), h.finalize().as_str());
}

#[test]
fn journal_table_contract() {
    let mut j = Journal::new();
    j.add_file(&remote(1, "/a", "ha")).unwrap();
    j.add_file(&remote(2, "/b", "hb")).unwrap();
    // duplicate id is refused, table unchanged
    assert_eq!(
        Err(SyncError::InvalidArgument),
        j.add_file(&remote(1, "/c", "hc"))
    );
    assert_eq!(2, j.entries.len());

    let e = j.find_file_by_path("/a").unwrap();
    assert_eq!(1, e.id);
    assert_eq!("ha", e.hash.as_str());
    assert!(j.find_file_by_path("/missing").is_none());

    j.update_hash_by_id(1, "ha2".to_string()).unwrap();
    assert_eq!("ha2", j.find_file_by_path("/a").unwrap().hash.as_str());
    assert_eq!(
        Err(SyncError::NotFound),
        j.update_hash_by_id(99, "x".to_string())
    );

    assert!(j.update_file_hash_by_path("/b", "hb2".to_string()));
    assert_eq!("hb2", j.find_file_by_path("/b").unwrap().hash.as_str());
    assert!(!j.update_file_hash_by_path("/missing", "x".to_string()));

    j.delete_file_by_id(1).unwrap();
    assert!(j.find_file_by_path("/a").is_none());
    assert_eq!(Err(SyncError::NotFound), j.delete_file_by_id(1));
    assert_eq!(1, j.entries.len());
}

#[test]
fn bearer_header_round_trip() {
    let interceptor = AuthInterceptor::new("tok123".to_string());
    let header = interceptor.authorization_header();
    assert_eq!("Baerer tok123", header.as_str());
    assert_eq!("tok123", parse_bearer(header.as_str()).as_str());
    // a bare token passes through unchanged
    assert_eq!("tok123", parse_bearer("tok123").as_str());
}

#[test]
fn claims_expire_in_one_week() {
    let c = make_claims("user-1".to_string(), 1_000_000);
    assert_eq!("user-1", c.sub.as_str());
    assert_eq!(1_000_000 + 604_800, c.exp);
}

#[test]
fn storage_line_formatting() {
    // the trusted size wrapper must agree with the unit library it
    // wraps, and must not echo the raw number
    let expected = byte_unit::Byte::from_u64(1536)
        .get_appropriate_unit(byte_unit::UnitType::Binary)
        .to_string();
    let line = storage_status_line(1536, Some(4096));
    assert_eq!(format!("{} / 4 KiB used", expected), line.as_str());
    assert_eq!("0 B / ∞ used", storage_status_line(0, None).as_str());
}

#[test]
fn status_icons() {
    assert_eq!("fa-solid fa-spinner fa-spin", FileStatus::WaitingQueue.to_icon().as_str());
    assert_eq!("fa-solid fa-file-circle-check", FileStatus::Success.to_icon().as_str());
    assert_eq!("fa-solid fa-file-circle-xmark", FileStatus::Failed.to_icon().as_str());
    assert_eq!("fa-solid fa-file-circle-plus", FileStatus::Added.to_icon().as_str());
    assert_eq!("fa-solid fa-file-circle-minus", FileStatus::Deleted.to_icon().as_str());
}
