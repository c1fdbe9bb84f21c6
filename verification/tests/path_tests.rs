use cloud_sync::paths::{
    abs_to_rel_path, extract_file_name, is_reserved, rel_to_abs_path, temp_download_path,
    validate_rel_path, FilePath,
};
use cloud_sync::SyncError;

#[test]
fn abs_to_rel() {
    let sync_dir = "/home/test/cloud";
    assert_eq!("/home/test/cloud", sync_dir);

    assert_eq!(
        "/test.txt",
        abs_to_rel_path(sync_dir, "/home/test/cloud/test.txt").as_str()
    );

    assert_eq!(
        "/path/test.txt",
        abs_to_rel_path(sync_dir, "/home/test/cloud/path/test.txt").as_str()
    );
}

#[test]
fn rel_to_abs() {
    let sync_dir = "/home/test/cloud";

    assert_eq!(
        "/home/test/cloud/test.txt",
        rel_to_abs_path(sync_dir, "/test.txt").as_str()
    );

    assert_eq!(
        "/home/test/cloud/path/test.txt",
        rel_to_abs_path(sync_dir, "/path/test.txt").as_str()
    );
}

#[test]
fn file_path_round_trip() {
    let fp = FilePath::from_abs("/home/test/cloud", "/home/test/cloud/a/b.txt");
    assert_eq!("/a/b.txt", fp.to_rel_str().as_str());
    assert_eq!("/home/test/cloud/a/b.txt", fp.to_abs_str().as_str());
    assert_eq!("/home/test/cloud", fp.get_sync_dir().as_str());

    let fp2 = FilePath::from_rel("/home/test/cloud", "/a/b.txt");
    assert_eq!(fp.get_abs().as_str(), fp2.get_abs().as_str());
    assert_eq!(fp.get_rel().as_str(), fp2.get_rel().as_str());
}

#[test]
fn file_name_extraction() {
    assert_eq!("test.txt", extract_file_name("/path/test.txt".to_string()).as_str());
    assert_eq!("b", extract_file_name("/a/b".to_string()).as_str());
    assert_eq!("plain", extract_file_name("plain".to_string()).as_str());
    assert_eq!("", extract_file_name("/dir/".to_string()).as_str());
}

#[test]
fn temp_download_naming() {
    assert_eq!(
        "/a/.~download~b.txt",
        temp_download_path("/a/b.txt").as_str()
    );
    assert_eq!("/.~download~x", temp_download_path("/x").as_str());
    assert!(is_reserved(temp_download_path("/a/b.txt").as_str()));
}

#[test]
fn path_validation() {
    assert!(validate_rel_path("/note.txt").is_ok());
    assert!(validate_rel_path("/a/b/c.bin").is_ok());
    assert_eq!(
        Err(SyncError::InvalidArgument),
        validate_rel_path("note.txt")
    );
    assert_eq!(Err(SyncError::InvalidArgument), validate_rel_path(""));
    assert_eq!(Err(SyncError::InvalidArgument), validate_rel_path("/dir/"));
    assert_eq!(
        Err(SyncError::InvalidArgument),
        validate_rel_path("/.sync.db")
    );
    assert_eq!(
        Err(SyncError::InvalidArgument),
        validate_rel_path("/a/.sync.db")
    );
    assert_eq!(
        Err(SyncError::InvalidArgument),
        validate_rel_path("/a/.~download~b.txt")
    );
    // a name that merely contains the reserved words elsewhere is fine
    assert!(validate_rel_path("/sync.db.backup").is_ok());
}

#[test]
fn path_validation_rejects_escapes() {
    // no segment may be empty, `.` or `..`: such a path could name its
    // own directory or climb out of the sync root under a join
    assert_eq!(Err(SyncError::InvalidArgument), validate_rel_path("/../evil"));
    assert_eq!(Err(SyncError::InvalidArgument), validate_rel_path("/a/.."));
    assert_eq!(Err(SyncError::InvalidArgument), validate_rel_path("/a/../b"));
    assert_eq!(Err(SyncError::InvalidArgument), validate_rel_path("/a/./b"));
    assert_eq!(Err(SyncError::InvalidArgument), validate_rel_path("/."));
    assert_eq!(Err(SyncError::InvalidArgument), validate_rel_path("/a//b"));
    assert_eq!(Err(SyncError::InvalidArgument), validate_rel_path("//a"));
    // dots inside an ordinary name are no escape
    assert!(validate_rel_path("/a.b").is_ok());
    assert!(validate_rel_path("/..a").is_ok());
    assert!(validate_rel_path("/a/...x").is_ok());
}
