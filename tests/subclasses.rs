use shared_mime::record::{GlobRule, MimeTypeRecord};
use shared_mime::MimeDB;

fn record(name: &str, patterns: &[&str], parents: &[&str]) -> MimeTypeRecord {
    MimeTypeRecord {
        name: name.to_string(),
        description: None,
        globs: patterns
            .iter()
            .map(|p| GlobRule {
                pattern: p.to_string(),
                weight: 50,
                case_sensitive: false,
            })
            .collect(),
        superclasses: parents.iter().map(|p| p.to_string()).collect(),
        aliases: Vec::new(),
    }
}

/// A small registry with the shape of the shared MIME database's entries.
fn sample_mime_db() -> MimeDB {
    let mut db = MimeDB::new();
    db.add_records(vec![
        record("text/plain", &["*.txt", "*.asc"], &[]),
        record("text/markdown", &["*.md"], &["text/plain"]),
        record("image/png", &["*.png"], &[]),
        record("application/javascript", &["*.js"], &["text/plain"]),
        record("application/json", &["*.json"], &["application/javascript"]),
        record("application/schema+json", &["*.json"], &["application/json"]),
        record("inode/directory", &[], &[]),
        record("inode/symlink", &[], &[]),
    ]);
    db
}

#[test]
fn tests_test_json_subtype() {
    let db = sample_mime_db();
    assert!(db.is_subtype("application/json", "text/plain"));
}

#[test]
fn tests_test_text_subtype() {
    let db = sample_mime_db();
    assert!(db.is_subtype("text/markdown", "text/plain"));
}

#[test]
fn tests_test_unknown_text_subtype() {
    let db = sample_mime_db();
    assert!(db.is_subtype("text/x-hackem-muche", "text/plain"));
}

#[test]
fn tests_test_unknown_binary_subtype() {
    let db = sample_mime_db();
    assert!(db.is_subtype("text/x-hackem-muche", "application/octet-stream"));
}

#[test]
fn tests_test_img_binary_subtype() {
    let db = sample_mime_db();
    assert!(db.is_subtype("image/png", "application/octet-stream"));
}

#[test]
fn tests_test_text_binary_subtype() {
    let db = sample_mime_db();
    assert!(db.is_subtype("text/plain", "application/octet-stream"));
}

#[test]
fn subclasses_test_json_subtype() {
    let db = sample_mime_db();
    assert!(db.is_subtype("application/json", "text/plain"));
}

#[test]
fn subclasses_test_text_subtype() {
    let db = sample_mime_db();
    assert!(db.is_subtype("text/markdown", "text/plain"));
}

#[test]
fn subclasses_test_unknown_text_subtype() {
    let db = sample_mime_db();
    assert!(db.is_subtype("text/x-hackem-muche", "text/plain"));
}

#[test]
fn subclasses_test_unknown_binary_subtype() {
    let db = sample_mime_db();
    assert!(db.is_subtype("text/x-hackem-muche", "application/octet-stream"));
}

#[test]
fn subclasses_test_img_binary_subtype() {
    let db = sample_mime_db();
    assert!(db.is_subtype("image/png", "application/octet-stream"));
}

#[test]
fn subclasses_test_text_binary_subtype() {
    let db = sample_mime_db();
    assert!(db.is_subtype("text/plain", "application/octet-stream"));
}

#[test]
fn test_inode_not_subtype() {
    let db = sample_mime_db();
    let inodes = [
        "inode/blockdevice",
        "inode/chardevice",
        "inode/directory",
        "inode/fifo",
        "inode/mount-point",
        "inode/socket",
        "inode/symlink",
    ];
    for it in inodes {
        assert!(!db.is_subtype(it, "text/plain"));
        assert!(!db.is_subtype(it, "application/octet-stream"));
    }
}

#[test]
fn test_text_file() {
    let db = sample_mime_db();
    let answer = db.match_filename(b"foo.txt");
    assert_eq!(answer.best(), Some("text/plain"));
}

#[test]
fn test_png_image() {
    let db = sample_mime_db();
    let answer = db.match_filename(b"foo.png");
    assert_eq!(answer.best(), Some("image/png"));
}

#[test]
fn test_json_file() {
    // the most general of the related matches is the answer
    let db = sample_mime_db();
    let answer = db.match_filename(b"foo.json");
    assert_eq!(answer.best(), Some("application/json"));
    assert!(answer.all_types().len() > 1);
}
