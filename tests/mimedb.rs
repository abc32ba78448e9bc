use std::cmp::Ordering;

use shared_mime::query::{FileKind, FileMetadata};
use shared_mime::record::{GlobRule, MimeTypeRecord};
use shared_mime::{FileQuery, MimeDB};

fn glob(pattern: &str, weight: i32) -> GlobRule {
    GlobRule {
        pattern: pattern.to_string(),
        weight,
        case_sensitive: false,
    }
}

fn record(name: &str, globs: Vec<GlobRule>, parents: &[&str]) -> MimeTypeRecord {
    MimeTypeRecord {
        name: name.to_string(),
        description: None,
        globs,
        superclasses: parents.iter().map(|p| p.to_string()).collect(),
        aliases: Vec::new(),
    }
}

fn seeded() -> MimeDB {
    let mut db = MimeDB::new();
    db.add_records(vec![
        record("text/plain", vec![glob("*.txt", 50)], &[]),
        record("image/png", vec![glob("*.png", 50)], &[]),
        record("application/javascript", vec![glob("*.js", 50)], &["text/plain"]),
        record("application/json", vec![glob("*.json", 50)], &["application/javascript"]),
        record("text/markdown", vec![glob("*.md", 50)], &["text/plain"]),
    ]);
    db
}

#[test]
fn subtype_is_reflexive() {
    let db = MimeDB::new();
    assert!(db.is_subtype("image/png", "image/png"));
    assert!(db.is_subtype("inode/directory", "inode/directory"));
}

#[test]
fn everything_but_inodes_is_binary() {
    let db = seeded();
    assert!(db.is_subtype("image/png", "application/octet-stream"));
    assert!(db.is_subtype("text/x-hackem-muche", "application/octet-stream"));
    assert!(db.is_subtype("text/plain", "application/octet-stream"));
}

#[test]
fn text_types_are_plain_text() {
    let db = MimeDB::new();
    assert!(db.is_subtype("text/x-hackem-muche", "text/plain"));
    assert!(!db.is_subtype("image/png", "text/plain"));
}

#[test]
fn declared_parents_are_followed() {
    let db = seeded();
    assert!(db.is_subtype("application/json", "application/javascript"));
    assert!(db.is_subtype("application/json", "text/plain"));
    assert!(!db.is_subtype("application/javascript", "application/json"));
    assert!(!db.is_subtype("image/png", "text/plain"));
}

#[test]
fn inodes_are_neither_text_nor_binary() {
    let db = seeded();
    let inodes = [
        "inode/blockdevice",
        "inode/chardevice",
        "inode/directory",
        "inode/fifo",
        "inode/mount-point",
        "inode/socket",
        "inode/symlink",
    ];
    for it in inodes {
        assert!(!db.is_subtype(it, "text/plain"));
        assert!(!db.is_subtype(it, "application/octet-stream"));
    }
}

#[test]
fn cyclic_parents_terminate() {
    let mut db = MimeDB::new();
    db.add_records(vec![
        record("x/a", vec![], &["x/b"]),
        record("x/b", vec![], &["x/a", "x/c"]),
    ]);
    assert!(db.is_subtype("x/a", "x/c"));
    assert!(!db.is_subtype("x/c", "x/a"));
    let sup = db.supertypes("x/a");
    assert_eq!(
        sup,
        vec![
            "x/a".to_string(),
            "x/b".to_string(),
            "x/c".to_string(),
            "application/octet-stream".to_string()
        ]
    );
}

#[test]
fn supertypes_in_discovery_order() {
    let db = seeded();
    assert_eq!(
        db.supertypes("application/json"),
        vec![
            "application/json".to_string(),
            "application/javascript".to_string(),
            "text/plain".to_string(),
            "application/octet-stream".to_string()
        ]
    );
    assert_eq!(
        db.supertypes("text/x-foo"),
        vec![
            "text/x-foo".to_string(),
            "text/plain".to_string(),
            "application/octet-stream".to_string()
        ]
    );
    assert_eq!(db.supertypes("inode/fifo"), vec!["inode/fifo".to_string()]);
}

#[test]
fn compare_orders_subtypes_first() {
    let db = seeded();
    assert_eq!(
        db.compare_types("application/json", "text/plain"),
        Ordering::Less
    );
    assert_eq!(
        db.compare_types("text/plain", "application/json"),
        Ordering::Greater
    );
    assert_eq!(db.compare_types("image/png", "text/plain"), Ordering::Equal);
}

#[test]
fn text_file_by_name() {
    let mut db = MimeDB::new();
    db.add_records(vec![record("text/plain", vec![glob("*.txt", 50)], &[])]);
    let answer = db.query_filename(b"foo.txt");
    assert_eq!(answer.best(), Some("text/plain"));
}

#[test]
fn png_image_by_name() {
    let mut db = MimeDB::new();
    db.add_records(vec![record("image/png", vec![glob("*.png", 50)], &[])]);
    let answer = db.query_filename(b"foo.png");
    assert_eq!(answer.best(), Some("image/png"));
    assert!(answer.is_definite());
}

#[test]
fn unknown_name_has_no_types() {
    let db = seeded();
    let answer = db.query_filename(b"foo.zzz");
    assert!(answer.is_unknown());
    assert!(!answer.is_definite());
    assert_eq!(answer.best(), None);
}

#[test]
fn higher_weight_wins() {
    let mut db = MimeDB::new();
    db.add_records(vec![
        record("text/x-low", vec![glob("*.foo", 40)], &[]),
        record("text/x-high", vec![glob("*.foo", 60)], &[]),
    ]);
    let answer = db.query_filename(b"a.foo");
    assert_eq!(answer.all_types(), &["text/x-high".to_string()]);
    assert_eq!(answer.best(), Some("text/x-high"));
}

#[test]
fn later_batch_wins_and_keeps_earlier_rule() {
    let mut db = MimeDB::new();
    db.add_records(vec![record("text/x-old", vec![glob("*.foo", 50)], &[])]);
    db.add_records(vec![record("text/x-new", vec![glob("*.foo", 50)], &[])]);
    assert_eq!(db.glob_count(), 2);
    assert_eq!(db.query_filename(b"a.foo").best(), Some("text/x-new"));
    db.add_records(vec![record("text/x-old", vec![glob("*.bar", 50)], &[])]);
    assert_eq!(db.glob_count(), 3);
    assert_eq!(db.query_filename(b"a.foo").best(), Some("text/x-new"));
}

#[test]
fn same_pattern_twice_keeps_both_rules() {
    let mut db = MimeDB::new();
    db.add_records(vec![record("text/x-a", vec![glob("*.foo", 50)], &[])]);
    db.add_records(vec![record("text/x-a", vec![glob("*.foo", 50)], &[])]);
    assert_eq!(db.glob_count(), 2);
    assert_eq!(db.type_count(), 1);
    let answer = db.query_filename(b"x.foo");
    assert_eq!(answer.all_types(), &["text/x-a".to_string()]);
    assert_eq!(answer.best(), Some("text/x-a"));
}

#[test]
fn related_matches_put_supertype_first() {
    let mut db = MimeDB::new();
    db.add_records(vec![
        record("application/json", vec![glob("*.json", 50)], &["application/javascript"]),
        record("application/javascript", vec![glob("*.json", 50)], &[]),
    ]);
    let answer = db.query_filename(b"foo.json");
    assert!(!answer.is_ambiguous());
    assert_eq!(answer.best(), Some("application/javascript"));
    assert_eq!(
        answer.all_types(),
        &[
            "application/javascript".to_string(),
            "application/json".to_string()
        ]
    );
}

#[test]
fn unrelated_matches_are_ambiguous() {
    let mut db = MimeDB::new();
    db.add_records(vec![
        record("image/x-a", vec![glob("*.dat", 50)], &[]),
        record("image/x-b", vec![glob("*.dat", 50)], &[]),
    ]);
    let answer = db.query_filename(b"foo.dat");
    assert!(answer.is_ambiguous());
    assert!(!answer.is_definite());
    assert!(!answer.is_unknown());
    assert_eq!(answer.best(), None);
    assert_eq!(answer.all_types().len(), 2);
}

#[test]
fn directory_metadata_decides() {
    let db = seeded();
    let query = FileQuery::builder()
        .filename(b"foo.txt")
        .metadata(FileMetadata {
            size: 4096,
            kind: FileKind::Directory,
        })
        .build();
    let answer = db.query(&query).unwrap();
    assert!(answer.is_definite());
    assert_eq!(answer.best(), Some("inode/directory"));
}

#[test]
fn other_special_files_by_metadata() {
    let db = seeded();
    let kinds = [
        (FileKind::Symlink, "inode/symlink"),
        (FileKind::BlockDevice, "inode/blockdevice"),
        (FileKind::CharDevice, "inode/chardevice"),
        (FileKind::Fifo, "inode/fifo"),
        (FileKind::Socket, "inode/socket"),
    ];
    for (kind, name) in kinds {
        let meta = FileMetadata { size: 0, kind };
        let query = FileQuery::builder().metadata(meta).build();
        assert_eq!(db.query(&query).unwrap().best(), Some(name));
        assert_eq!(db.query_meta(&meta).best(), Some(name));
    }
    let regular = FileMetadata {
        size: 3,
        kind: FileKind::Regular,
    };
    assert_eq!(
        db.query_meta(&regular).best(),
        Some("application/octet-stream")
    );
}

#[test]
fn empty_unknown_file_is_zero_size() {
    let db = seeded();
    let query = FileQuery::builder()
        .filename(b"foo.zzz")
        .metadata(FileMetadata {
            size: 0,
            kind: FileKind::Regular,
        })
        .build();
    let answer = db.query(&query).unwrap();
    assert!(answer.is_definite());
    assert_eq!(answer.best(), Some("application/x-zerosize"));
}

#[test]
fn empty_known_file_keeps_its_name_type() {
    let db = seeded();
    let query = FileQuery::builder()
        .filename(b"foo.txt")
        .metadata(FileMetadata {
            size: 0,
            kind: FileKind::Regular,
        })
        .build();
    assert_eq!(db.query(&query).unwrap().best(), Some("text/plain"));
}

#[test]
fn unknown_file_falls_back_to_binary() {
    let db = seeded();
    let by_name = FileQuery::for_filename(b"foo.zzz");
    assert_eq!(
        db.query(&by_name).unwrap().best(),
        Some("application/octet-stream")
    );
    let nothing = FileQuery::builder().build();
    let answer = db.query(&nothing).unwrap();
    assert!(answer.is_definite());
    assert_eq!(answer.best(), Some("application/octet-stream"));
}

#[test]
fn case_sensitive_globs() {
    let mut db = MimeDB::new();
    db.add_records(vec![record(
        "text/x-c",
        vec![GlobRule {
            pattern: "*.C".to_string(),
            weight: 50,
            case_sensitive: true,
        }],
        &[],
    )]);
    assert_eq!(db.query_filename(b"x.C").best(), Some("text/x-c"));
    assert!(db.query_filename(b"x.c").is_unknown());
    assert_eq!(db.match_filename(b"x.C").best(), Some("text/x-c"));
}

#[test]
fn same_pattern_in_one_batch_gives_both_types() {
    let mut db = MimeDB::new();
    db.add_records(vec![
        record("text/x-a", vec![glob("*.foo", 50)], &[]),
        record("text/x-a", vec![glob("*.foo", 50)], &[]),
    ]);
    let answer = db.query_filename(b"x.foo");
    assert_eq!(
        answer.all_types(),
        &["text/x-a".to_string(), "text/x-a".to_string()]
    );
    assert!(!answer.is_ambiguous());
}

#[test]
fn records_accumulate_type_info() {
    let mut db = MimeDB::new();
    db.add_records(vec![record("text/x-a", vec![], &["text/x-b"])]);
    db.add_records(vec![record("text/x-a", vec![], &["text/x-c"])]);
    assert_eq!(db.type_count(), 1);
    assert!(db.is_subtype("text/x-a", "text/x-b"));
    assert!(db.is_subtype("text/x-a", "text/x-c"));
}
