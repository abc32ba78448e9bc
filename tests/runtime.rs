use shared_mime::dirs::{is_package_file, join, mime_search_dirs, split_path};
use shared_mime::error::{load_error, query_error};
use shared_mime::record::MimeTypeRecord;
use shared_mime::runtime::{
    CommentElement, GlobElement, MimeInfoPackage, MimeType, MimeTypeElement, SMIDir, SMIPackage,
    SharedMimeInfo, TypeRefElement,
};
use shared_mime::strcache::StringCache;
use shared_mime::{load_mime_db, Answer, LoadError, MimeDB, QueryError};

fn comment(lang: Option<&str>, value: &str) -> MimeTypeElement {
    MimeTypeElement::Comment(CommentElement {
        lang: lang.map(|l| l.to_string()),
        value: value.to_string(),
    })
}

fn type_ref(name: &str) -> TypeRefElement {
    TypeRefElement {
        mimetype: name.to_string(),
    }
}

fn sample_type() -> MimeType {
    MimeType {
        name: "text/x-sample".to_string(),
        elements: vec![
            comment(Some("de"), "Beispiel"),
            MimeTypeElement::Glob(GlobElement {
                pattern: "*.smp".to_string(),
                weight: None,
                case_sensitive: false,
            }),
            comment(Some("en"), "Sample"),
            comment(None, "Other"),
            MimeTypeElement::SubClassOf(type_ref("text/plain")),
            MimeTypeElement::Alias(type_ref("text/sample")),
            MimeTypeElement::GenericIcon,
            MimeTypeElement::Glob(GlobElement {
                pattern: "*.SMP".to_string(),
                weight: Some(80),
                case_sensitive: true,
            }),
        ],
    }
}

#[test]
fn definition_becomes_record() {
    let rec = sample_type().to_record();
    assert_eq!(rec.name, "text/x-sample");
    assert_eq!(rec.description, Some("Sample".to_string()));
    assert_eq!(rec.globs.len(), 2);
    assert_eq!(rec.globs[0].pattern, "*.smp");
    assert_eq!(rec.globs[0].weight, 50);
    assert!(!rec.globs[0].case_sensitive);
    assert_eq!(rec.globs[1].weight, 80);
    assert!(rec.globs[1].case_sensitive);
    assert_eq!(rec.superclasses, vec!["text/plain".to_string()]);
    assert_eq!(rec.aliases, vec!["text/sample".to_string()]);
}

#[test]
fn unlocalized_comment_is_a_description() {
    let mime = MimeType {
        name: "a/b".to_string(),
        elements: vec![comment(Some("fr"), "Exemple"), comment(None, "Example")],
    };
    assert_eq!(mime.to_record().description, Some("Example".to_string()));
    let none = MimeType {
        name: "a/b".to_string(),
        elements: vec![comment(Some("fr"), "Exemple")],
    };
    assert_eq!(none.to_record().description, None);
}

#[test]
fn package_into_records() {
    let pkg = MimeInfoPackage {
        types: vec![sample_type(), MimeType {
            name: "a/b".to_string(),
            elements: vec![],
        }],
    };
    let recs = pkg.into_records();
    assert_eq!(recs.len(), 2);
    assert_eq!(recs[0].name, "text/x-sample");
    assert_eq!(recs[1].name, "a/b");
    assert!(recs[1].globs.is_empty());
}

fn package(name: &str, types: Vec<MimeTypeRecord>) -> SMIPackage {
    SMIPackage {
        filename: name.to_string(),
        types,
    }
}

fn shared_info() -> SharedMimeInfo {
    let early = sample_type().to_record();
    let mut late = sample_type().to_record();
    late.name = "text/x-late".to_string();
    SharedMimeInfo {
        directories: vec![
            SMIDir {
                path: "/usr/share/mime".to_string(),
                packages: vec![package("a.xml", vec![early])],
            },
            SMIDir {
                path: "/home/u/.local/share/mime".to_string(),
                packages: vec![package("b.xml", vec![late])],
            },
        ],
    }
}

#[test]
fn shared_info_ingests_each_package() {
    let mut db = MimeDB::new();
    db.add_shared_mime_info(shared_info());
    assert_eq!(db.type_count(), 2);
    assert_eq!(db.glob_count(), 4);
    assert_eq!(db.query_filename(b"x.smp").best(), Some("text/x-late"));
    assert!(db.is_subtype("text/x-sample", "text/plain"));
}

#[test]
fn load_without_data_is_unavailable() {
    assert!(matches!(load_mime_db(None), Err(LoadError::Unavailable)));
}

#[test]
fn load_with_data() {
    let db = load_mime_db(Some(shared_info())).unwrap();
    assert_eq!(db.type_count(), 2);
    assert_eq!(db.query_filename(b"y.SMP").best(), Some("text/x-late"));
}

#[test]
fn error_constructors() {
    match load_error("bad") {
        LoadError::Generic(m) => assert_eq!(m, "bad"),
        other => panic!("unexpected {:?}", other),
    }
    match query_error("worse") {
        QueryError::Generic(m) => assert_eq!(m, "worse"),
        other => panic!("unexpected {:?}", other),
    }
}

#[test]
fn search_dirs_defaults() {
    let dirs = mime_search_dirs(None, None, Some("/home/u"));
    assert_eq!(
        dirs,
        vec![
            "/usr/share/mime".to_string(),
            "/usr/local/share/mime".to_string(),
            "/home/u/.local/share/mime".to_string()
        ]
    );
    assert_eq!(mime_search_dirs(None, None, None).len(), 2);
}

#[test]
fn search_dirs_from_variables() {
    let dirs = mime_search_dirs(Some("/opt/share:/srv/data/"), Some("/home/u/data"), Some("/home/u"));
    assert_eq!(
        dirs,
        vec![
            "/opt/share/mime".to_string(),
            "/srv/data/mime".to_string(),
            "/home/u/data".to_string()
        ]
    );
}

#[test]
fn path_pieces() {
    assert_eq!(split_path("a::b"), vec!["a".to_string(), String::new(), "b".to_string()]);
    assert_eq!(split_path(""), vec![String::new()]);
    assert_eq!(join(String::new(), "mime"), "mime");
    assert_eq!(join("/x/".to_string(), "mime"), "/x/mime");
    assert_eq!(join("/x".to_string(), "mime"), "/x/mime");
}

#[test]
fn package_file_names() {
    assert!(is_package_file(b"freedesktop.org.xml"));
    assert!(!is_package_file(b".hidden.xml"));
    assert!(!is_package_file(b"notes.txt"));
    assert!(!is_package_file(b".xml"));
    assert!(!is_package_file(b"xml"));
}

#[test]
fn cache_shares_equal_strings() {
    let mut cache = StringCache::new();
    let a = cache.cache("text/plain");
    let b = cache.cache("text/plain");
    let c = cache.cache("image/png");
    assert_eq!(a.as_str(), "text/plain");
    assert_eq!(b.as_str(), "text/plain");
    assert_eq!(c.as_str(), "image/png");
    assert_eq!(a.share().as_str(), "text/plain");
}

#[test]
fn answer_accessors() {
    let definite = Answer::definite("text/plain");
    assert!(definite.is_definite());
    assert!(!definite.is_unknown());
    assert!(!definite.is_ambiguous());
    assert_eq!(definite.best(), Some("text/plain"));
    let unknown = Answer::unknown();
    assert!(unknown.is_unknown());
    assert!(!unknown.is_definite());
    assert_eq!(unknown.best(), None);
    let ambiguous = Answer::new(vec!["a/b".to_string(), "c/d".to_string()], true);
    assert!(ambiguous.is_ambiguous());
    assert_eq!(ambiguous.best(), None);
    assert_eq!(ambiguous.all_types().len(), 2);
}
