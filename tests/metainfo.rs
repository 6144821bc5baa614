use spate::metainfo::text_of;
use spate::{MetaInfo, MetaInfoError, MetaInfoFileMode, MetaInfoFiles, Value};

fn b(s: &str) -> Value {
    Value::Bytes(s.as_bytes().to_vec())
}

fn entry(k: &str, v: Value) -> (Vec<u8>, Value) {
    (k.as_bytes().to_vec(), v)
}

fn single_file_info() -> Value {
    Value::Dict(vec![
        entry("length", Value::Integer(100)),
        entry("name", b("a.txt")),
        entry("piece length", Value::Integer(16384)),
        entry("pieces", Value::Bytes(vec![7; 20])),
    ])
}

fn file(length: i64, path: &[&str]) -> Value {
    Value::Dict(vec![
        entry("length", Value::Integer(length)),
        entry("path", Value::List(path.iter().map(|p| b(p)).collect())),
    ])
}

fn multi_file_info() -> Value {
    Value::Dict(vec![
        entry("files", Value::List(vec![file(2, &["dir", "x"]), file(2, &["y"])])),
        entry("name", b("root")),
        entry("piece length", Value::Integer(32768)),
        entry("pieces", Value::Bytes(vec![1; 40])),
        entry("private", Value::Integer(1)),
    ])
}

#[test]
fn it_works() {
    let torrent = Value::Dict(vec![entry("announce", b("http://t/")), entry("info", multi_file_info())]);
    let meta = MetaInfo::try_from(&Value::decode(&torrent.encode()).unwrap()).unwrap();
    let result: usize = match meta.info.files {
        MetaInfoFileMode::MultiFile(m) => m.files.iter().map(|f| f.length).sum(),
        MetaInfoFileMode::SingleFile(_) => 0,
    };
    assert_eq!(result, 4);
}

#[test]
fn reads_single_file_torrent() {
    let torrent = Value::Dict(vec![
        entry("announce", b("http://tracker.example/announce")),
        entry("comment", b("hello")),
        entry("creation date", Value::Integer(1700000000)),
        entry("info", single_file_info()),
    ]);
    let bytes = torrent.encode();
    let decoded = Value::decode(&bytes).unwrap();
    let meta = MetaInfo::try_from(&decoded).unwrap();
    assert_eq!(meta.announce, "http://tracker.example/announce");
    assert_eq!(meta.comment.as_deref(), Some("hello"));
    assert_eq!(meta.creation_date, Some(1700000000));
    assert_eq!(meta.created_by, None);
    assert_eq!(meta.encoding, None);
    assert!(meta.announce_list.is_none());
    assert_eq!(meta.info.piece_length, 16384);
    assert_eq!(meta.info.pieces, vec![7; 20]);
    assert!(!meta.info.private);
    match meta.info.files {
        MetaInfoFileMode::SingleFile(f) => {
            assert_eq!(f.file_name, "a.txt");
            assert_eq!(f.length, 100);
            assert_eq!(f.md5sum, None);
        }
        MetaInfoFileMode::MultiFile(_) => panic!("expected a single file"),
    }
}

#[test]
fn reads_multi_file_torrent_with_tiers() {
    let torrent = Value::Dict(vec![
        entry("announce", b("http://a/")),
        entry(
            "announce-list",
            Value::List(vec![Value::List(vec![b("http://a/"), b("http://b/")]), Value::List(vec![b("udp://c/")])]),
        ),
        entry("info", multi_file_info()),
    ]);
    let meta = MetaInfo::try_from(&torrent).unwrap();
    assert_eq!(
        meta.announce_list,
        Some(vec![vec!["http://a/".to_string(), "http://b/".to_string()], vec!["udp://c/".to_string()]])
    );
    assert!(meta.info.private);
    match meta.info.files {
        MetaInfoFileMode::MultiFile(m) => {
            assert_eq!(m.directory_name, "root");
            assert_eq!(m.files.len(), 2);
            assert_eq!(m.files[0].path, vec!["dir".to_string(), "x".to_string()]);
            assert_eq!(m.files[1].length, 2);
        }
        MetaInfoFileMode::SingleFile(_) => panic!("expected several files"),
    }
}

#[test]
fn metainfo_errors() {
    assert_eq!(MetaInfo::try_from(&Value::Integer(1)).err(), Some(MetaInfoError::NotADict));
    let no_announce = Value::Dict(vec![entry("info", single_file_info())]);
    assert_eq!(MetaInfo::try_from(&no_announce).err(), Some(MetaInfoError::MissingKey));
    let no_info = Value::Dict(vec![entry("announce", b("x"))]);
    assert_eq!(MetaInfo::try_from(&no_info).err(), Some(MetaInfoError::MissingKey));
    let int_announce = Value::Dict(vec![entry("announce", Value::Integer(3)), entry("info", single_file_info())]);
    assert_eq!(MetaInfo::try_from(&int_announce).err(), Some(MetaInfoError::WrongKind));
    let bad_text = Value::Dict(vec![
        entry("announce", Value::Bytes(vec![0xff, 0xfe])),
        entry("info", single_file_info()),
    ]);
    assert_eq!(MetaInfo::try_from(&bad_text).err(), Some(MetaInfoError::NotText));
    let bad_date = Value::Dict(vec![
        entry("announce", b("x")),
        entry("creation date", Value::Integer(-1)),
        entry("info", single_file_info()),
    ]);
    assert_eq!(MetaInfo::try_from(&bad_date).err(), Some(MetaInfoError::OutOfRange));
}

#[test]
fn info_errors() {
    let no_length = Value::Dict(vec![
        entry("name", b("a")),
        entry("piece length", Value::Integer(1)),
        entry("pieces", Value::Bytes(vec![])),
    ]);
    assert_eq!(MetaInfoFiles::try_from(&no_length).err(), Some(MetaInfoError::MissingKey));
    let text_pieces = Value::Dict(vec![
        entry("length", Value::Integer(1)),
        entry("name", b("a")),
        entry("piece length", Value::Integer(1)),
        entry("pieces", Value::Integer(0)),
    ]);
    assert_eq!(MetaInfoFiles::try_from(&text_pieces).err(), Some(MetaInfoError::WrongKind));
    let bad_file = Value::Dict(vec![
        entry("files", Value::List(vec![file(1, &["a"]), Value::Integer(0)])),
        entry("name", b("a")),
        entry("piece length", Value::Integer(1)),
        entry("pieces", Value::Bytes(vec![])),
    ]);
    assert_eq!(MetaInfoFiles::try_from(&bad_file).err(), Some(MetaInfoError::NotADict));
}

#[test]
fn text_of_reads_utf8() {
    assert_eq!(text_of(&b("h\u{e9}llo")), Ok("h\u{e9}llo".to_string()));
    assert_eq!(text_of(&Value::Bytes(vec![0xc3])), Err(MetaInfoError::NotText));
    assert_eq!(text_of(&Value::List(vec![])), Err(MetaInfoError::WrongKind));
}

#[test]
fn find_entry_looks_up_keys() {
    let d = vec![entry("a", Value::Integer(1)), entry("b", Value::Integer(2))];
    assert_eq!(spate::metainfo::find_entry(&d, b"b"), Some(&Value::Integer(2)));
    assert_eq!(spate::metainfo::find_entry(&d, b"c"), None);
}
