use std::path::{Path, PathBuf};

use sgraffito::canvas::{Doc, OutputAnnotations, Stroke, TextItem};
use sgraffito::store::{self, Source, Store};

const MS: u64 = 1_000_000;

fn sample() -> Doc {
    let mut doc = Doc::default();
    doc.insert("eDP-1", annotations());
    doc
}

fn annotations() -> OutputAnnotations {
    OutputAnnotations {
        strokes: vec![Stroke {
            color: "#e01b24".into(),
            width: 3 * 256,
            points: vec![[12 * 256, 40 * 256], [14 * 256, 44 * 256]],
        }],
        texts: vec![TextItem {
            x: 100 * 256,
            y: 200 * 256,
            color: "#ffffff".into(),
            size: 18 * 256,
            text: "买牛奶".into(), // CJK on purpose: multi-byte content must survive
        }],
    }
}

#[test]
fn path_follows_xdg_data_home() {
    assert_eq!(
        store::path_in(Some("/xdg"), Some("/home/u")).map(PathBuf::from),
        Some(Path::new("/xdg/sgraffito/annotations.json").to_path_buf())
    );
}

#[test]
fn path_falls_back_to_home_local_share() {
    assert_eq!(
        store::path_in(None, Some("/home/u")).map(PathBuf::from),
        Some(Path::new("/home/u/.local/share/sgraffito/annotations.json").to_path_buf())
    );
    assert_eq!(store::path_in(None, None), None);
}

#[test]
fn paths_are_joined_like_path_join() {
    for dir in ["/xdg", "/xdg/", "/", "x", "x/y", "./", "/a//"] {
        assert_eq!(
            store::path_in(Some(dir), None),
            Path::new(dir)
                .join("sgraffito/annotations.json")
                .to_str()
                .map(String::from)
        );
    }
    for home in ["", "/home/u", "/home/u/"] {
        assert_eq!(
            store::path_in(Some(""), Some(home)),
            Path::new(home)
                .join(".local/share")
                .join("sgraffito/annotations.json")
                .to_str()
                .map(String::from)
        );
    }
}

#[test]
fn missing_file_loads_empty_without_error() {
    let loaded = store::load(Source::Missing);
    assert!(loaded.doc.outputs.is_empty());
    assert_eq!(loaded.backup, None);
}

#[test]
fn an_unreadable_file_loads_empty_and_stays() {
    let loaded = store::load(Source::Unreadable);
    assert!(loaded.doc.outputs.is_empty());
    assert_eq!(loaded.backup, None);
}

#[test]
fn corrupt_file_is_backed_up_and_starts_empty() {
    let loaded = store::load(Source::Corrupt("key must be a string".into()));
    assert!(loaded.doc.outputs.is_empty());
    assert_eq!(loaded.backup.as_deref(), Some("key must be a string"));
}

#[test]
fn unsupported_version_is_backed_up() {
    let loaded = store::load(Source::File { version: 99, doc: sample() });
    assert!(loaded.doc.outputs.is_empty());
    assert_eq!(loaded.backup.as_deref(), Some("unsupported file version 99"));
    let oldest = store::load(Source::File { version: 0, doc: sample() });
    assert_eq!(oldest.backup.as_deref(), Some("unsupported file version 0"));
    let newest = store::load(Source::File { version: u32::MAX, doc: sample() });
    assert_eq!(
        newest.backup.as_deref(),
        Some("unsupported file version 4294967295")
    );
}

#[test]
fn a_file_of_this_version_gives_its_annotations() {
    let loaded = store::load(Source::File { version: store::VERSION, doc: sample() });
    assert_eq!(loaded.backup, None);
    assert_eq!(loaded.doc.outputs.len(), 1);
    assert_eq!(loaded.doc.get("eDP-1"), Some(&annotations()));
}

#[test]
fn debounce_holds_for_one_second() {
    let mut s = Store::new("annotations.json".into());
    let t0 = 5000 * MS;
    s.mark_dirty(t0);
    assert!(!s.due(t0));
    assert!(!s.due(t0 + 999 * MS));
    assert!(s.due(t0 + 1000 * MS));
}

#[test]
fn later_changes_do_not_put_the_write_off() {
    let mut s = Store::new("annotations.json".into());
    s.mark_dirty(0);
    s.mark_dirty(400 * MS);
    s.mark_dirty(999 * MS);
    assert!(!s.due(999 * MS));
    assert!(s.due(1000 * MS));
}

#[test]
fn flush_writes_and_clears_pending() {
    let mut s = Store::new("annotations.json".into());
    let t0 = 77 * MS;
    s.mark_dirty(t0);
    s.flush(Ok(()), t0).unwrap();
    assert!(!s.due(t0 + 10_000 * MS));
    // The next change starts over.
    s.mark_dirty(20_000 * MS);
    assert!(!s.due(20_999 * MS));
    assert!(s.due(21_000 * MS));
}

#[test]
fn failed_flush_stays_pending_for_retry() {
    let mut s = Store::new("not-a-directory/annotations.json".into());
    let t0 = 0;
    s.mark_dirty(t0);
    assert_eq!(
        s.flush(Err("not a directory".into()), 10 * MS),
        Err("not a directory".to_string())
    );
    assert!(!s.due(1009 * MS));
    assert!(s.due(1010 * MS));
    assert!(s.due(2010 * MS));
    assert_eq!(s.path, "not-a-directory/annotations.json");
}
