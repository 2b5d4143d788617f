use std::io::{Cursor, Write};

use zip::write::SimpleFileOptions;
use zip::{CompressionMethod, ZipWriter};

use zipr::apply::{
    backup_next, backup_suffix, backup_suffix_now, patch_apply_step, patch_entry_expr, patch_entry_source, BackupAttempt, BackupNext,
    BackupStamp, PatchProgress, SourceFile,
};
use zipr::archive::{get, list_recursive, ListedEntry};
use zipr::config::Config;
use zipr::error::ZiprError;
use zipr::patch_spec::{Action, CommentPolicy, LevelName, LevelPolicy, MethodPolicy, MtimePolicy, PatchEntry};
use zipr::path_expr::parse_zip_expr;
use zipr::report::{apply_line, listing_lines};

fn stored(entries: &[(&str, &[u8])]) -> Vec<u8> {
    let mut w = ZipWriter::new(Cursor::new(Vec::new()));
    for (name, data) in entries {
        w.start_file(*name, SimpleFileOptions::default().compression_method(CompressionMethod::Stored)).expect("start");
        w.write_all(data).expect("write");
    }
    w.finish().expect("finish").into_inner()
}

fn entry(target: &str, source: Option<&str>, action: Action) -> PatchEntry {
    PatchEntry {
        target: target.to_string(),
        source: source.map(|s| s.to_string()),
        action,
        method: MethodPolicy::Inherit,
        level: LevelPolicy::Name(LevelName::Inherit),
        mtime: MtimePolicy::Source,
        comment: CommentPolicy::Inherit,
    }
}

fn progress(bytes: Vec<u8>) -> PatchProgress {
    PatchProgress { current: bytes, replaced: 0, deleted: 0 }
}

#[test]
fn entry_expression_uses_the_archive_given() {
    let e = entry("old/place.zip!/inner.jar!/a.txt", Some("a"), Action::Replace);
    let expr = patch_entry_expr("work/app.zip", &e).expect("expr");
    assert_eq!(expr.root_archive, "work/app.zip");
    assert_eq!(expr.segments, vec!["inner.jar".to_string(), "a.txt".to_string()]);
    let bare = entry("a.txt", None, Action::Delete);
    assert_eq!(patch_entry_expr("app.zip", &bare).expect("expr").segments, vec!["a.txt".to_string()]);
    let bad = entry("x.zip!/", None, Action::Delete);
    assert!(matches!(patch_entry_expr("app.zip", &bad).unwrap_err(), ZiprError::EmptySegment));
}

#[test]
fn entry_source_is_asked_for_replaces_only() {
    assert_eq!(patch_entry_source("app.zip", &entry("a.zip!/x", Some("s/x"), Action::Replace)).expect("src"), Some("s/x".to_string()));
    assert_eq!(patch_entry_source("app.zip", &entry("a.zip!/x", Some("s/x"), Action::Delete)).expect("src"), None);
    let err = patch_entry_source("app.zip", &entry("a.zip!/x", None, Action::Replace)).unwrap_err();
    assert!(matches!(&err, ZiprError::ReplaceSourceMissing(t) if t == "a.zip!/x"));
    assert_eq!(err.message(), "replace entry missing source: a.zip!/x");
    assert!(matches!(patch_entry_source("", &entry("a.zip!/x", None, Action::Replace)).unwrap_err(), ZiprError::EmptyRootArchive));
}

#[test]
fn steps_apply_replaces_and_deletes_in_order() {
    let inner = stored(&[("a.txt", b"inner")]);
    let archive = stored(&[("top.txt", b"t"), ("inner.jar", &inner)]);
    let cfg = Config::default();
    let r = entry("x.zip!/inner.jar!/a.txt", Some("p/a.txt"), Action::Replace);
    let p = patch_apply_step(progress(archive), "app.zip", &r, Some(SourceFile { bytes: b"patched".to_vec(), mtime: None }), &cfg)
        .expect("replace");
    assert_eq!((p.replaced, p.deleted), (1, 0));
    let d = entry("x.zip!/top.txt", None, Action::Delete);
    let p = patch_apply_step(p, "app.zip", &d, None, &cfg).expect("delete");
    assert_eq!((p.replaced, p.deleted), (1, 1));
    let expr = parse_zip_expr("app.zip!/inner.jar!/a.txt").expect("parse");
    assert_eq!(get(&expr, p.current.clone(), &cfg).expect("get"), b"patched");
    let names: Vec<String> = list_recursive(p.current, "app.zip", &cfg).expect("list").into_iter().map(|e| e.expr).collect();
    assert_eq!(names, vec!["app.zip!/inner.jar".to_string(), "app.zip!/inner.jar!/a.txt".to_string()]);
    assert_eq!(apply_line(false, 1, 1), "patch applied: replaced=1, deleted=1");
    assert_eq!(apply_line(true, 0, 2), "patch dry-run: replaced=0, deleted=2");
}

#[test]
fn steps_report_missing_targets() {
    let archive = stored(&[("a.txt", b"a")]);
    let cfg = Config::default();
    let d = entry("x.zip!/nope.txt", None, Action::Delete);
    let err = patch_apply_step(progress(archive.clone()), "app.zip", &d, None, &cfg).unwrap_err();
    assert!(matches!(&err, ZiprError::DeleteTargetNotFound(t) if t == "x.zip!/nope.txt"));
    assert_eq!(err.message(), "target not found during delete: x.zip!/nope.txt");
    let r = entry("x.zip!/nope.txt", Some("s"), Action::Replace);
    let file = SourceFile { bytes: vec![1], mtime: Some(1_700_000_000) };
    let err = patch_apply_step(progress(archive.clone()), "app.zip", &r, Some(file), &cfg).unwrap_err();
    assert!(matches!(&err, ZiprError::ReplaceTargetNotFound(t) if t == "x.zip!/nope.txt"));
    let err = patch_apply_step(progress(archive), "app.zip", &r, None, &cfg).unwrap_err();
    assert!(matches!(err, ZiprError::ReplaceSourceMissing(_)));
}

#[test]
fn backup_suffix_stamps_and_counts_attempts() {
    let stamp = BackupStamp { year: 2024, month: 3, day: 9, hour: 7, minute: 5, second: 2, nanosecond: 1234 };
    assert_eq!(backup_suffix(&stamp, 0), ".bak-20240309T070502.000001234Z");
    assert_eq!(backup_suffix(&stamp, 12), ".bak-20240309T070502.000001234Z-12");
    let early = BackupStamp { year: -5, ..stamp };
    assert_eq!(backup_suffix(&early, 0), ".bak--0050309T070502.000001234Z");
}

#[test]
fn listing_lines_align_sizes() {
    let items = vec![ListedEntry { expr: "a.zip!/x".to_string(), size: 12345, compressed_size: 99, is_archive: false }];
    let lines = listing_lines(&items);
    assert_eq!(lines[0], format!("{:>12} {:>12}  Name", "Length", "Compressed"));
    assert_eq!(lines[1], format!("{:>12} {:>12}  {}", 12345, 99, "a.zip!/x"));
}

#[test]
fn backup_suffix_now_is_stamped() {
    let s = backup_suffix_now(3);
    assert!(s.starts_with(".bak-"), "{s}");
    assert!(s.ends_with("Z-3"), "{s}");
    assert_eq!(s.len(), ".bak-".len() + "20240309T070502.000001234Z".len() + 2);
}

#[test]
fn backup_attempts_retry_until_the_last_candidate() {
    assert_eq!(backup_next(0, BackupAttempt::Created), BackupNext::Write);
    assert_eq!(backup_next(0, BackupAttempt::AlreadyExists), BackupNext::Retry(1));
    assert_eq!(backup_next(998, BackupAttempt::AlreadyExists), BackupNext::Retry(999));
    assert_eq!(backup_next(999, BackupAttempt::AlreadyExists), BackupNext::GiveUp);
    assert_eq!(backup_next(5, BackupAttempt::Failed), BackupNext::Fail);
}
