use std::io::{Cursor, Write};

use zip::write::SimpleFileOptions;
use zip::{CompressionMethod, DateTime, ZipWriter};

use zipr::config::Config;
use zipr::diff::{diff_recursive, diff_snapshots, snapshot, DiffKind, EntrySnapshot, SnapshotItem};
use zipr::report::diff_report_lines;
use zipr::zipio::DosTime;

fn zip_with(entries: Vec<(&str, Vec<u8>, SimpleFileOptions)>) -> Vec<u8> {
    let mut w = ZipWriter::new(Cursor::new(Vec::new()));
    for (name, data, opts) in entries {
        w.start_file(name, opts).expect("start");
        w.write_all(&data).expect("write");
    }
    w.finish().expect("finish").into_inner()
}

fn with(method: CompressionMethod) -> SimpleFileOptions {
    SimpleFileOptions::default()
        .compression_method(method)
        .last_modified_time(DateTime::from_date_and_time(2020, 1, 2, 3, 4, 6).expect("time"))
}

fn snap(size: u64, crc32: u32) -> EntrySnapshot {
    EntrySnapshot {
        size,
        compressed_size: size,
        crc32,
        method: 0,
        mtime: None,
        unix_mode: Some(0o644),
        comment: String::new(),
    }
}

fn item(path: &str, s: EntrySnapshot) -> SnapshotItem {
    SnapshotItem { path: path.to_string(), snap: s }
}

#[test]
fn diff_shows_added_removed_modified_and_metadata() {
    let nested_left = zip_with(vec![
        ("same.txt", b"old-content".to_vec(), with(CompressionMethod::Deflated)),
        ("old-only.txt", b"left".to_vec(), with(CompressionMethod::Deflated)),
    ]);
    let nested_right = zip_with(vec![
        ("same.txt", b"new-content".to_vec(), with(CompressionMethod::Deflated)),
        ("new-only.txt", b"right".to_vec(), with(CompressionMethod::Deflated)),
    ]);
    let left = zip_with(vec![
        ("meta.txt", b"same".to_vec(), with(CompressionMethod::Deflated)),
        ("nested.jar", nested_left, with(CompressionMethod::Stored)),
    ]);
    let right = zip_with(vec![
        ("meta.txt", b"same".to_vec(), with(CompressionMethod::Stored)),
        ("nested.jar", nested_right, with(CompressionMethod::Stored)),
    ]);

    let items = diff_recursive(left, right, &Config::default()).expect("diff");
    let stdout = diff_report_lines(&items).join("\n");
    assert!(stdout.contains("M meta.txt"));
    assert!(stdout.contains("meta: method: Deflated -> Stored"));
    assert!(stdout.contains("M nested.jar!/same.txt"));
    assert!(stdout.contains("A nested.jar!/new-only.txt"));
    assert!(stdout.contains("D nested.jar!/old-only.txt"));
}

#[test]
fn diff_of_an_archive_with_itself_is_empty() {
    let a = zip_with(vec![("x.txt", b"x".to_vec(), with(CompressionMethod::Deflated))]);
    let items = diff_recursive(a.clone(), a, &Config::default()).expect("diff");
    assert!(items.is_empty());
    assert_eq!(diff_report_lines(&items), vec!["No differences.".to_string()]);
}

#[test]
fn diff_is_sorted_by_path() {
    let l = vec![item("b", snap(1, 1)), item("a", snap(1, 1)), item("c", snap(1, 1))];
    let r = vec![item("c", snap(2, 1)), item("a", snap(1, 2)), item("d", snap(1, 1))];
    let d = diff_snapshots(&l, &r);
    let paths: Vec<&str> = d.iter().map(|e| e.path.as_str()).collect();
    assert_eq!(paths, vec!["a", "b", "c", "d"]);
    assert_eq!(d[0].kind, DiffKind::Modified);
    assert!(d[0].content_changed);
    assert_eq!(d[1].kind, DiffKind::Removed);
    assert_eq!(d[2].kind, DiffKind::Modified);
    assert_eq!(d[3].kind, DiffKind::Added);
    assert!(d[3].metadata_changes.is_empty());
}

#[test]
fn diff_uses_the_last_snapshot_of_a_path() {
    let l = vec![item("a", snap(1, 1)), item("a", snap(5, 5))];
    let r = vec![item("a", snap(5, 5))];
    assert!(diff_snapshots(&l, &r).is_empty());
}

#[test]
fn diff_reports_each_metadata_change() {
    let mut a = snap(1, 1);
    let mut b = snap(1, 1);
    a.method = 8;
    b.method = 0;
    a.compressed_size = 10;
    b.compressed_size = 12;
    a.unix_mode = Some(0o755);
    b.unix_mode = None;
    a.mtime = Some(DosTime { date: (40 << 9) | (3 << 5) | 7, time: (13 << 11) | (5 << 5) | 21 });
    b.mtime = None;
    a.comment = "old \"c\"".to_string();
    b.comment = "new".to_string();
    let d = diff_snapshots(&[item("p", a)], &[item("p", b)]);
    assert_eq!(d.len(), 1);
    assert!(!d[0].content_changed);
    assert_eq!(
        d[0].metadata_changes,
        vec![
            "method: Deflated -> Stored".to_string(),
            "compressed_size: 10 -> 12".to_string(),
            "unix_mode: 0o755 -> none".to_string(),
            "mtime: 2020-03-07 13:05:42 -> none".to_string(),
            "comment: \"old \\\"c\\\"\" -> \"new\"".to_string(),
        ]
    );
    let lines = diff_report_lines(&d);
    assert_eq!(
        lines,
        vec![
            "M p".to_string(),
            "  meta: method: Deflated -> Stored".to_string(),
            "  meta: compressed_size: 10 -> 12".to_string(),
            "  meta: unix_mode: 0o755 -> none".to_string(),
            "  meta: mtime: 2020-03-07 13:05:42 -> none".to_string(),
            "  meta: comment: \"old \\\"c\\\"\" -> \"new\"".to_string(),
            "Summary: added=0, removed=0, modified=1".to_string(),
        ]
    );
}

#[test]
fn diff_report_counts_kinds() {
    let l = vec![item("gone", snap(1, 1)), item("x", snap(1, 1))];
    let r = vec![item("new", snap(1, 1)), item("x", snap(2, 1))];
    let lines = diff_report_lines(&diff_snapshots(&l, &r));
    assert_eq!(
        lines,
        vec![
            "D gone".to_string(),
            "A new".to_string(),
            "M x".to_string(),
            "  content: changed".to_string(),
            "  meta: compressed_size: 1 -> 2".to_string(),
            "Summary: added=1, removed=1, modified=1".to_string(),
        ]
    );
}

#[test]
fn method_labels_follow_the_zip_crate() {
    let mut a = snap(1, 1);
    let mut b = snap(1, 1);
    a.method = 0;
    b.method = 14;
    let d = diff_snapshots(&[item("p", a)], &[item("p", b)]);
    assert_eq!(d[0].metadata_changes, vec!["method: Stored -> Unsupported(14)".to_string()]);
}

#[test]
fn snapshot_records_nested_paths_relative_to_the_root() {
    let inner = zip_with(vec![("a.txt", b"abc".to_vec(), with(CompressionMethod::Stored))]);
    let outer = zip_with(vec![("lib/in.jar", inner, with(CompressionMethod::Stored))]);
    let s = snapshot(outer, &Config::default()).expect("snapshot");
    let paths: Vec<&str> = s.iter().map(|i| i.path.as_str()).collect();
    assert_eq!(paths, vec!["lib/in.jar", "lib/in.jar!/a.txt"]);
    assert_eq!(s[1].snap.size, 3);
    assert_eq!(s[1].snap.method, 0);
    assert_eq!(s[1].snap.mtime, Some(DosTime { date: (40 << 9) | (1 << 5) | 2, time: (3 << 11) | (4 << 5) | 3 }));
}

#[test]
fn added_one_way_is_removed_the_other_way() {
    let l = vec![item("only-left", snap(1, 1))];
    let r = vec![item("only-right", snap(1, 1))];
    let forward = diff_snapshots(&l, &r);
    let backward = diff_snapshots(&r, &l);
    assert_eq!(forward.len(), 2);
    assert_eq!((forward[0].path.as_str(), forward[0].kind), ("only-left", DiffKind::Removed));
    assert_eq!((forward[1].path.as_str(), forward[1].kind), ("only-right", DiffKind::Added));
    assert_eq!((backward[0].path.as_str(), backward[0].kind), ("only-left", DiffKind::Added));
    assert_eq!((backward[1].path.as_str(), backward[1].kind), ("only-right", DiffKind::Removed));
    let again = diff_snapshots(&l, &r);
    assert_eq!(again.len(), forward.len());
}

#[test]
fn diff_the_other_way_round_mirrors_the_report() {
    let left = zip_with(vec![
        ("same.txt", b"old".to_vec(), with(CompressionMethod::Deflated)),
        ("gone.txt", b"x".to_vec(), with(CompressionMethod::Deflated)),
    ]);
    let right = zip_with(vec![
        ("same.txt", b"newer".to_vec(), with(CompressionMethod::Stored)),
        ("fresh.txt", b"y".to_vec(), with(CompressionMethod::Deflated)),
    ]);
    let there = diff_recursive(left.clone(), right.clone(), &Config::default()).expect("diff");
    let back = diff_recursive(right, left, &Config::default()).expect("diff");
    assert_eq!(there.len(), back.len());
    for (a, b) in there.iter().zip(back.iter()) {
        assert_eq!(a.path, b.path);
        let mirrored = match a.kind {
            DiffKind::Added => DiffKind::Removed,
            DiffKind::Removed => DiffKind::Added,
            DiffKind::Modified => DiffKind::Modified,
        };
        assert_eq!(b.kind, mirrored);
        assert_eq!(a.content_changed, b.content_changed);
        assert_eq!(a.metadata_changes.len(), b.metadata_changes.len());
    }
}
