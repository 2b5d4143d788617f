use std::io::{Cursor, Read, Write};

use zip::write::SimpleFileOptions;
use zip::{CompressionMethod, DateTime, ZipArchive, ZipWriter};

use zipr::archive::{
    delete, get, list_recursive, list_segment, list_top_level, mutate_archive_bytes, read_from_bytes, replace,
    replace_at_times, Mutation, ReplaceOptions,
};
use zipr::config::Config;
use zipr::error::ZiprError;
use zipr::patch_spec::{LevelName, LevelPolicy, MethodPolicy, MtimePolicy};
use zipr::path_expr::parse_zip_expr;
use zipr::zipio::DosTime;

fn zip_bytes(entries: &[(&str, &[u8], CompressionMethod)]) -> Vec<u8> {
    let mut w = ZipWriter::new(Cursor::new(Vec::new()));
    for (name, data, method) in entries {
        w.start_file(*name, SimpleFileOptions::default().compression_method(*method)).expect("start");
        w.write_all(data).expect("write");
    }
    w.finish().expect("finish").into_inner()
}

fn stored(entries: &[(&str, &[u8])]) -> Vec<u8> {
    let v: Vec<(&str, &[u8], CompressionMethod)> =
        entries.iter().map(|(n, d)| (*n, *d, CompressionMethod::Stored)).collect();
    zip_bytes(&v)
}

fn nested_outer() -> Vec<u8> {
    let inner = zip_bytes(&[("a.txt", b"inner-content", CompressionMethod::Deflated)]);
    zip_bytes(&[
        ("top.txt", b"top-content", CompressionMethod::Deflated),
        ("inner.jar", &inner, CompressionMethod::Stored),
    ])
}

fn meta(bytes: &[u8], name: &str) -> (CompressionMethod, u64, Option<DateTime>) {
    let mut a = ZipArchive::new(Cursor::new(bytes.to_vec())).expect("open");
    let f = a.by_name(name).expect("entry");
    (f.compression(), f.compressed_size(), f.last_modified())
}

fn read_nested(bytes: &[u8], outer: &str, name: &str) -> Vec<u8> {
    let mut a = ZipArchive::new(Cursor::new(bytes.to_vec())).expect("open");
    let mut f = a.by_name(outer).expect("outer");
    let mut inner = Vec::new();
    f.read_to_end(&mut inner).expect("read");
    read_from_bytes(inner, name).expect("nested entry")
}

#[test]
fn list_top_level_does_not_recurse_into_nested_archives() {
    let nested = stored(&[("com/Foo.class", b"foo"), ("com/Bar.class", b"bar")]);
    let archive = stored(&[("top.txt", b"hello"), ("BOOT-INF/lib/inner.jar", &nested)]);

    let items = list_top_level(archive, "/tmp/outer.war", &Config::default()).expect("list");

    let exprs: Vec<&str> = items.iter().map(|e| e.expr.as_str()).collect();
    assert!(exprs.iter().any(|e| e.ends_with("!/top.txt")));
    assert!(exprs.iter().any(|e| e.ends_with("!/BOOT-INF/lib/inner.jar")));
    assert!(
        !exprs.iter().any(|e| e.contains("Foo.class") || e.contains("Bar.class")),
        "nested entries must not be returned by list_top_level: {exprs:?}"
    );

    let inner = items.iter().find(|e| e.expr.ends_with("/inner.jar")).expect("inner.jar entry present");
    assert!(inner.is_archive, "inner.jar should be flagged is_archive");

    let top = items.iter().find(|e| e.expr.ends_with("/top.txt")).expect("top.txt present");
    assert!(!top.is_archive);
}

#[test]
fn list_segment_returns_children_of_a_nested_archive() {
    let nested = stored(&[("com/Foo.class", b"foo"), ("com/Bar.class", b"bar")]);
    let archive = stored(&[("BOOT-INF/lib/inner.jar", &nested)]);

    let segment_expr = format!("{}!/BOOT-INF/lib/inner.jar", "/tmp/outer.war");
    let parsed = parse_zip_expr(&segment_expr).expect("parse");
    let items = list_segment(&parsed, archive, &Config::default()).expect("list");

    let names: Vec<&str> = items.iter().map(|e| e.expr.as_str()).collect();
    assert!(
        names.iter().any(|e| e.contains("Foo.class")),
        "expected Foo.class in segment listing: {names:?}"
    );
    assert!(names.iter().any(|e| e.contains("Bar.class")));
}

#[test]
fn list_segment_names_entries_below_the_segment() {
    let nested = stored(&[("com/Foo.class", b"foo")]);
    let archive = stored(&[("lib/inner.jar", &nested)]);
    let parsed = parse_zip_expr("dir\\outer.war!/lib/inner.jar").expect("parse");
    let items = list_segment(&parsed, archive, &Config::default()).expect("list");
    assert_eq!(items.len(), 1);
    assert_eq!(items[0].expr, "dir/outer.war!/lib/inner.jar!/com/Foo.class");
    assert_eq!(items[0].size, 3);
}

#[test]
fn list_segment_refuses_a_non_archive_segment() {
    let archive = stored(&[("a.txt", b"x")]);
    let parsed = parse_zip_expr("o.zip!/a.txt").expect("parse");
    let err = list_segment(&parsed, archive, &Config::default()).unwrap_err();
    assert!(matches!(&err, ZiprError::NotArchiveSegment(s) if s == "a.txt"));
}

#[test]
fn list_recursive_descends_into_nested_archives() {
    let archive = nested_outer();
    let items = list_recursive(archive, "outer.zip", &Config::default()).expect("list");
    let exprs: Vec<&str> = items.iter().map(|e| e.expr.as_str()).collect();
    assert_eq!(exprs, vec!["outer.zip!/top.txt", "outer.zip!/inner.jar", "outer.zip!/inner.jar!/a.txt"]);
    assert_eq!(items[0].size, 11);
    assert!(items[1].is_archive);
}

#[test]
fn list_skips_directories_and_unreadable_nested_archives() {
    let mut w = ZipWriter::new(Cursor::new(Vec::new()));
    w.add_directory("dir/", SimpleFileOptions::default()).expect("dir");
    w.start_file("dir/fake.jar", SimpleFileOptions::default()).expect("start");
    w.write_all(b"not a zip").expect("write");
    let bytes = w.finish().expect("finish").into_inner();
    let items = list_recursive(bytes, "r.zip", &Config::default()).expect("list");
    assert_eq!(items.len(), 1);
    assert_eq!(items[0].expr, "r.zip!/dir/fake.jar");
    assert!(items[0].is_archive);
}

#[test]
fn list_of_garbage_is_a_zip_error() {
    let err = list_top_level(b"garbage".to_vec(), "g.zip", &Config::default()).unwrap_err();
    assert!(matches!(err, ZiprError::Zip(_)));
}

#[test]
fn get_reads_nested_entries() {
    let archive = nested_outer();
    let expr = parse_zip_expr("outer.zip!/inner.jar!/a.txt").expect("parse");
    assert_eq!(get(&expr, archive.clone(), &Config::default()).expect("get"), b"inner-content");
    let top = parse_zip_expr("outer.zip!/top.txt").expect("parse");
    assert_eq!(get(&top, archive, &Config::default()).expect("get"), b"top-content");
}

#[test]
fn get_reports_missing_pieces() {
    let archive = nested_outer();
    let missing = parse_zip_expr("outer.zip!/inner.jar!/nope.txt").expect("parse");
    assert!(matches!(get(&missing, archive.clone(), &Config::default()).unwrap_err(), ZiprError::TargetEntryNotFound));
    let seg = parse_zip_expr("outer.zip!/other.jar!/a.txt").expect("parse");
    let err = get(&seg, archive.clone(), &Config::default()).unwrap_err();
    assert!(matches!(&err, ZiprError::SegmentNotFound(s) if s == "other.jar"));
    assert_eq!(err.message(), "archive segment `other.jar` not found in nested chain");
    let not_archive = parse_zip_expr("outer.zip!/top.txt!/a.txt").expect("parse");
    let err = get(&not_archive, archive.clone(), &Config::default()).unwrap_err();
    assert!(matches!(&err, ZiprError::NotArchiveSegment(s) if s == "top.txt"));
    assert_eq!(err.message(), "segment `top.txt` is not recognized as an archive extension");
    let cfg = Config::load(None, Some("zip"));
    let err = get(&parse_zip_expr("outer.zip!/inner.jar!/a.txt").unwrap(), archive, &cfg).unwrap_err();
    assert!(matches!(&err, ZiprError::NotArchiveSegment(s) if s == "inner.jar"));
}

#[test]
fn read_from_bytes_reports_missing_entry() {
    let err = read_from_bytes(stored(&[("a", b"1")]), "b").unwrap_err();
    assert!(matches!(&err, ZiprError::EntryNotFound(n) if n == "b"));
    assert_eq!(err.message(), "entry `b` not found");
}

#[test]
fn replace_then_get_gives_new_contents() {
    let archive = nested_outer();
    let expr = parse_zip_expr("outer.zip!/inner.jar!/a.txt").expect("parse");
    let top_before = meta(&archive, "top.txt");
    let out = replace(&expr, archive, b"patched".to_vec(), Some(1_700_000_000), &Config::default(), ReplaceOptions::default())
        .expect("replace");
    assert_eq!(get(&expr, out.clone(), &Config::default()).expect("get"), b"patched");
    let top_after = meta(&out, "top.txt");
    assert_eq!(top_before.0, top_after.0);
    assert_eq!(top_before.1, top_after.1);
    assert_eq!(read_nested(&out, "inner.jar", "a.txt"), b"patched");
    let mut a = ZipArchive::new(Cursor::new(out)).expect("open");
    let mut f = a.by_name("inner.jar").expect("inner");
    let mut inner = Vec::new();
    f.read_to_end(&mut inner).expect("read");
    let (method, _, mtime) = meta(&inner, "a.txt");
    assert_eq!(method, CompressionMethod::Deflated);
    let odt = time::OffsetDateTime::from_unix_timestamp(1_700_000_000).expect("time");
    assert_eq!(mtime, Some(DateTime::try_from(odt).expect("dos")));
}

#[test]
fn replace_with_stored_policy_changes_method() {
    let archive = zip_bytes(&[("a.txt", b"aaaaaaaaaaaaaaaaaaaa", CompressionMethod::Deflated)]);
    let expr = parse_zip_expr("x.zip!/a.txt").expect("parse");
    let opts = ReplaceOptions { method: MethodPolicy::Stored, level: LevelPolicy::Name(LevelName::Inherit), mtime: MtimePolicy::Keep };
    let out = replace(&expr, archive, b"bbbb".to_vec(), None, &Config::default(), opts).expect("replace");
    assert_eq!(meta(&out, "a.txt").0, CompressionMethod::Stored);
    assert_eq!(read_from_bytes(out, "a.txt").expect("read"), b"bbbb");
}

#[test]
fn replace_keeps_time_when_asked() {
    let archive = zip_bytes(&[("a.txt", b"a", CompressionMethod::Deflated)]);
    let before = meta(&archive, "a.txt").2;
    let expr = parse_zip_expr("x.zip!/a.txt").expect("parse");
    let keep = ReplaceOptions { method: MethodPolicy::Inherit, level: LevelPolicy::Fixed(9), mtime: MtimePolicy::Keep };
    let dt = DateTime::try_from(time::OffsetDateTime::from_unix_timestamp(1_600_000_000).expect("time")).expect("dos");
    let t = Some(DosTime { date: dt.datepart(), time: dt.timepart() });
    let out = replace_at_times(&expr, archive, b"b".to_vec(), t, t, &Config::default(), keep).expect("replace");
    assert_eq!(meta(&out, "a.txt").2, before);
    let now = ReplaceOptions { method: MethodPolicy::Deflated, level: LevelPolicy::Name(LevelName::Default), mtime: MtimePolicy::Now };
    let out2 = replace_at_times(&expr, out, b"c".to_vec(), None, t, &Config::default(), now).expect("replace");
    let got = meta(&out2, "a.txt").2.expect("time");
    let want = t.expect("time");
    assert_eq!((got.datepart(), got.timepart()), (want.date, want.time));
}

#[test]
fn delete_then_get_fails() {
    let archive = nested_outer();
    let expr = parse_zip_expr("outer.zip!/top.txt").expect("parse");
    let out = delete(&expr, archive, &Config::default()).expect("delete");
    assert!(matches!(get(&expr, out.clone(), &Config::default()).unwrap_err(), ZiprError::TargetEntryNotFound));
    let nested = parse_zip_expr("outer.zip!/inner.jar!/a.txt").expect("parse");
    assert_eq!(get(&nested, out.clone(), &Config::default()).expect("get"), b"inner-content");
    let out2 = delete(&nested, out, &Config::default()).expect("delete nested");
    assert!(matches!(get(&nested, out2.clone(), &Config::default()).unwrap_err(), ZiprError::TargetEntryNotFound));
    let items = list_recursive(out2, "o.zip", &Config::default()).expect("list");
    assert_eq!(items.len(), 1);
    assert_eq!(items[0].expr, "o.zip!/inner.jar");
}

#[test]
fn delete_of_missing_target_fails() {
    let archive = nested_outer();
    let expr = parse_zip_expr("outer.zip!/inner.jar!/nope.txt").expect("parse");
    let err = delete(&expr, archive.clone(), &Config::default()).unwrap_err();
    assert!(matches!(&err, ZiprError::TargetNotFound(t) if t == "nope.txt"));
    assert_eq!(err.message(), "target entry not found: nope.txt");
    let top = parse_zip_expr("outer.zip!/missing.txt").expect("parse");
    assert!(matches!(delete(&top, archive, &Config::default()).unwrap_err(), ZiprError::TargetNotFound(_)));
}

#[test]
fn rewrite_below_a_non_archive_fails() {
    let archive = nested_outer();
    let expr = parse_zip_expr("outer.zip!/top.txt!/x").expect("parse");
    let err = delete(&expr, archive, &Config::default()).unwrap_err();
    assert!(matches!(&err, ZiprError::NestedNotArchive(n) if n == "top.txt"));
    assert_eq!(err.message(), "segment `top.txt` is not an archive but nested path continues");
}

#[test]
fn rewrite_of_garbage_is_a_zip_error() {
    let expr = parse_zip_expr("g.zip!/x").expect("parse");
    assert!(matches!(delete(&expr, b"nope".to_vec(), &Config::default()).unwrap_err(), ZiprError::Zip(_)));
}

#[test]
fn rewrite_that_finds_nothing_keeps_every_entry() {
    let archive = nested_outer();
    let segments = vec!["inner.jar".to_string(), "missing.txt".to_string()];
    let (out, changed) = mutate_archive_bytes(archive.clone(), &segments, Mutation::Delete, &Config::default()).expect("rewrite");
    assert!(!changed);
    assert_eq!(read_from_bytes(out.clone(), "top.txt").expect("top"), b"top-content");
    assert_eq!(read_from_bytes(out.clone(), "inner.jar").expect("inner"), read_from_bytes(archive, "inner.jar").expect("inner"));
    let empty: Vec<String> = Vec::new();
    let err = mutate_archive_bytes(out, &empty, Mutation::Delete, &Config::default()).unwrap_err();
    assert!(matches!(err, ZiprError::EmptyPathSegments));
    assert_eq!(err.message(), "empty path segments");
}

#[test]
fn rewrite_through_a_nested_entry_that_is_not_a_zip_fails() {
    let archive = stored(&[("top.txt", b"top"), ("inner.jar", b"not a zip at all")]);
    let segments = vec!["inner.jar".to_string(), "missing.txt".to_string()];
    let err = mutate_archive_bytes(archive.clone(), &segments, Mutation::Delete, &Config::default()).unwrap_err();
    assert!(matches!(err, ZiprError::Zip(_)));
    let expr = parse_zip_expr("o.zip!/inner.jar!/a.txt").expect("parse");
    assert!(matches!(delete(&expr, archive, &Config::default()).unwrap_err(), ZiprError::Zip(_)));
}

fn unix_mode(bytes: &[u8], name: &str) -> Option<u32> {
    let mut a = ZipArchive::new(Cursor::new(bytes.to_vec())).expect("open");
    let f = a.by_name(name).expect("entry");
    f.unix_mode()
}

#[test]
fn rewrite_keeps_unix_permissions_as_regular_files() {
    let mut w = ZipWriter::new(Cursor::new(Vec::new()));
    w.start_file("run.sh", SimpleFileOptions::default().unix_permissions(0o755)).expect("start");
    w.write_all(b"#!/bin/sh").expect("write");
    w.start_file("data.txt", SimpleFileOptions::default().unix_permissions(0o600)).expect("start");
    w.write_all(b"data").expect("write");
    let archive = w.finish().expect("finish").into_inner();
    let expr = parse_zip_expr("x.zip!/run.sh").expect("parse");
    let out = replace(&expr, archive, b"echo hi".to_vec(), None, &Config::default(), ReplaceOptions::default()).expect("replace");
    assert_eq!(unix_mode(&out, "run.sh"), Some(0o100755));
    assert_eq!(unix_mode(&out, "data.txt"), Some(0o100600));
    assert_eq!(read_from_bytes(out, "run.sh").expect("read"), b"echo hi");
}

#[test]
fn replace_with_sixty_seconds_keeps_fifty_eight() {
    let archive = zip_bytes(&[("a.txt", b"a", CompressionMethod::Deflated)]);
    let expr = parse_zip_expr("x.zip!/a.txt").expect("parse");
    let opts = ReplaceOptions { method: MethodPolicy::Inherit, level: LevelPolicy::Name(LevelName::Inherit), mtime: MtimePolicy::Source };
    // 2020-05-17 10:20, with a seconds field of 30 (sixty seconds).
    let date: u16 = (40 << 9) | (5 << 5) | 17;
    let time: u16 = (10 << 11) | (20 << 5) | 30;
    let t = Some(DosTime { date, time });
    let out = replace_at_times(&expr, archive, b"b".to_vec(), t, None, &Config::default(), opts).expect("replace");
    let got = meta(&out, "a.txt").2.expect("time");
    assert_eq!((got.datepart(), got.timepart()), (date, time - 1));
}

#[test]
fn replace_with_a_time_the_writer_refuses_is_a_zip_error() {
    let archive = zip_bytes(&[("a.txt", b"a", CompressionMethod::Deflated)]);
    let expr = parse_zip_expr("x.zip!/a.txt").expect("parse");
    let opts = ReplaceOptions { method: MethodPolicy::Inherit, level: LevelPolicy::Name(LevelName::Inherit), mtime: MtimePolicy::Source };
    // Month 13 does not exist.
    let t = Some(DosTime { date: (40 << 9) | (13 << 5) | 1, time: 0 });
    let err = replace_at_times(&expr, archive, b"b".to_vec(), t, None, &Config::default(), opts).unwrap_err();
    assert!(matches!(err, ZiprError::Zip(_)));
}

#[test]
fn replace_keeps_nested_archive_metadata() {
    let archive = nested_outer();
    let before = meta(&archive, "inner.jar");
    let expr = parse_zip_expr("outer.zip!/inner.jar!/a.txt").expect("parse");
    let out = replace(&expr, archive, b"patched".to_vec(), None, &Config::default(), ReplaceOptions::default()).expect("replace");
    let after = meta(&out, "inner.jar");
    assert_eq!(after.0, CompressionMethod::Stored);
    assert_eq!(after.2, before.2);
    assert_eq!(unix_mode(&out, "inner.jar"), Some(0o100644));
    let mut a = ZipArchive::new(Cursor::new(out)).expect("open");
    assert_eq!(a.by_name("inner.jar").expect("inner").comment(), "");
}

#[test]
fn error_text_of_a_name_too_long() {
    assert_eq!(ZiprError::NameTooLong("n".to_string()).message(), "entry name too long to be written: n");
}

fn raw_stored_zip(entries: &[(&[u8], &[u8])]) -> Vec<u8> {
    let mut out = Vec::new();
    let mut central = Vec::new();
    for (name, data) in entries {
        let offset = out.len() as u32;
        let crc = crc32fast::hash(data);
        let mut header = Vec::new();
        header.extend_from_slice(&20u16.to_le_bytes());
        header.extend_from_slice(&0u16.to_le_bytes());
        header.extend_from_slice(&0u16.to_le_bytes());
        header.extend_from_slice(&0u16.to_le_bytes());
        header.extend_from_slice(&0x21u16.to_le_bytes());
        header.extend_from_slice(&crc.to_le_bytes());
        header.extend_from_slice(&(data.len() as u32).to_le_bytes());
        header.extend_from_slice(&(data.len() as u32).to_le_bytes());
        header.extend_from_slice(&(name.len() as u16).to_le_bytes());
        header.extend_from_slice(&0u16.to_le_bytes());
        out.extend_from_slice(&0x04034b50u32.to_le_bytes());
        out.extend_from_slice(&header);
        out.extend_from_slice(name);
        out.extend_from_slice(data);
        central.extend_from_slice(&0x02014b50u32.to_le_bytes());
        central.extend_from_slice(&20u16.to_le_bytes());
        central.extend_from_slice(&header);
        central.extend_from_slice(&0u16.to_le_bytes());
        central.extend_from_slice(&0u16.to_le_bytes());
        central.extend_from_slice(&0u16.to_le_bytes());
        central.extend_from_slice(&0u32.to_le_bytes());
        central.extend_from_slice(&offset.to_le_bytes());
        central.extend_from_slice(name);
    }
    let cd_offset = out.len() as u32;
    out.extend_from_slice(&central);
    out.extend_from_slice(&0x06054b50u32.to_le_bytes());
    out.extend_from_slice(&0u16.to_le_bytes());
    out.extend_from_slice(&0u16.to_le_bytes());
    out.extend_from_slice(&(entries.len() as u16).to_le_bytes());
    out.extend_from_slice(&(entries.len() as u16).to_le_bytes());
    out.extend_from_slice(&(central.len() as u32).to_le_bytes());
    out.extend_from_slice(&cd_offset.to_le_bytes());
    out.extend_from_slice(&0u16.to_le_bytes());
    out
}

#[test]
fn rewrite_refuses_a_name_too_long_to_write_back() {
    // Forty thousand code page 437 characters that take two bytes each in UTF-8.
    let long_name = vec![0xe9u8; 40_000];
    let archive = raw_stored_zip(&[(&long_name, b"x"), (b"target.txt", b"t")]);
    assert_eq!(read_from_bytes(archive.clone(), "target.txt").expect("read"), b"t");
    let expr = parse_zip_expr("o.zip!/target.txt").expect("parse");
    let err = delete(&expr, archive, &Config::default()).unwrap_err();
    assert!(matches!(&err, ZiprError::NameTooLong(n) if n.chars().count() == 40_000));
}
