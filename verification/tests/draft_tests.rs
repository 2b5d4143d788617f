use std::io::{Cursor, Write};

use zip::write::SimpleFileOptions;
use zip::{CompressionMethod, ZipWriter};

use zipr::config::Config;
use zipr::draft::{
    build_patch_spec, draft_from_path, is_generated_patch_file, patch_draft_extend, strip_root_from_target, DraftInput,
    DraftSummary,
};
use zipr::archive::ListedEntry;
use zipr::patch_spec::{Action, LevelName, LevelPolicy, MethodPolicy, MtimePolicy};
use zipr::report::draft_line;

fn stored(entries: &[(&str, &[u8])]) -> Vec<u8> {
    let mut w = ZipWriter::new(Cursor::new(Vec::new()));
    for (name, data) in entries {
        w.start_file(*name, SimpleFileOptions::default().compression_method(CompressionMethod::Stored)).expect("start");
        w.write_all(data).expect("write");
    }
    w.finish().expect("finish").into_inner()
}

fn input(source: &str, rel: &str, base: &str) -> DraftInput {
    DraftInput { source_norm: source.to_string(), rel_norm: rel.to_string(), base: base.to_string() }
}

fn listed(expr: &str) -> ListedEntry {
    ListedEntry { expr: expr.to_string(), size: 1, compressed_size: 1, is_archive: false }
}

#[test]
fn strip_root_keeps_what_follows_the_first_separator() {
    assert_eq!(strip_root_from_target("a.zip!/b.jar!/c.txt"), "b.jar!/c.txt");
    assert_eq!(strip_root_from_target("c.txt"), "c.txt");
    assert_eq!(strip_root_from_target("a.zip!/"), "");
}

#[test]
fn generated_draft_files_are_recognized() {
    assert!(is_generated_patch_file(Some("patch.draft.toml")));
    assert!(is_generated_patch_file(Some("patch.draft.orig.toml")));
    assert!(!is_generated_patch_file(Some("patch.toml")));
    assert!(!is_generated_patch_file(None));
}

#[test]
fn draft_matches_by_path_then_by_unique_name() {
    let listing = vec![
        listed("app.zip!/a.txt"),
        listed("app.zip!/dir/b.txt"),
        listed("app.zip!/x/c.txt"),
        listed("app.zip!/y/c.txt"),
        listed("app.zip!/lib/in.jar!/dir/b.txt"),
    ];
    let inputs = vec![
        input("p/a.txt", "a.txt", "a.txt"),
        input("p/dir/b.txt", "dir/b.txt", "b.txt"),
        input("p/c.txt", "c.txt", "c.txt"),
        input("p/z.txt", "z.txt", "z.txt"),
        input("p/q/a.txt", "q/a.txt", "a.txt"),
    ];
    let (spec, summary) = build_patch_spec("app.zip".to_string(), &listing, &inputs, "then".to_string());
    assert_eq!(spec.version, 1);
    assert_eq!(spec.archive.as_deref(), Some("app.zip"));
    assert_eq!(spec.generated_at.as_deref(), Some("then"));
    assert_eq!(summary, DraftSummary { matched: 3, unresolved: 2 });
    let targets: Vec<&str> = spec.entry.iter().map(|e| e.target.as_str()).collect();
    assert_eq!(targets, vec!["app.zip!/a.txt", "app.zip!/dir/b.txt", "app.zip!/a.txt"]);
    assert_eq!(spec.entry[1].source.as_deref(), Some("p/dir/b.txt"));
    assert_eq!(spec.entry[0].action, Action::Replace);
    assert_eq!(spec.entry[0].method, MethodPolicy::Inherit);
    assert_eq!(spec.entry[0].level, LevelPolicy::Name(LevelName::Inherit));
    assert_eq!(spec.entry[0].mtime, MtimePolicy::Source);
    assert_eq!(spec.unresolved[0].source, "p/c.txt");
    assert_eq!(spec.unresolved[0].reason, "multiple targets");
    assert_eq!(spec.unresolved[0].candidates, vec!["app.zip!/x/c.txt".to_string(), "app.zip!/y/c.txt".to_string()]);
    assert_eq!(spec.unresolved[1].reason, "no target matched");
    assert!(spec.unresolved[1].candidates.is_empty());
}

#[test]
fn draft_from_archive_finds_nested_targets() {
    let inner = stored(&[("a.txt", b"inner")]);
    let archive = stored(&[("top.txt", b"t"), ("inner.jar", &inner)]);
    let inputs = vec![input("patches/a.txt", "a.txt", "a.txt")];
    let (spec, summary) = draft_from_path("work\\outer.zip", archive, &inputs, &Config::default()).expect("draft");
    assert_eq!(summary, DraftSummary { matched: 1, unresolved: 0 });
    assert_eq!(spec.archive.as_deref(), Some("work/outer.zip"));
    assert!(spec.generated_at.is_some());
    assert_eq!(spec.entry[0].target, "work\\outer.zip!/inner.jar!/a.txt");
    assert!(spec.validate().is_ok());
    assert_eq!(draft_line("patch.draft.toml", summary), "draft written: patch.draft.toml (matched=1, unresolved=0)");
}

#[test]
fn draft_extend_preserves_existing_entries_and_adds_new_ones() {
    let archive = stored(&[("a.txt", b"a-original"), ("b.txt", b"b-original")]);
    let first = vec![input("patches1/a.txt", "a.txt", "a.txt")];
    let (original_spec, _) = draft_from_path("app.zip", archive.clone(), &first, &Config::default()).expect("draft");
    assert_eq!(original_spec.entry.len(), 1);

    let second = vec![input("patches2/b.txt", "b.txt", "b.txt")];
    let (merged, summary) =
        patch_draft_extend("app.zip", archive, original_spec, &second, &Config::default()).expect("extend");
    assert_eq!(summary.matched, 2, "should now have both entries");
    assert_eq!(summary.unresolved, 0);
    assert_eq!(merged.entry.len(), 2);
    let targets: Vec<&str> = merged.entry.iter().map(|e| e.target.as_str()).collect();
    assert!(targets.iter().any(|t| t.ends_with("!/a.txt")));
    assert!(targets.iter().any(|t| t.ends_with("!/b.txt")));
}

#[test]
fn draft_extend_skips_duplicate_sources() {
    let archive = stored(&[("a.txt", b"a")]);
    let inputs = vec![input("patches/a.txt", "a.txt", "a.txt")];
    let (spec, _) = draft_from_path("app.zip", archive.clone(), &inputs, &Config::default()).expect("draft");
    let (merged, summary) = patch_draft_extend("app.zip", archive, spec, &inputs, &Config::default()).expect("extend");
    assert_eq!(summary.matched, 1, "duplicate source should not double-count");
    assert_eq!(merged.entry.len(), 1);
}

#[test]
fn draft_extend_skips_duplicate_targets_from_new_sources() {
    let archive = stored(&[("a.txt", b"a")]);
    let (spec, _) = draft_from_path("app.zip", archive.clone(), &[], &Config::default()).expect("draft");
    let more = vec![input("patches1/a.txt", "a.txt", "a.txt"), input("patches2/a.txt", "a.txt", "a.txt")];
    let (merged, summary) = patch_draft_extend("app.zip", archive, spec, &more, &Config::default()).expect("extend");
    assert_eq!(summary.matched, 1, "duplicate target should be de-duplicated");
    assert_eq!(summary.unresolved, 0);
    assert_eq!(merged.entry.len(), 1);
    assert_eq!(merged.entry[0].source.as_deref(), Some("patches1/a.txt"));
    assert!(merged.validate().is_ok());
}

#[test]
fn draft_extend_keeps_the_existing_header_and_unresolved_items() {
    let archive = stored(&[("a.txt", b"a"), ("x/c.txt", b"1"), ("y/c.txt", b"2")]);
    let first = vec![input("p/c.txt", "c.txt", "c.txt")];
    let (spec, summary) = draft_from_path("app.zip", archive.clone(), &first, &Config::default()).expect("draft");
    assert_eq!(summary, DraftSummary { matched: 0, unresolved: 1 });
    let stamp = spec.generated_at.clone();
    let more = vec![input("p/c.txt", "c.txt", "c.txt"), input("q/a.txt", "a.txt", "a.txt")];
    let (merged, summary) = patch_draft_extend("app.zip", archive, spec, &more, &Config::default()).expect("extend");
    assert_eq!(summary, DraftSummary { matched: 1, unresolved: 1 });
    assert_eq!(merged.generated_at, stamp);
    assert_eq!(merged.unresolved[0].source, "p/c.txt");
    assert_eq!(merged.entry[0].source.as_deref(), Some("q/a.txt"));
}

#[test]
fn extending_twice_with_the_same_inputs_changes_nothing() {
    let archive = stored(&[("a.txt", b"a"), ("x/c.txt", b"1"), ("y/c.txt", b"2"), ("b.txt", b"b")]);
    let (spec, _) = draft_from_path("app.zip", archive.clone(), &[], &Config::default()).expect("draft");
    let more = vec![
        input("p/c.txt", "c.txt", "c.txt"),
        input("q/a.txt", "a.txt", "a.txt"),
        input("r/a.txt", "a.txt", "a.txt"),
        input("s/none.txt", "none.txt", "none.txt"),
    ];
    let (once, s1) = patch_draft_extend("app.zip", archive.clone(), spec, &more, &Config::default()).expect("extend");
    let (twice, s2) = patch_draft_extend("app.zip", archive, once.clone(), &more, &Config::default()).expect("extend");
    assert_eq!(s1, s2);
    assert_eq!(once.entry.len(), twice.entry.len());
    for (a, b) in once.entry.iter().zip(twice.entry.iter()) {
        assert_eq!(a.target, b.target);
        assert_eq!(a.source, b.source);
    }
    let u1: Vec<&str> = once.unresolved.iter().map(|u| u.source.as_str()).collect();
    let u2: Vec<&str> = twice.unresolved.iter().map(|u| u.source.as_str()).collect();
    assert_eq!(u1, u2);
}
