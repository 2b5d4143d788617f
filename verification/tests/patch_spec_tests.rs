use zipr::error::ZiprError;
use zipr::patch_spec::{
    default_action, default_comment, default_inherit, default_level_policy, default_mtime, Action, CommentPolicy,
    LevelName, LevelPolicy, MethodPolicy, MtimePolicy, PatchEntry, PatchSpec, Unresolved,
};

fn text(v: Option<&toml::Value>) -> Option<String> {
    v.and_then(|x| x.as_str()).map(|s| s.to_string())
}

fn spec_from_toml(raw: &str) -> PatchSpec {
    let table: toml::Table = toml::from_str(raw).expect("parse");
    let mut entry = Vec::new();
    if let Some(items) = table.get("entry").and_then(|v| v.as_array()) {
        for item in items {
            let t = item.as_table().expect("entry table");
            let action = match text(t.get("action")).as_deref() {
                Some("delete") => Action::Delete,
                Some("replace") => Action::Replace,
                None => default_action(),
                Some(other) => panic!("unknown action {other}"),
            };
            let method = match text(t.get("method")).as_deref() {
                Some("stored") => MethodPolicy::Stored,
                Some("deflated") => MethodPolicy::Deflated,
                Some("inherit") => MethodPolicy::Inherit,
                None => default_inherit(),
                Some(other) => panic!("unknown method {other}"),
            };
            let level = match t.get("level") {
                Some(toml::Value::Integer(v)) => LevelPolicy::Fixed(u8::try_from(*v).expect("level")),
                Some(toml::Value::String(s)) if s == "inherit" => LevelPolicy::Name(LevelName::Inherit),
                Some(toml::Value::String(s)) if s == "default" => LevelPolicy::Name(LevelName::Default),
                None => default_level_policy(),
                Some(other) => panic!("unknown level {other}"),
            };
            let mtime = match text(t.get("mtime")).as_deref() {
                Some("source") => MtimePolicy::Source,
                Some("now") => MtimePolicy::Now,
                Some("keep") => MtimePolicy::Keep,
                None => default_mtime(),
                Some(other) => panic!("unknown mtime {other}"),
            };
            let comment = match text(t.get("comment")).as_deref() {
                Some("inherit") => CommentPolicy::Inherit,
                None => default_comment(),
                Some(other) => panic!("unknown comment {other}"),
            };
            entry.push(PatchEntry {
                target: text(t.get("target")).expect("target"),
                source: text(t.get("source")),
                action,
                method,
                level,
                mtime,
                comment,
            });
        }
    }
    PatchSpec {
        version: table.get("version").and_then(|v| v.as_integer()).expect("version") as u32,
        archive: text(table.get("archive")),
        generated_at: text(table.get("generated_at")),
        entry,
        unresolved: Vec::new(),
    }
}

fn entry(target: &str, source: Option<&str>, action: Action) -> PatchEntry {
    PatchEntry {
        target: target.to_string(),
        source: source.map(|s| s.to_string()),
        action,
        method: MethodPolicy::Inherit,
        level: LevelPolicy::Name(LevelName::Inherit),
        mtime: MtimePolicy::Source,
        comment: CommentPolicy::Inherit,
    }
}

fn spec(entries: Vec<PatchEntry>) -> PatchSpec {
    PatchSpec { version: 1, archive: None, generated_at: None, entry: entries, unresolved: Vec::new() }
}

#[test]
fn validate_level_range() {
    let raw = r#"
version = 1

[[entry]]
target = "a.zip!/x.txt"
source = "x.txt"
action = "replace"
method = "deflated"
level = 10
"#;
    let spec = spec_from_toml(raw);
    assert!(spec.validate().is_err());
}

#[test]
fn parse_default_level_policy() {
    let raw = r#"
version = 1

[[entry]]
target = "a.zip!/x.txt"
source = "x.txt"
action = "replace"
"#;
    let spec = spec_from_toml(raw);
    assert!(matches!(spec.entry[0].level, LevelPolicy::Name(_)));
}

#[test]
fn valid_spec_passes() {
    let s = spec(vec![entry("a.zip!/x", Some("x"), Action::Replace), entry("a.zip!/y", None, Action::Delete)]);
    assert!(s.validate().is_ok());
}

#[test]
fn wrong_version_is_refused() {
    let mut s = spec(vec![]);
    s.version = 2;
    let err = s.validate().unwrap_err();
    assert!(matches!(err, ZiprError::UnsupportedVersion(2)));
    assert_eq!(err.message(), "unsupported patch spec version 2, expected 1");
}

#[test]
fn unresolved_items_are_refused() {
    let mut s = spec(vec![]);
    s.unresolved.push(Unresolved { source: "p/a".to_string(), reason: "no target matched".to_string(), candidates: vec![] });
    assert!(matches!(s.validate().unwrap_err(), ZiprError::UnresolvedEntries));
}

#[test]
fn duplicate_target_is_refused() {
    let s = spec(vec![entry("a.zip!/x", Some("x"), Action::Replace), entry("a.zip!/x", None, Action::Delete)]);
    let err = s.validate().unwrap_err();
    assert!(matches!(&err, ZiprError::DuplicateTarget(t) if t == "a.zip!/x"));
    assert_eq!(err.message(), "duplicate target in patch spec: a.zip!/x");
}

#[test]
fn replace_without_source_is_refused() {
    let s = spec(vec![entry("a.zip!/x", None, Action::Replace)]);
    assert!(matches!(s.validate().unwrap_err(), ZiprError::MissingSource(t) if t == "a.zip!/x"));
}

#[test]
fn stored_with_fixed_level_is_refused() {
    let mut e = entry("a.zip!/x", Some("x"), Action::Replace);
    e.method = MethodPolicy::Stored;
    e.level = LevelPolicy::Fixed(3);
    assert!(matches!(spec(vec![e]).validate().unwrap_err(), ZiprError::StoredWithFixedLevel));
}

#[test]
fn fixed_level_nine_is_accepted_ten_is_not() {
    let mut e = entry("a.zip!/x", Some("x"), Action::Replace);
    e.level = LevelPolicy::Fixed(9);
    assert!(spec(vec![e.clone()]).validate().is_ok());
    e.level = LevelPolicy::Fixed(10);
    let err = spec(vec![e]).validate().unwrap_err();
    assert!(matches!(err, ZiprError::LevelOutOfRange));
    assert_eq!(err.message(), "compression level must be between 0 and 9");
}

#[test]
fn first_problem_is_reported() {
    let s = spec(vec![entry("a.zip!/x", None, Action::Replace), entry("a.zip!/x", None, Action::Replace)]);
    assert!(matches!(s.validate().unwrap_err(), ZiprError::MissingSource(_)));
}

#[test]
fn entry_defaults() {
    assert_eq!(default_action(), Action::Replace);
    assert_eq!(default_inherit(), MethodPolicy::Inherit);
    assert_eq!(default_level_policy(), LevelPolicy::Name(LevelName::Inherit));
    assert_eq!(default_mtime(), MtimePolicy::Source);
    assert_eq!(default_comment(), CommentPolicy::Inherit);
}
