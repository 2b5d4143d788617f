use zipr::config::{normalize_ext, normalize_exts, Config, FileSettings};

#[test]
fn default_config_knows_zip_jar_war() {
    let c = Config::default();
    assert_eq!(c.default_level, 6);
    assert!(c.is_archive_name("a.zip"));
    assert!(c.is_archive_name("lib/b.JAR"));
    assert!(c.is_archive_name("x.war"));
    assert!(!c.is_archive_name("x.ear"));
    assert!(!c.is_archive_name("readme.txt"));
    assert!(c.is_archive_name("zip"));
}

#[test]
fn normalize_ext_trims_dots_and_case() {
    assert_eq!(normalize_ext("  .JAR "), "jar");
    assert_eq!(normalize_ext("..Zip"), "zip");
    assert_eq!(normalize_exts(vec![" .EAR".to_string(), "war".to_string()]), vec!["ear".to_string(), "war".to_string()]);
}

#[test]
fn cli_extensions_override_defaults() {
    let c = Config::load(None, Some("zip, .EAR ,,"));
    assert!(c.is_archive_name("a.ear"));
    assert!(c.is_archive_name("a.zip"));
    assert!(!c.is_archive_name("a.jar"));
}

#[test]
fn empty_cli_extension_list_keeps_defaults() {
    let c = Config::load(None, Some(" , ,"));
    assert!(c.is_archive_name("a.jar"));
}

#[test]
fn file_settings_apply_and_clamp_level() {
    let file = FileSettings { extensions: Some(vec!["EAR".to_string()]), default_level: Some(42) };
    let c = Config::load(Some(file), None);
    assert_eq!(c.default_level, 9);
    assert!(c.is_archive_name("x.ear"));
    assert!(!c.is_archive_name("x.zip"));
    let low = FileSettings { extensions: None, default_level: Some(-3) };
    let c2 = Config::load(Some(low), Some("jar"));
    assert_eq!(c2.default_level, 0);
    assert!(c2.is_archive_name("x.jar"));
    assert!(!c2.is_archive_name("x.zip"));
}
