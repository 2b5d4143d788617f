use zipr::error::ZiprError;
use zipr::path_expr::{make_expr, normalize_path_for_zip, parse_zip_expr, ZipExpr};

#[test]
fn parse_basic() {
    let expr = parse_zip_expr("a.zip!/x.txt").expect("parse");
    assert_eq!(expr.root_archive, "a.zip");
    assert_eq!(expr.archive_chain(), &[] as &[String]);
    assert_eq!(expr.target().expect("target"), "x.txt");
}

#[test]
fn parse_nested() {
    let expr = parse_zip_expr("a.zip!/b.jar!/x.txt").expect("parse");
    assert_eq!(expr.archive_chain().len(), 1);
    assert_eq!(expr.archive_chain()[0], "b.jar");
    assert_eq!(expr.target().expect("target"), "x.txt");
}

#[test]
fn parse_trims_slashes_and_turns_backslashes() {
    let expr = parse_zip_expr("dir\\a.war!//WEB-INF\\lib/x.jar/!/a.txt").expect("parse");
    assert_eq!(expr.root_archive, "dir\\a.war");
    assert_eq!(expr.segments, vec!["WEB-INF/lib/x.jar".to_string(), "a.txt".to_string()]);
}

#[test]
fn parse_without_separator_fails() {
    let err = parse_zip_expr("a.zip").unwrap_err();
    assert!(matches!(err, ZiprError::MissingArchiveSeparator));
    assert_eq!(
        err.message(),
        "invalid zip expression: expected `outer.zip!/path/in/archive`"
    );
}

#[test]
fn parse_with_empty_root_fails() {
    let err = parse_zip_expr("!/x.txt").unwrap_err();
    assert!(matches!(err, ZiprError::EmptyRootArchive));
    assert_eq!(err.message(), "invalid zip expression: empty root archive");
}

#[test]
fn parse_with_empty_segment_fails() {
    assert!(matches!(parse_zip_expr("a.zip!/").unwrap_err(), ZiprError::EmptySegment));
    assert!(matches!(parse_zip_expr("a.zip!///!/x").unwrap_err(), ZiprError::EmptySegment));
    assert!(matches!(parse_zip_expr("a.zip!/b!/").unwrap_err(), ZiprError::EmptySegment));
}

#[test]
fn target_of_expression_without_segments_fails() {
    let expr = ZipExpr { root_archive: "a.zip".to_string(), segments: vec![] };
    let err = expr.target().unwrap_err();
    assert!(matches!(err, ZiprError::NoTarget));
    assert_eq!(err.message(), "zip expression has no entry target");
    assert!(expr.archive_chain().is_empty());
}

#[test]
fn make_expr_joins_with_separator() {
    assert_eq!(make_expr("", "a.txt"), "a.txt");
    assert_eq!(make_expr("outer.zip", "inner.jar"), "outer.zip!/inner.jar");
    assert_eq!(make_expr("outer.zip!/inner.jar", "a/b.txt"), "outer.zip!/inner.jar!/a/b.txt");
}

#[test]
fn normalize_path_turns_backslashes() {
    assert_eq!(normalize_path_for_zip("C:\\work\\a.jar"), "C:/work/a.jar");
    assert_eq!(normalize_path_for_zip("plain/path.zip"), "plain/path.zip");
}

#[test]
fn parsing_a_joined_expression_gives_its_parts_back() {
    let joined = make_expr(&make_expr(&make_expr("", "out/app.war"), "WEB-INF/lib/inner.jar"), "com/App.class");
    assert_eq!(joined, "out/app.war!/WEB-INF/lib/inner.jar!/com/App.class");
    let expr = parse_zip_expr(&joined).expect("parse");
    assert_eq!(expr.root_archive, "out/app.war");
    assert_eq!(expr.segments, vec!["WEB-INF/lib/inner.jar".to_string(), "com/App.class".to_string()]);
}
