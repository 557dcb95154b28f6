use canon_builder::sidecar::{
    advance_manifest, check_manifest_lines, content_hash, is_app_sidecar, manifest_lines, manifest_text,
    sidecar_hash, ManifestIssue, SIDECAR_MANIFEST, SIDECAR_RETENTION,
};

#[test]
fn advance_appends_and_evicts_once_over_the_retention_cap() {
    let history = vec!["app.aaaaaaaaaaaa.js".to_string(), "app.bbbbbbbbbbbb.js".to_string(), "app.cccccccccccc.js".to_string()];
    let kept = advance_manifest(history, "app.dddddddddddd.js");
    // SIDECAR_RETENTION = 3: adding a 4th name evicts exactly the oldest.
    assert_eq!(kept, vec!["app.bbbbbbbbbbbb.js", "app.cccccccccccc.js", "app.dddddddddddd.js"]);
}

#[test]
fn advance_is_a_no_op_below_the_retention_cap() {
    let kept = advance_manifest(vec!["app.aaaaaaaaaaaa.js".to_string()], "app.bbbbbbbbbbbb.js");
    assert_eq!(kept, vec!["app.aaaaaaaaaaaa.js", "app.bbbbbbbbbbbb.js"]);
}

#[test]
fn advance_with_unchanged_content_leaves_history_untouched() {
    let history = vec!["app.aaaaaaaaaaaa.js".to_string(), "app.bbbbbbbbbbbb.js".to_string()];
    let kept = advance_manifest(history, "app.bbbbbbbbbbbb.js");
    assert_eq!(kept, vec!["app.aaaaaaaaaaaa.js", "app.bbbbbbbbbbbb.js"], "already-last entry moves nowhere");
}

#[test]
fn advance_on_a_reverted_hash_moves_it_back_to_the_end_without_duplicating() {
    let history = vec!["app.aaaaaaaaaaaa.js".to_string(), "app.bbbbbbbbbbbb.js".to_string(), "app.cccccccccccc.js".to_string()];
    // Content reverted to what app.aaaaaaaaaaaa.js was built from earlier.
    let kept = advance_manifest(history, "app.aaaaaaaaaaaa.js");
    assert_eq!(
        kept,
        vec!["app.bbbbbbbbbbbb.js", "app.cccccccccccc.js", "app.aaaaaaaaaaaa.js"],
        "the reverted hash moves to the end, not duplicated"
    );
}

#[test]
fn advance_from_an_empty_history_and_retention_constants() {
    assert_eq!(advance_manifest(vec![], "app.aaaaaaaaaaaa.js"), vec!["app.aaaaaaaaaaaa.js"]);
    assert_eq!(SIDECAR_RETENTION, 3);
    assert_eq!(SIDECAR_MANIFEST, "sidecars.manifest");
}

#[test]
fn sidecar_names_have_the_app_hash_js_shape() {
    assert!(is_app_sidecar("app.aaaaaaaaaaaa.js"));
    assert!(is_app_sidecar("app.0123456789ab.js"));
    assert!(!is_app_sidecar("../secret"));
    assert!(!is_app_sidecar("app..js"));
    assert!(!is_app_sidecar("app.ABCDEF.js"));
    assert!(!is_app_sidecar("app.abc.jsx"));
    assert!(!is_app_sidecar("lib.abc.js"));
    assert_eq!(sidecar_hash("app.aaaaaaaaaaaa.js"), "aaaaaaaaaaaa");
}

#[test]
fn manifest_lines_must_be_shaped_and_unique() {
    let ok = vec!["app.aaaaaaaaaaaa.js".to_string(), "app.bbbbbbbbbbbb.js".to_string()];
    assert!(check_manifest_lines(&ok).is_ok());
    let bad = vec!["app.aaaaaaaaaaaa.js".to_string(), "../secret".to_string()];
    assert_eq!(check_manifest_lines(&bad), Err(ManifestIssue::InvalidEntry { line: 1 }));
    let dup = vec!["app.aaaaaaaaaaaa.js".to_string(), "app.aaaaaaaaaaaa.js".to_string()];
    assert_eq!(check_manifest_lines(&dup), Err(ManifestIssue::Duplicate { line: 1 }));
}

#[test]
fn manifest_text_ends_every_line_with_a_newline() {
    assert_eq!(manifest_text(&vec![]), "");
    let names = vec!["app.aaaaaaaaaaaa.js".to_string(), "app.bbbbbbbbbbbb.js".to_string()];
    assert_eq!(manifest_text(&names), "app.aaaaaaaaaaaa.js\napp.bbbbbbbbbbbb.js\n");
}

#[test]
fn content_hash_is_the_leading_twelve_hex_digits_of_fnv1a() {
    // FNV-1a 64 of "a" is af63dc4c8601ec8c.
    assert_eq!(content_hash(b"a"), "af63dc4c8601");
    assert_eq!(content_hash(b""), "cbf29ce48422");
    assert!(is_app_sidecar(&format!("app.{}.js", content_hash(b"console.log(1)"))));
}

#[test]
fn manifest_lines_split_like_str_lines() {
    assert_eq!(manifest_lines("foo\r\nbar\n\nbaz\r"), vec!["foo", "bar", "", "baz\r"]);
    assert_eq!(manifest_lines(""), Vec::<String>::new());
    assert_eq!(manifest_lines("a\n"), vec!["a"]);
    assert_eq!(manifest_lines("a\r\r\nb"), vec!["a\r", "b"]);
}

#[test]
fn write_sidecar_manifest_round_trips() {
    let names = vec!["app.aaaaaaaaaaaa.js".to_string(), "app.bbbbbbbbbbbb.js".to_string()];
    let text = manifest_text(&names);
    let read = manifest_lines(&text);
    assert_eq!(read, names);
    assert_eq!(check_manifest_lines(&read), Ok(()));
    assert_eq!(manifest_lines(&manifest_text(&vec!["app.cccccccccccc.js".to_string()])), vec!["app.cccccccccccc.js"]);
}

#[test]
fn manifest_rejects_a_line_that_is_not_sidecar_shaped() {
    // A malformed entry (here, a path-traversal attempt) must never reach a
    // caller that joins it onto the root and deletes it.
    let lines = manifest_lines("../secret\n");
    assert_eq!(check_manifest_lines(&lines), Err(ManifestIssue::InvalidEntry { line: 0 }));
}

#[test]
fn manifest_rejects_a_duplicated_entry() {
    let lines = manifest_lines("app.aaaaaaaaaaaa.js\napp.aaaaaaaaaaaa.js\n");
    assert_eq!(check_manifest_lines(&lines), Err(ManifestIssue::Duplicate { line: 1 }));
}

#[test]
fn advancing_twice_by_one_sidecar_changes_nothing() {
    let history = vec![
        "app.aaaaaaaaaaaa.js".to_string(),
        "app.bbbbbbbbbbbb.js".to_string(),
        "app.cccccccccccc.js".to_string(),
    ];
    let once = advance_manifest(history, "app.bbbbbbbbbbbb.js");
    assert_eq!(once, vec!["app.aaaaaaaaaaaa.js", "app.cccccccccccc.js", "app.bbbbbbbbbbbb.js"]);
    let twice = advance_manifest(once.clone(), "app.bbbbbbbbbbbb.js");
    assert_eq!(twice, once);
}
