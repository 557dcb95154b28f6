use canon_builder::freshness::{hash_input_paths, is_compiled_in, source_hash, verify_freshness};
use canon_builder::page::{minify, script_asset, OUTPUT_FILE};
use canon_builder::sidecar::{content_hash, is_app_sidecar, retained_sidecar_ok, sidecar_hash};
use canon_builder::util::{contains_text, decimal};

#[test]
fn source_hash_is_fnv1a_over_path_content_records() {
    // No files: the FNV-1a offset basis itself.
    assert_eq!(source_hash(&vec![]), "cbf29ce484222325");
    let one = source_hash(&vec![(b"a".to_vec(), b"x".to_vec())]);
    assert_eq!(one.len(), 16);
    assert!(one.chars().all(|c| c.is_ascii_digit() || ('a'..='f').contains(&c)));
    let other = source_hash(&vec![(b"a".to_vec(), b"y".to_vec())]);
    assert_ne!(one, other);
}

#[test]
fn freshness_accepts_equal_hashes_and_names_both_otherwise() {
    assert!(verify_freshness("0123456789abcdef", "0123456789abcdef").is_ok());
    let err = verify_freshness("1111111111111111", "2222222222222222").unwrap_err();
    assert_eq!(err.built_from, "2222222222222222");
    assert_eq!(err.checkout, "1111111111111111");
    let msg = err.message();
    assert!(msg.starts_with(
        "this canon-builder binary is stale: it was built from sources hashing 2222222222222222, but the checkout hashes 1111111111111111."
    ));
    assert!(msg.contains("\n  cargo build --profile dist --target x86_64-unknown-linux-musl\n  cp "));
}

#[test]
fn minify_keeps_comments_and_ends_with_a_newline() {
    let out = minify("<!-- PARSE GUIDE -->\n<p>  Hello,   world!  </p>\n\n").unwrap();
    assert!(out.contains("PARSE GUIDE"));
    assert!(out.ends_with('\n'));
    assert!(!out.ends_with("\n\n"));
    assert!(out.len() < 45);
}

#[test]
fn script_asset_is_named_by_its_content_hash() {
    let a = script_asset("console.log(1)");
    assert_eq!(a.content, "console.log(1)");
    assert!(a.name.starts_with("app.") && a.name.ends_with(".js"));
    assert_eq!(a.name.len(), "app.".len() + 12 + ".js".len());
    assert_ne!(script_asset("console.log(2)").name, a.name);
    assert_eq!(OUTPUT_FILE, "index.html");
}

#[test]
fn a_fresh_sidecar_passes_the_retained_sidecar_check() {
    for script in ["", "console.log(1)", "let x = \"é\";"] {
        let a = script_asset(script);
        assert!(is_app_sidecar(&a.name));
        assert_eq!(sidecar_hash(&a.name), content_hash(a.content.as_bytes()));
    }
}

#[test]
fn decimal_and_contains_match_std() {
    for y in [0i64, 7, -7, 1990, -387, i64::MAX, i64::MIN] {
        assert_eq!(decimal(y), y.to_string());
    }
    assert!(contains_text("Plato · -387", "-387"));
    assert!(!contains_text("Author", "1990"));
    assert!(contains_text("x", ""));
}

#[test]
fn hash_inputs_are_the_compiled_in_files_in_path_order() {
    assert!(is_compiled_in("src", "lib.rs"));
    assert!(!is_compiled_in("src", "notes.md"));
    assert!(is_compiled_in("templates", "index.html"));
    assert!(!is_compiled_in("templates", "app.js"));
    assert!(!is_compiled_in("docs", "x.rs"));
    let src: Vec<String> = ["view.rs", "README", "lib.rs", "main.rs"].iter().map(|s| s.to_string()).collect();
    let templates: Vec<String> = ["index.html", "app.js", "card.html"].iter().map(|s| s.to_string()).collect();
    assert_eq!(
        hash_input_paths(&src, &templates),
        vec![
            "Cargo.lock",
            "Cargo.toml",
            "build.rs",
            "src/lib.rs",
            "src/main.rs",
            "src/view.rs",
            "templates/card.html",
            "templates/index.html",
        ]
    );
    assert_eq!(hash_input_paths(&vec![], &vec![]), vec!["Cargo.lock", "Cargo.toml", "build.rs"]);
}

#[test]
fn minify_keeps_classic_inline_scripts_and_still_minifies_css() {
    let out = minify("<script>if(a){b()}</script><style> p  {  color : red ; } </style>").unwrap();
    assert!(out.contains("if(a){b()}"));
    assert!(out.contains("p{color:red}") || out.contains("p{color:red;}"), "{out}");
    assert!(out.ends_with('\n'));
}

#[test]
fn retained_sidecars_are_checked_against_their_own_hash() {
    let content = b"console.log(1)";
    let name = format!("app.{}.js", content_hash(content));
    assert!(retained_sidecar_ok(&name, content));
    assert!(!retained_sidecar_ok(&name, b"console.log(2)"));
    assert!(!retained_sidecar_ok("../secret", content));
    assert!(!retained_sidecar_ok("app.000000000000.js", content));
}
