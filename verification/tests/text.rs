use canon_builder::text::{char_class, collate_key, slugify, slugify_lowercased};

#[test]
fn slugs_match_the_historical_js_slugify() {
    // Vectors checked against the old page's slugify() in a JS engine.
    let cases = [
        (
            "Single Responsibility Principle",
            "single-responsibility-principle",
        ),
        (
            "DRY: Don\u{2019}t Repeat Yourself",
            "dry-dont-repeat-yourself",
        ),
        ("Open\u{2013}Closed Principle", "open-closed-principle"),
        (
            "\u{201c}select\u{201d} Isn\u{2019}t Broken",
            "select-isnt-broken",
        ),
        ("Di\u{e1}taxis", "di-taxis"), // á is outside [a-z0-9] and becomes a dash
        (
            "Model\u{2013}View\u{2013}Controller",
            "model-view-controller",
        ),
        ("CQRS", "cqrs"),
        ("NASA\u{2019}s Power of 10", "nasas-power-of-10"),
        ("Gateway, Remote Facade & DTO", "gateway-remote-facade-dto"),
    ];
    for (name, slug) in cases {
        assert_eq!(slugify(name), slug, "slug for {name:?}");
    }
}

#[test]
fn collation_puts_punctuation_before_letters_like_icu() {
    // “select” sorts before DRY because “ (punctuation) outranks letters.
    assert!(collate_key("\u{201c}select\u{201d} Isn\u{2019}t Broken") < collate_key("DRY"));
}

#[test]
fn collation_treats_space_as_lowest_class() {
    assert!(collate_key("design by contract") < collate_key("designer"));
}

#[test]
fn collation_folds_diacritics_onto_base_letters() {
    let eclair = collate_key("\u{c9}clair");
    assert!(
        collate_key("Earlier") < eclair,
        "É collates with E: after 'ea…'"
    );
    assert!(
        eclair < collate_key("Event Sourcing"),
        "…and before 'ev…', not after Z"
    );
    assert!(
        eclair < collate_key("Zulu"),
        "never past the end of the alphabet"
    );
}

#[test]
fn collation_is_case_insensitive_at_primary_strength() {
    assert_eq!(collate_key("KISS").0, collate_key("kiss").0);
}

#[test]
fn slug_of_a_slug_is_itself() {
    for name in ["Single Responsibility Principle", "  --Hello,,  World!!  ", "a1b2", ""] {
        let slug = slugify(name);
        assert_eq!(slugify(&slug), slug);
        assert!(!slug.starts_with('-') && !slug.ends_with('-') && !slug.contains("--"));
        assert!(slug.chars().all(|c| c.is_ascii_lowercase() || c.is_ascii_digit() || c == '-'));
    }
}

#[test]
fn slugify_lowercases_before_stripping() {
    // Uppercase letters survive only through the lowercase step.
    assert_eq!(slugify("ABC Def"), "abc-def");
    assert_eq!(slugify_lowercased("ABC def"), "def");
    assert_eq!(slugify("(x)"), "x");
    assert_eq!(slugify("???"), "");
}

#[test]
fn char_classes_order_space_punctuation_digits_letters() {
    assert_eq!(char_class(' '), 1);
    assert_eq!(char_class('\u{2003}'), 1);
    assert_eq!(char_class('-'), 2);
    assert_eq!(char_class('7'), 3);
    assert_eq!(char_class('\u{2167}'), 3); // Roman numeral eight
    assert_eq!(char_class('q'), 4);
    assert_eq!(char_class('\u{e9}'), 4);
}

#[test]
fn collate_key_drops_combining_marks_and_keeps_the_raw_name() {
    let (primary, raw) = collate_key("\u{c9}t\u{e9}");
    assert_eq!(primary, vec![(4, 'e'), (4, 't'), (4, 'e')]);
    assert_eq!(raw, "\u{c9}t\u{e9}");
}

#[test]
fn char_classes_follow_the_icu_primary_order() {
    assert_eq!(char_class(' '), 1);
    assert_eq!(char_class('\u{3000}'), 1);
    assert_eq!(char_class('\t'), 1);
    assert_eq!(char_class('\u{201c}'), 2);
    assert_eq!(char_class('7'), 3);
    assert_eq!(char_class('é'), 4);
    for c in ['\u{85}', '\u{a0}', '\u{1680}', '\u{2000}', '\u{200a}', '\u{2028}', '\u{2029}', '\u{202f}', '\u{205f}'] {
        assert_eq!(char_class(c), 1, "{c:?}");
        assert!(c.is_whitespace());
    }
    assert!(!'\u{200b}'.is_whitespace());
    assert_eq!(char_class('\u{200b}'), 2);
}
