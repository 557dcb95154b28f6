use canon_builder::model::{Canon, Card, Lineage, NameMap, ValidationError, validate};

fn card(n: &str, c: &str) -> Card {
    Card {
        n: n.into(),
        c: c.into(),
        s: "S".into(),
        o: "O".into(),
        ul: None,
        wl: None,
        d: "D".into(),
        u: "U".into(),
        w: "W".into(),
        l: vec![],
    }
}

fn canon(cats: &[&str], cards: Vec<Card>) -> Canon {
    let mut intros = NameMap::new();
    for s in cats {
        intros.insert(s.to_string(), format!("{s} intro"));
    }
    Canon {
        cats: cats.iter().map(|s| s.to_string()).collect(),
        intros,
        cards,
        lineage: NameMap::new(),
    }
}

#[test]
fn accepts_well_formed_data() {
    let c = canon(&["A"], vec![card("One", "A")]);
    assert!(validate(&c).unwrap().is_empty());
}

#[test]
fn rejects_reserved_and_duplicate_categories() {
    assert!(validate(&canon(&["All"], vec![])).is_err());
    assert!(validate(&canon(&["A", "A"], vec![])).is_err());
    assert!(validate(&canon(&[""], vec![])).is_err());
}

#[test]
fn rejects_slug_collisions_and_unknown_categories() {
    // Same name modulo punctuation → same slug.
    let c = canon(&["A"], vec![card("Foo Bar", "A"), card("Foo, Bar!", "A")]);
    assert!(validate(&c).unwrap_err().message().contains("collide"));
    let c = canon(&["A"], vec![card("One", "B")]);
    assert!(
        validate(&c)
            .unwrap_err()
            .message()
            .contains("unknown category")
    );
}

#[test]
fn warns_on_intro_mismatches() {
    let mut c = canon(&["A"], vec![card("One", "A")]);
    c.intros.insert("Ghost".into(), "x".into());
    c.intros.remove("A");
    let warnings = validate(&c).unwrap();
    assert_eq!(warnings.len(), 2);
    assert!(warnings.iter().any(|w| w.contains("Ghost")));
    assert!(warnings.iter().any(|w| w.contains("no intro")));
}

#[test]
fn label_overrides_fall_back_when_empty() {
    let mut one = card("One", "A");
    assert_eq!(one.use_label(), "Use when");
    one.ul = Some(String::new());
    assert_eq!(one.use_label(), "Use when");
    one.ul = Some("Spot it".into());
    assert_eq!(one.use_label(), "Spot it");
    assert_eq!(one.watch_label(), "Watch out");
    one.wl = Some("Nuance".into());
    assert_eq!(one.watch_label(), "Nuance");
}

#[test]
fn each_validation_error_has_its_message() {
    let err = validate(&canon(&[], vec![])).unwrap_err();
    assert!(matches!(err, ValidationError::EmptyCategories));
    assert_eq!(err.message(), "cats must not be empty");

    let err = validate(&canon(&[""], vec![])).unwrap_err();
    assert_eq!(err.message(), "cats contains an empty category name");

    let err = validate(&canon(&["All"], vec![])).unwrap_err();
    assert_eq!(err.message(), "category name \"All\" is reserved for the filter UI");

    let err = validate(&canon(&["A", "B", "A"], vec![])).unwrap_err();
    assert_eq!(err.message(), "duplicate category \"A\" in cats");

    let err = validate(&canon(&["A"], vec![card("!!!", "A")])).unwrap_err();
    assert_eq!(err.message(), "card \"!!!\" produces an empty slug");

    let err = validate(&canon(&["A"], vec![card("Foo Bar", "A"), card("One", "A"), card("foo-bar", "A")]))
        .unwrap_err();
    assert_eq!(err.message(), "cards \"Foo Bar\" and \"foo-bar\" collide on slug \"foo-bar\"");

    let err = validate(&canon(&["A"], vec![card("One", "B")])).unwrap_err();
    assert_eq!(err.message(), "card \"One\" has unknown category \"B\"");
}

#[test]
fn checks_run_categories_first_then_cards_in_order() {
    // A bad category wins over a bad card; the first bad card wins over later ones.
    let err = validate(&canon(&["A", "A"], vec![card("!!!", "A")])).unwrap_err();
    assert!(matches!(err, ValidationError::DuplicateCategory { .. }));
    let err = validate(&canon(&["A"], vec![card("One", "Z"), card("", "A")])).unwrap_err();
    assert!(matches!(err, ValidationError::UnknownCategory { .. }));
}

#[test]
fn warnings_have_their_exact_text() {
    let mut c = canon(&["A", "B"], vec![card("One", "A")]);
    c.intros.remove("B");
    c.intros.insert("Ghost".into(), "x".into());
    let warnings = validate(&c).unwrap();
    assert_eq!(
        warnings,
        vec![
            "intros key \"Ghost\" not in cats".to_string(),
            "category \"B\" has no intro".to_string(),
        ]
    );
}

#[test]
fn name_map_keeps_each_key_once() {
    let mut m: NameMap<Lineage> = NameMap::new();
    m.insert("a".into(), Lineage { y: 1, p: None });
    m.insert("b".into(), Lineage { y: 2, p: None });
    m.insert("a".into(), Lineage { y: 3, p: None });
    assert_eq!(m.len(), 2);
    assert_eq!(m.get("a").map(|l| l.y), Some(3));
    assert_eq!(m.entry(0).0, "a");
    assert!(m.contains_key("b"));
    assert_eq!(m.remove("b").map(|l| l.y), Some(2));
    assert!(!m.contains_key("b"));
    assert!(m.remove("b").is_none());
    assert_eq!(m.len(), 1);
}

fn card_in(n: &str, c: &str, s: &str) -> Card {
    let mut k = card(n, c);
    k.s = s.into();
    k
}

#[test]
fn rejects_a_subgroup_split_within_its_category() {
    let c = canon(
        &["A"],
        vec![card_in("One", "A", "X"), card_in("Two", "A", "Y"), card_in("Three", "A", "X")],
    );
    let err = validate(&c).unwrap_err();
    assert!(matches!(err, ValidationError::SplitSubgroup { .. }));
    assert_eq!(
        err.message(),
        "subgroup \"X\" of category \"A\" is split: card \"Three\" does not follow the earlier cards of its subgroup"
    );
    // The same subgroup name in another category, or runs in other
    // categories interleaved, is no split.
    let c = canon(
        &["A", "B"],
        vec![
            card_in("One", "A", "X"),
            card_in("Two", "B", "Y"),
            card_in("Three", "A", "X"),
            card_in("Four", "B", "X"),
        ],
    );
    assert!(validate(&c).is_ok());
}
