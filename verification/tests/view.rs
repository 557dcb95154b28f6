use canon_builder::escape::{escape_lt, guard_inline_script};
use canon_builder::model::{Canon, Card, Lineage, NameMap};
use canon_builder::view::{group_by_category, subgroup_runs, Derived, CARD_PREFIX};
use canon_builder::graph::lineage_graph;

fn card(n: &str, c: &str, s: &str, o: &str) -> Card {
    Card {
        n: n.into(),
        c: c.into(),
        s: s.into(),
        o: o.into(),
        ul: None,
        wl: None,
        d: "D".into(),
        u: "U".into(),
        w: "W".into(),
        l: vec![],
    }
}

fn lineage(y: i64, p: &[&str]) -> Lineage {
    Lineage {
        y,
        p: Some(p.iter().map(|s| s.to_string()).collect()),
    }
}

fn fixture() -> Canon {
    let mut intros = NameMap::new();
    intros.insert("Alpha".into(), "A intro".into());
    let mut lin = NameMap::new();
    lin.insert("One".into(), lineage(1990, &[]));
    lin.insert("Two".into(), lineage(1994, &["One", "!Ghost"]));
    lin.insert("Four".into(), lineage(2001, &["!Two", "One"]));
    lin.insert("Orphan Z".into(), lineage(1970, &[]));
    lin.insert("Orphan A".into(), lineage(1971, &[]));
    Canon {
        cats: vec!["Alpha".into(), "Beta".into()],
        intros,
        cards: vec![
            card("One", "Alpha", "First", "Author · 1990"),
            card("Two", "Alpha", "First", "Author · 1994"),
            card("Three", "Alpha", "Second", "Author"),
            card("Four", "Beta", "Only", "Author · 2001"),
        ],
        lineage: lin,
    }
}

fn derived() -> Derived {
    canon_builder::view::derive(&fixture(), "js".into())
}

#[test]
fn edges_follow_card_then_predecessor_order() {
    let d = derived();
    // Targets in card order (Two, then Four), predecessors in p order.
    let blob: serde_json::Value = serde_json::from_str(&d.page.edge_json).unwrap();
    let edges: Vec<Vec<serde_json::Value>> =
        serde_json::from_value(blob["edges"].clone()).unwrap();
    assert_eq!(
        edges,
        vec![
            vec!["one".into(), "two".into(), serde_json::Value::from(0)],
            vec!["two".into(), "four".into(), serde_json::Value::from(1)],
            vec!["one".into(), "four".into(), serde_json::Value::from(0)],
        ]
    );
    assert_eq!(d.edges, 3);
}

#[test]
fn misses_are_deterministic_sorted_orphans_then_stripped_edge_misses() {
    let d = derived();
    let blob: serde_json::Value = serde_json::from_str(&d.page.edge_json).unwrap();
    let misses: Vec<String> = serde_json::from_value(blob["misses"].clone()).unwrap();
    // Orphan keys sorted first; the "!" prefix is stripped from edge misses.
    assert_eq!(misses, vec!["key:Orphan A", "key:Orphan Z", "Two -> Ghost"]);
    assert_eq!(
        d.warnings,
        vec![
            "lineage miss: key:Orphan A",
            "lineage miss: key:Orphan Z",
            "lineage miss: Two -> Ghost"
        ]
    );
}

#[test]
fn cross_reference_groups_cover_both_directions() {
    let d = derived();
    let one = &d.page.sections[0].groups[0].cards[0];
    assert_eq!(one.name, "One");
    let labels: Vec<&str> = one.groups.iter().map(|g| g.label).collect();
    assert_eq!(labels, vec!["Leads to"]); // One → Two, One → Four (both plain)
    assert_eq!(one.groups[0].refs.len(), 2);
    let four = &d.page.sections[1].groups[0].cards[0];
    let labels: Vec<&str> = four.groups.iter().map(|g| g.label).collect();
    assert_eq!(labels, vec!["Builds on", "Challenges"]);
    assert_eq!(four.groups[1].refs[0].name, "Two");
}

#[test]
fn subgroup_runs_split_only_on_change() {
    let d = derived();
    let alpha = &d.page.sections[0];
    let subs: Vec<&str> = alpha.groups.iter().map(|g| g.subhead.as_str()).collect();
    assert_eq!(subs, vec!["First", "Second"]);
    assert_eq!(alpha.groups[0].cards.len(), 2);
}

#[test]
fn decades_floor_years_and_treat_zero_as_undated() {
    let mut canon = fixture();
    canon
        .cards
        .push(card("Ancient", "Beta", "Only", "Plato · -387"));
    canon.cards.push(card("Timeless", "Beta", "Only", "Nobody"));
    canon.lineage.insert("Ancient".into(), lineage(-387, &[]));
    canon.lineage.insert("Timeless".into(), lineage(0, &[]));
    let d = canon_builder::view::derive(&canon, String::new());
    let labels: Vec<&str> = d.page.decades.iter().map(|d| d.label.as_str()).collect();
    assert_eq!(
        labels,
        vec![
            "-390s",
            "1990s",
            "2000s",
            "Undated · folklore & standing practice"
        ]
    );
    let undated = d.page.decades.last().unwrap();
    assert!(undated.rows.iter().any(|r| r.name == "Timeless"));
    // Ancient's origin contains "-387"? "Plato · -387" does contain it.
    assert_eq!(d.page.decades[0].rows[0].year_label, "-387");
}

#[test]
fn year_label_shown_only_when_origin_mentions_it() {
    let d = derived();
    let rows: Vec<(String, String)> = d
        .page
        .decades
        .iter()
        .flat_map(|dec| {
            dec.rows
                .iter()
                .map(|r| (r.name.clone(), r.year_label.clone()))
        })
        .collect();
    assert!(rows.contains(&("One".into(), "1990".into())));
    assert!(rows.contains(&("Three".into(), String::new()))); // undated
}

#[test]
fn chips_count_every_category_even_when_sections_skip_empties() {
    let mut canon = fixture();
    canon.cats.push("Empty".into());
    let d = canon_builder::view::derive(&canon, String::new());
    assert_eq!(d.page.chips.len(), 3);
    assert_eq!(d.page.chips[2].count, 0);
    assert_eq!(d.page.sections.len(), 2); // Empty renders no section
}

#[test]
fn inline_script_and_edge_json_cannot_break_out_of_their_tags() {
    let guarded = guard_inline_script("alert('</script><script>')".into());
    assert!(!guarded.contains("</script"));
    assert_eq!(guarded, "alert('<\\/script><script>')");
    // The HTML parser is case-insensitive, so the guard must be too.
    let mixed = guard_inline_script("x = '</ScRiPt>' + '</SCRIPT>'".into());
    assert_eq!(mixed, "x = '<\\/ScRiPt>' + '<\\/SCRIPT>'");
    let d = canon_builder::view::derive(&fixture(), String::new());
    assert!(!d.page.edge_json.contains('<'));
}

#[test]
fn page_totals_prefix_and_script() {
    let d = canon_builder::view::derive(&fixture(), "if (a </script> b) {}".into());
    assert_eq!(d.page.total, 4);
    assert_eq!(d.page.card_prefix, "card-");
    assert_eq!(CARD_PREFIX, "card-");
    assert_eq!(d.page.script, "if (a <\\/script> b) {}");
    assert_eq!(d.page.chips[0].category, "Alpha");
    assert_eq!(d.page.chips[0].count, 3);
    assert_eq!(d.page.chips[1].count, 1);
    assert_eq!(d.page.sections[0].intro, "A intro");
    assert_eq!(d.page.sections[1].intro, "");
}

#[test]
fn card_views_carry_ids_labels_links_and_both_directions() {
    let mut canon = fixture();
    canon.cards[0].l = vec![("Book".into(), "https://example.org/b".into())];
    canon.cards[0].ul = Some("Spot it".into());
    let d = canon_builder::view::derive(&canon, String::new());
    let one = &d.page.sections[0].groups[0].cards[0];
    assert_eq!(one.id, "one");
    assert_eq!(one.use_label, "Spot it");
    assert_eq!(one.watch_label, "Watch out");
    assert_eq!(one.links.len(), 1);
    assert_eq!(one.links[0].label, "Book");
    assert_eq!(one.links[0].url, "https://example.org/b");
    assert_eq!(one.groups[0].refs[0].id, "two");
    assert_eq!(one.groups[0].refs[1].id, "four");
    let two = &d.page.sections[0].groups[0].cards[1];
    let labels: Vec<&str> = two.groups.iter().map(|g| g.label).collect();
    assert_eq!(labels, vec!["Builds on", "Challenged by"]);
    assert!(two.groups[1].challenges);
    assert_eq!(two.groups[1].refs[0].name, "Four");
}

#[test]
fn same_year_rows_follow_collation_and_undated_rows_come_last() {
    let mut canon = fixture();
    canon.cards.push(card("\u{c9}clair", "Beta", "Only", "x 1994"));
    canon.cards.push(card("design by contract", "Beta", "Only", "y"));
    canon.cards.push(card("designer", "Beta", "Only", "z"));
    canon.lineage.insert("\u{c9}clair".into(), lineage(1994, &[]));
    let d = canon_builder::view::derive(&canon, String::new());
    let nineties: Vec<&str> = d.page.decades[0].rows.iter().map(|r| r.name.as_str()).collect();
    assert_eq!(nineties, vec!["One", "\u{c9}clair", "Two"]);
    let undated = d.page.decades.last().unwrap();
    assert_eq!(undated.label, "Undated · folklore & standing practice");
    let names: Vec<&str> = undated.rows.iter().map(|r| r.name.as_str()).collect();
    assert_eq!(names, vec!["design by contract", "designer", "Three"]);
}

#[test]
fn json_escape_replaces_every_lt() {
    assert_eq!(escape_lt("{\"a\":\"<b>\"}"), "{\"a\":\"\\u003cb>\"}");
    let mut canon = fixture();
    canon.lineage.insert("<Orphan>".into(), lineage(1, &[]));
    let d = canon_builder::view::derive(&canon, String::new());
    assert!(!d.page.edge_json.contains('<'));
    let blob: serde_json::Value = serde_json::from_str(&d.page.edge_json).unwrap();
    assert_eq!(blob["misses"][0], serde_json::Value::from("key:<Orphan>"));
}

#[test]
fn two_builds_of_one_canon_agree() {
    let mut canon = fixture();
    // Two dated cards in one year, to exercise the collation order.
    canon.cards.push(card("Alpha Zed", "Beta", "Only", "X · 1994"));
    canon.lineage.insert("Alpha Zed".into(), lineage(1994, &[]));
    let a = canon_builder::view::derive(&canon, "js".into());
    let b = canon_builder::view::derive(&canon, "js".into());
    let rows = |d: &Derived| -> Vec<(String, Vec<String>)> {
        d.page
            .decades
            .iter()
            .map(|x| (x.label.clone(), x.rows.iter().map(|r| r.id.clone()).collect()))
            .collect()
    };
    assert_eq!(rows(&a), rows(&b));
    assert_eq!(
        rows(&a)[0],
        (
            "1990s".to_string(),
            vec!["one".to_string(), "alpha-zed".to_string(), "two".to_string()]
        )
    );
    assert_eq!(a.page.edge_json, b.page.edge_json);
    assert_eq!(a.warnings, b.warnings);
}

#[test]
fn lineage_graph_lists_sorted_orphan_keys_then_edge_misses() {
    let c = fixture();
    let (years, preds, misses) = lineage_graph(&c);
    assert_eq!(years, vec![Some(1990), Some(1994), None, Some(2001)]);
    assert_eq!(preds, vec![vec![], vec![(0, false)], vec![], vec![(1, true), (0, false)]]);
    assert_eq!(misses, vec!["key:Orphan A", "key:Orphan Z", "Two -> Ghost"]);
}

#[test]
fn grouping_by_category_and_subgroup_runs() {
    let mut c = fixture();
    c.cards.push(card("Five", "Alpha", "Second", "Author"));
    let by_cat = group_by_category(&c);
    assert_eq!(by_cat, vec![vec![0, 1, 2, 4], vec![3]]);
    assert_eq!(subgroup_runs(&c, &by_cat[0]), vec![vec![0, 1], vec![2, 4]]);
    assert_eq!(subgroup_runs(&c, &vec![]), Vec::<Vec<usize>>::new());
}

#[test]
fn guarding_adds_one_char_per_end_tag() {
    let s = "a</Script>b</script c<\\/x";
    let g = guard_inline_script(s.to_string());
    assert_eq!(g.len(), s.len() + 2);
    assert_eq!(g.replace("<\\/", "</"), s.replace("<\\/", "</"));
    assert_eq!(g, "a<\\/Script>b<\\/script c<\\/x");
}

#[test]
fn an_orphan_key_may_hold_any_year() {
    let mut c = fixture();
    c.lineage.insert("Orphan Min".into(), lineage(i64::MIN, &[]));
    let d = canon_builder::view::derive(&c, String::new());
    assert_eq!(d.warnings[0], "lineage miss: key:Orphan A");
    assert_eq!(d.warnings[1], "lineage miss: key:Orphan Min");
}
