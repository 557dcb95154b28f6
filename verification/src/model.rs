//! The canon input model: what content authors write.
//!
//! Field names mirror the TOON wire format (`n`, `c`, `s`, …): terse on
//! purpose and documented here once; the view layer turns them into full
//! names.

use vstd::prelude::*;
use crate::util::{str_equal, owned, concat2, concat3};
use crate::text::{slugify, slug_of, lowercase};

verus! {

broadcast use vstd::string::group_string_axioms;

/// The entries of a keyed table as plain values, in table order.
pub type Entries<V> = Seq<(Seq<char>, V)>;

/// No key occurs twice among `entries`.
pub open spec fn keys_distinct<V>(entries: Entries<V>) -> bool {
    forall|i: int, j: int|
        0 <= i < j < entries.len() ==> #[trigger] entries[i].0 != #[trigger] entries[j].0
}

/// The position of `key` among `entries`, if it occurs.
pub open spec fn key_position<V>(entries: Entries<V>, key: Seq<char>) -> Option<int>
    decreases entries.len(),
{
    if entries.len() == 0 {
        None
    } else if entries.last().0 == key {
        Some(entries.len() - 1)
    } else {
        key_position(entries.drop_last(), key)
    }
}

/// The value stored under `key`, if any.
pub open spec fn lookup<V>(entries: Entries<V>, key: Seq<char>) -> Option<V> {
    match key_position(entries, key) {
        Some(i) => Some(entries[i].1),
        None => None,
    }
}

/// Whether `key` is one of the keys of `entries`.
pub open spec fn has_key<V>(entries: Entries<V>, key: Seq<char>) -> bool {
    key_position(entries, key) is Some
}

pub proof fn lemma_key_position<V>(entries: Entries<V>, key: Seq<char>)
    ensures
        key_position(entries, key) matches Some(i) ==> 0 <= i < entries.len() && entries[i].0
            == key,
        key_position(entries, key) is None <==> (forall|i: int|
            0 <= i < entries.len() ==> #[trigger] entries[i].0 != key),
    decreases entries.len(),
{
    if entries.len() > 0 {
        lemma_key_position(entries.drop_last(), key);
        if entries.last().0 != key {
            assert forall|i: int| 0 <= i < entries.len() - 1 implies #[trigger] entries[i].0
                == entries.drop_last()[i].0 by {}
        }
    }
}

/// With distinct keys, the position of a key is the one index holding it.
pub proof fn lemma_key_position_unique<V>(entries: Entries<V>, i: int)
    requires
        keys_distinct(entries),
        0 <= i < entries.len(),
    ensures
        key_position(entries, entries[i].0) == Some(i),
    decreases entries.len(),
{
    if i < entries.len() - 1 {
        assert(entries.drop_last()[i] == entries[i]);
        assert(keys_distinct(entries.drop_last()));
        lemma_key_position_unique(entries.drop_last(), i);
    }
}

/// A table keyed by text, with each key at most once. Entries keep the
/// order in which they were first inserted.
pub struct NameMap<V: View> {
    entries: Vec<(String, V)>,
}

impl<V: View> View for NameMap<V> {
    type V = Entries<V::V>;

    closed spec fn view(&self) -> Entries<V::V> {
        self.entries@.map_values(|e: (String, V)| (e.0@, e.1@))
    }
}

impl<V: View> NameMap<V> {
    #[verifier::type_invariant]
    closed spec fn wf(self) -> bool {
        keys_distinct(self@)
    }

    /// An empty table.
    pub fn new() -> (m: Self)
        ensures
            m@ == Seq::<(Seq<char>, V::V)>::empty(),
    {
        let m = NameMap { entries: Vec::new() };
        assert(m@ =~= Seq::<(Seq<char>, V::V)>::empty());
        m
    }

    /// Number of entries; every table holds each key at most once.
    pub fn len(&self) -> (n: usize)
        ensures
            n == self@.len(),
            keys_distinct(self@),
    {
        proof {
            use_type_invariant(self);
        }
        self.entries.len()
    }

    /// The key and value at position `i`.
    pub fn entry(&self, i: usize) -> (e: (&String, &V))
        requires
            i < self@.len(),
        ensures
            e.0@ == self@[i as int].0,
            e.1@ == self@[i as int].1,
    {
        let e = &self.entries[i];
        (&e.0, &e.1)
    }

    fn position(&self, key: &str) -> (r: Option<usize>)
        ensures
            r matches Some(i) ==> key_position(self@, key@) == Some(i as int),
            r is None ==> key_position(self@, key@) is None,
    {
        let mut i = self.entries.len();
        assert(self@.take(i as int) =~= self@);
        while i > 0
            invariant
                i <= self@.len(),
                self@.len() == self.entries@.len(),
                key_position(self@, key@) == key_position(self@.take(i as int), key@),
            decreases i,
        {
            assert(self@.take(i as int).last() == self@[i - 1]);
            assert(self@.take(i as int).drop_last() == self@.take(i - 1));
            if str_equal(self.entries[i - 1].0.as_str(), key) {
                return Some(i - 1);
            }
            i = i - 1;
        }
        None
    }

    /// The value stored under `key`.
    pub fn get(&self, key: &str) -> (r: Option<&V>)
        ensures
            r matches Some(v) ==> lookup(self@, key@) == Some(v@),
            r is None ==> lookup(self@, key@) is None,
    {
        proof {
            lemma_key_position(self@, key@);
        }
        match self.position(key) {
            Some(i) => Some(&self.entries[i].1),
            None => None,
        }
    }

    /// Whether `key` is present.
    pub fn contains_key(&self, key: &str) -> (r: bool)
        ensures
            r == has_key(self@, key@),
    {
        self.position(key).is_some()
    }

    /// Store `value` under `key`: an existing key keeps its position and
    /// gets the new value, a new key is appended.
    pub fn insert(&mut self, key: String, value: V)
        ensures
            has_key(old(self)@, key@) ==> final(self)@ == old(self)@.update(
                key_position(old(self)@, key@)->0,
                (key@, value@),
            ),
            !has_key(old(self)@, key@) ==> final(self)@ == old(self)@.push((key@, value@)),
    {
        proof {
            use_type_invariant(&*self);
            lemma_key_position(self@, key@);
        }
        match self.position(key.as_str()) {
            Some(i) => {
                let ghost before = self@;
                let mut entries: Vec<(String, V)> = Vec::new();
                std::mem::swap(&mut entries, &mut self.entries);
                assert(entries@.map_values(|e: (String, V)| (e.0@, e.1@)) == before);
                entries.set(i, (key, value));
                assert(entries@.map_values(|e: (String, V)| (e.0@, e.1@)) =~= before.update(
                    i as int,
                    (key@, value@),
                ));
                proof {
                    let after = entries@.map_values(|e: (String, V)| (e.0@, e.1@));
                    assert forall|a: int, b: int| 0 <= a < b < after.len() implies #[trigger] after[a].0
                        != #[trigger] after[b].0 by {
                        assert(before[a].0 != before[b].0);
                    }
                }
                self.entries = entries;
            },
            None => {
                let ghost before = self@;
                let mut entries: Vec<(String, V)> = Vec::new();
                std::mem::swap(&mut entries, &mut self.entries);
                assert(entries@.map_values(|e: (String, V)| (e.0@, e.1@)) == before);
                entries.push((key, value));
                assert(entries@.map_values(|e: (String, V)| (e.0@, e.1@)) =~= before.push(
                    (key@, value@),
                ));
                proof {
                    let after = entries@.map_values(|e: (String, V)| (e.0@, e.1@));
                    assert forall|a: int, b: int| 0 <= a < b < after.len() implies #[trigger] after[a].0
                        != #[trigger] after[b].0 by {
                        if b < before.len() {
                            assert(before[a].0 != before[b].0);
                        } else {
                            assert(before[a].0 != key@);
                        }
                    }
                }
                self.entries = entries;
            },
        }
    }

    /// Remove `key` and hand back its value; the other entries keep their
    /// order.
    pub fn remove(&mut self, key: &str) -> (r: Option<V>)
        ensures
            has_key(old(self)@, key@) ==> r is Some && r->0@ == lookup(old(self)@, key@)->0
                && final(self)@ == old(self)@.remove(key_position(old(self)@, key@)->0),
            !has_key(old(self)@, key@) ==> r is None && final(self)@ == old(self)@,
    {
        proof {
            use_type_invariant(&*self);
            lemma_key_position(self@, key@);
        }
        match self.position(key) {
            Some(i) => {
                let ghost before = self@;
                let mut entries: Vec<(String, V)> = Vec::new();
                std::mem::swap(&mut entries, &mut self.entries);
                assert(entries@.map_values(|e: (String, V)| (e.0@, e.1@)) == before);
                let (_k, v) = entries.remove(i);
                assert(entries@.map_values(|e: (String, V)| (e.0@, e.1@)) =~= before.remove(
                    i as int,
                ));
                proof {
                    let after = entries@.map_values(|e: (String, V)| (e.0@, e.1@));
                    assert forall|a: int, b: int| 0 <= a < b < after.len() implies #[trigger] after[a].0
                        != #[trigger] after[b].0 by {
                        let a2 = if a < i { a } else { a + 1 };
                        let b2 = if b < i { b } else { b + 1 };
                        assert(after[a] == before[a2]);
                        assert(after[b] == before[b2]);
                        assert(before[a2].0 != before[b2].0);
                    }
                }
                self.entries = entries;
                Some(v)
            },
            None => None,
        }
    }
}

/// The decoded canon data.
pub struct Canon {
    /// Ordered category list; drives section and chip order.
    pub cats: Vec<String>,
    /// One intro paragraph per category.
    pub intros: NameMap<String>,
    /// The cards, in page order.
    pub cards: Vec<Card>,
    /// Lineage DAG: card name → year + predecessors.
    pub lineage: NameMap<Lineage>,
}

/// One card as authored.
pub struct Card {
    /// Name.
    pub n: String,
    /// Category (must be one of `cats`).
    pub c: String,
    /// Subgroup heading; consecutive cards sharing one form a grid.
    pub s: String,
    /// Origin line (author · work · year).
    pub o: String,
    /// Optional label override for `u` ("Spot it", "Takeaway", …).
    pub ul: Option<String>,
    /// Optional label override for `w` ("Escape", "Nuance", …).
    pub wl: Option<String>,
    /// Definition.
    pub d: String,
    /// Use-when guidance.
    pub u: String,
    /// Watch-out guidance.
    pub w: String,
    /// Sources: `[label, url]` pairs.
    pub l: Vec<(String, String)>,
}

/// One lineage entry.
pub struct Lineage {
    /// Year; 0 or absence from `lineage` means undated.
    pub y: i64,
    /// Predecessor card names; a `!` prefix means "challenges".
    pub p: Option<Vec<String>>,
}

/// A card as plain values.
pub struct CardModel {
    pub name: Seq<char>,
    pub category: Seq<char>,
    pub subgroup: Seq<char>,
    pub origin: Seq<char>,
    pub use_label: Option<Seq<char>>,
    pub watch_label: Option<Seq<char>>,
    pub definition: Seq<char>,
    pub use_when: Seq<char>,
    pub watch_out: Seq<char>,
    pub links: Seq<(Seq<char>, Seq<char>)>,
}

/// A lineage entry as plain values.
pub struct LineageModel {
    pub year: i64,
    pub preds: Option<Seq<Seq<char>>>,
}

/// The canon as plain values.
pub struct CanonModel {
    pub cats: Seq<Seq<char>>,
    pub intros: Entries<Seq<char>>,
    pub cards: Seq<CardModel>,
    pub lineage: Entries<LineageModel>,
}

pub open spec fn texts(v: Seq<String>) -> Seq<Seq<char>> {
    v.map_values(|s: String| s@)
}

pub open spec fn opt_text(o: Option<String>) -> Option<Seq<char>> {
    match o {
        Some(s) => Some(s@),
        None => None,
    }
}

impl View for Card {
    type V = CardModel;

    open spec fn view(&self) -> CardModel {
        CardModel {
            name: self.n@,
            category: self.c@,
            subgroup: self.s@,
            origin: self.o@,
            use_label: opt_text(self.ul),
            watch_label: opt_text(self.wl),
            definition: self.d@,
            use_when: self.u@,
            watch_out: self.w@,
            links: self.l@.map_values(|p: (String, String)| (p.0@, p.1@)),
        }
    }
}

impl View for Lineage {
    type V = LineageModel;

    open spec fn view(&self) -> LineageModel {
        LineageModel {
            year: self.y,
            preds: match self.p {
                Some(v) => Some(texts(v@)),
                None => None,
            },
        }
    }
}

impl View for Canon {
    type V = CanonModel;

    open spec fn view(&self) -> CanonModel {
        CanonModel {
            cats: texts(self.cats@),
            intros: self.intros@,
            cards: self.cards@.map_values(|c: Card| c@),
            lineage: self.lineage@,
        }
    }
}

/// A label override counts only when it is present and non-empty.
pub open spec fn effective_label(o: Option<Seq<char>>, fallback: Seq<char>) -> Seq<char> {
    match o {
        Some(l) if l.len() > 0 => l,
        _ => fallback,
    }
}

fn label_or<'a>(o: &'a Option<String>, fallback: &'a str) -> (r: &'a str)
    ensures
        r@ == effective_label(opt_text(*o), fallback@),
{
    match o {
        Some(l) => {
            if l.as_str().is_empty() {
                fallback
            } else {
                l.as_str()
            }
        },
        None => fallback,
    }
}

impl Card {
    /// Effective use-when label (an empty override falls back).
    pub fn use_label(&self) -> (r: &str)
        ensures
            r@ == effective_label(self@.use_label, "Use when"@),
    {
        label_or(&self.ul, "Use when")
    }

    /// Effective watch-out label.
    pub fn watch_label(&self) -> (r: &str)
        ensures
            r@ == effective_label(self@.watch_label, "Watch out"@),
    {
        label_or(&self.wl, "Watch out")
    }
}

// ---------------------------------------------------------------------------
// Validation

/// A hard validation failure, as plain values.
pub enum Issue {
    EmptyCategories,
    EmptyCategoryName,
    ReservedCategory,
    DuplicateCategory { category: Seq<char> },
    EmptySlug { card: Seq<char> },
    SlugCollision { first: Seq<char>, second: Seq<char>, slug: Seq<char> },
    UnknownCategory { card: Seq<char>, category: Seq<char> },
    SplitSubgroup { card: Seq<char>, subgroup: Seq<char>, category: Seq<char> },
}

/// Anything that would render a wrong or ambiguous page.
#[derive(Debug)]
pub enum ValidationError {
    /// `cats` is empty.
    EmptyCategories,
    /// A category name is empty.
    EmptyCategoryName,
    /// A category is named "All", which the filter UI reserves.
    ReservedCategory,
    /// A category is listed twice.
    DuplicateCategory { category: String },
    /// A card's name slugifies to nothing.
    EmptySlug { card: String },
    /// Two cards share a slug.
    SlugCollision { first: String, second: String, slug: String },
    /// A card names a category that `cats` lacks.
    UnknownCategory { card: String, category: String },
    /// A card's subgroup already ended earlier in its category: a card of
    /// another subgroup of the category stands between them.
    SplitSubgroup { card: String, subgroup: String, category: String },
}

impl View for ValidationError {
    type V = Issue;

    open spec fn view(&self) -> Issue {
        match self {
            ValidationError::EmptyCategories => Issue::EmptyCategories,
            ValidationError::EmptyCategoryName => Issue::EmptyCategoryName,
            ValidationError::ReservedCategory => Issue::ReservedCategory,
            ValidationError::DuplicateCategory { category } => Issue::DuplicateCategory {
                category: category@,
            },
            ValidationError::EmptySlug { card } => Issue::EmptySlug { card: card@ },
            ValidationError::SlugCollision { first, second, slug } => Issue::SlugCollision {
                first: first@,
                second: second@,
                slug: slug@,
            },
            ValidationError::UnknownCategory { card, category } => Issue::UnknownCategory {
                card: card@,
                category: category@,
            },
            ValidationError::SplitSubgroup { card, subgroup, category } => Issue::SplitSubgroup {
                card: card@,
                subgroup: subgroup@,
                category: category@,
            },
        }
    }
}

pub open spec fn quoted(s: Seq<char>) -> Seq<char> {
    seq!['"'] + s + seq!['"']
}

/// The message each failure is reported with.
pub open spec fn issue_message(i: Issue) -> Seq<char> {
    match i {
        Issue::EmptyCategories => "cats must not be empty"@,
        Issue::EmptyCategoryName => "cats contains an empty category name"@,
        Issue::ReservedCategory => "category name \"All\" is reserved for the filter UI"@,
        Issue::DuplicateCategory { category } => "duplicate category "@ + quoted(category)
            + " in cats"@,
        Issue::EmptySlug { card } => "card "@ + quoted(card) + " produces an empty slug"@,
        Issue::SlugCollision { first, second, slug } => "cards "@ + quoted(first) + " and "@
            + quoted(second) + " collide on slug "@ + quoted(slug),
        Issue::UnknownCategory { card, category } => "card "@ + quoted(card)
            + " has unknown category "@ + quoted(category),
        Issue::SplitSubgroup { card, subgroup, category } => "subgroup "@ + quoted(subgroup)
            + " of category "@ + quoted(category) + " is split: card "@ + quoted(card)
            + " does not follow the earlier cards of its subgroup"@,
    }
}

fn quote(s: &str) -> (r: String)
    ensures
        r@ == quoted(s@),
{
    proof {
        reveal_strlit("\"");
    }
    concat3("\"", s, "\"")
}

impl ValidationError {
    /// The human-readable message.
    pub fn message(&self) -> (r: String)
        ensures
            r@ == issue_message(self@),
    {
        match self {
            ValidationError::EmptyCategories => owned("cats must not be empty"),
            ValidationError::EmptyCategoryName => owned("cats contains an empty category name"),
            ValidationError::ReservedCategory => owned(
                "category name \"All\" is reserved for the filter UI",
            ),
            ValidationError::DuplicateCategory { category } => {
                let q = quote(category.as_str());
                concat3("duplicate category ", q.as_str(), " in cats")
            },
            ValidationError::EmptySlug { card } => {
                let q = quote(card.as_str());
                concat3("card ", q.as_str(), " produces an empty slug")
            },
            ValidationError::SlugCollision { first, second, slug } => {
                let mut r = concat2("cards ", quote(first.as_str()).as_str());
                r.append(" and ");
                r.append(quote(second.as_str()).as_str());
                r.append(" collide on slug ");
                r.append(quote(slug.as_str()).as_str());
                r
            },
            ValidationError::UnknownCategory { card, category } => {
                let mut r = concat2("card ", quote(card.as_str()).as_str());
                r.append(" has unknown category ");
                r.append(quote(category.as_str()).as_str());
                r
            },
            ValidationError::SplitSubgroup { card, subgroup, category } => {
                let mut r = concat2("subgroup ", quote(subgroup.as_str()).as_str());
                r.append(" of category ");
                r.append(quote(category.as_str()).as_str());
                r.append(" is split: card ");
                r.append(quote(card.as_str()).as_str());
                r.append(" does not follow the earlier cards of its subgroup");
                r
            },
        }
    }
}

/// The slug a card name gets.
pub open spec fn name_slug(name: Seq<char>) -> Seq<char> {
    slug_of(lowercase(name))
}

/// The failure category `i` raises, given that the earlier ones passed.
pub open spec fn cat_issue(cats: Seq<Seq<char>>, i: int) -> Option<Issue> {
    if cats[i].len() == 0 {
        Some(Issue::EmptyCategoryName)
    } else if cats[i] == "All"@ {
        Some(Issue::ReservedCategory)
    } else if exists|j: int| 0 <= j < i && cats[j] == cats[i] {
        Some(Issue::DuplicateCategory { category: cats[i] })
    } else {
        None
    }
}

/// The first failure among the first `n` categories.
pub open spec fn first_cat_issue(cats: Seq<Seq<char>>, n: int) -> Option<Issue>
    decreases n,
{
    if n <= 0 {
        None
    } else {
        match first_cat_issue(cats, n - 1) {
            Some(e) => Some(e),
            None => cat_issue(cats, n - 1),
        }
    }
}

proof fn lemma_first_cat_issue_stable(cats: Seq<Seq<char>>, a: int, b: int)
    requires
        0 <= a <= b,
        first_cat_issue(cats, a) is Some,
    ensures
        first_cat_issue(cats, b) == first_cat_issue(cats, a),
    decreases b - a,
{
    if a < b {
        lemma_first_cat_issue_stable(cats, a, b - 1);
    }
}

/// The last card before `k` whose slug is `slug`, if any.
pub open spec fn earlier_with_slug(cards: Seq<CardModel>, k: int, slug: Seq<char>) -> Option<int>
    decreases k,
{
    if k <= 0 {
        None
    } else if name_slug(cards[k - 1].name) == slug {
        Some(k - 1)
    } else {
        earlier_with_slug(cards, k - 1, slug)
    }
}

/// Whether one of the first `t` cards shares card `k`'s category and
/// subgroup.
pub open spec fn same_subgroup_before(cards: Seq<CardModel>, k: int, t: int) -> bool
    decreases t,
{
    t > 0 && (same_subgroup_before(cards, k, t - 1) || (cards[t - 1].category == cards[k].category
        && cards[t - 1].subgroup == cards[k].subgroup))
}

/// Whether, among the first `t` cards, a card of card `k`'s category and
/// subgroup is followed by a card of that category in another subgroup:
/// card `k`'s subgroup run has then ended before it.
pub open spec fn subgroup_broken_before(cards: Seq<CardModel>, k: int, t: int) -> bool
    decreases t,
{
    t > 0 && (subgroup_broken_before(cards, k, t - 1) || (cards[t - 1].category == cards[k].category
        && cards[t - 1].subgroup != cards[k].subgroup && same_subgroup_before(cards, k, t - 1)))
}

/// The failure card `k` raises, given that the earlier ones passed.
pub open spec fn card_issue(c: CanonModel, k: int) -> Option<Issue> {
    let card = c.cards[k];
    let slug = name_slug(card.name);
    if slug.len() == 0 {
        Some(Issue::EmptySlug { card: card.name })
    } else if earlier_with_slug(c.cards, k, slug) is Some {
        Some(
            Issue::SlugCollision {
                first: c.cards[earlier_with_slug(c.cards, k, slug)->0].name,
                second: card.name,
                slug,
            },
        )
    } else if !c.cats.contains(card.category) {
        Some(Issue::UnknownCategory { card: card.name, category: card.category })
    } else if subgroup_broken_before(c.cards, k, k) {
        Some(Issue::SplitSubgroup { card: card.name, subgroup: card.subgroup, category: card.category })
    } else {
        None
    }
}

/// The first failure among the first `n` cards.
pub open spec fn first_card_issue(c: CanonModel, n: int) -> Option<Issue>
    decreases n,
{
    if n <= 0 {
        None
    } else {
        match first_card_issue(c, n - 1) {
            Some(e) => Some(e),
            None => card_issue(c, n - 1),
        }
    }
}

proof fn lemma_first_card_issue_stable(c: CanonModel, a: int, b: int)
    requires
        0 <= a <= b,
        first_card_issue(c, a) is Some,
    ensures
        first_card_issue(c, b) == first_card_issue(c, a),
    decreases b - a,
{
    if a < b {
        lemma_first_card_issue_stable(c, a, b - 1);
    }
}

/// The first hard failure of the canon, in the order the checks run:
/// the category list, then each category, then each card.
pub open spec fn first_issue(c: CanonModel) -> Option<Issue> {
    if c.cats.len() == 0 {
        Some(Issue::EmptyCategories)
    } else {
        match first_cat_issue(c.cats, c.cats.len() as int) {
            Some(e) => Some(e),
            None => first_card_issue(c, c.cards.len() as int),
        }
    }
}

pub open spec fn stray_intro_warning(key: Seq<char>) -> Seq<char> {
    "intros key "@ + quoted(key) + " not in cats"@
}

pub open spec fn missing_intro_warning(cat: Seq<char>) -> Seq<char> {
    "category "@ + quoted(cat) + " has no intro"@
}

/// Warnings for the first `n` intro keys that name no category.
pub open spec fn stray_intro_warnings(c: CanonModel, n: int) -> Seq<Seq<char>>
    decreases n,
{
    if n <= 0 {
        Seq::empty()
    } else {
        let rest = stray_intro_warnings(c, n - 1);
        let key = c.intros[n - 1].0;
        if c.cats.contains(key) {
            rest
        } else {
            rest.push(stray_intro_warning(key))
        }
    }
}

/// Warnings for the first `n` categories that have no intro.
pub open spec fn missing_intro_warnings(c: CanonModel, n: int) -> Seq<Seq<char>>
    decreases n,
{
    if n <= 0 {
        Seq::empty()
    } else {
        let rest = missing_intro_warnings(c, n - 1);
        let cat = c.cats[n - 1];
        if has_key(c.intros, cat) {
            rest
        } else {
            rest.push(missing_intro_warning(cat))
        }
    }
}

/// The soft referential issues: intro keys outside `cats` (in intro order),
/// then categories without an intro (in category order).
pub open spec fn warnings_of(c: CanonModel) -> Seq<Seq<char>> {
    stray_intro_warnings(c, c.intros.len() as int) + missing_intro_warnings(
        c,
        c.cats.len() as int,
    )
}

fn contains_text_in(v: &Vec<String>, key: &str) -> (r: bool)
    ensures
        r == texts(v@).contains(key@),
{
    let mut i: usize = 0;
    while i < v.len()
        invariant
            i <= v@.len(),
            forall|j: int| 0 <= j < i ==> v@[j]@ != key@,
        decreases v@.len() - i,
    {
        if str_equal(v[i].as_str(), key) {
            assert(texts(v@)[i as int] == key@);
            return true;
        }
        i = i + 1;
    }
    assert forall|j: int| 0 <= j < texts(v@).len() implies texts(v@)[j] != key@ by {
        assert(texts(v@)[j] == v@[j]@);
    }
    false
}

fn check_categories(cats: &Vec<String>) -> (r: Option<ValidationError>)
    ensures
        r matches Some(e) ==> first_cat_issue(texts(cats@), cats@.len() as int) == Some(e@),
        r is None ==> first_cat_issue(texts(cats@), cats@.len() as int) is None,
{
    let ghost cs = texts(cats@);
    let mut i: usize = 0;
    while i < cats.len()
        invariant
            i <= cats@.len(),
            cs == texts(cats@),
            first_cat_issue(cs, i as int) is None,
        decreases cats@.len() - i,
    {
        let cat = &cats[i];
        assert(cs[i as int] == cat@);
        if cat.as_str().is_empty() {
            proof {
                lemma_first_cat_issue_stable(cs, i + 1, cats@.len() as int);
            }
            return Some(ValidationError::EmptyCategoryName);
        }
        if str_equal(cat.as_str(), "All") {
            proof {
                lemma_first_cat_issue_stable(cs, i + 1, cats@.len() as int);
            }
            return Some(ValidationError::ReservedCategory);
        }
        let mut j: usize = 0;
        while j < i
            invariant
                j <= i < cats@.len(),
                cs == texts(cats@),
                cs[i as int] == cat@,
                cs[i as int].len() > 0,
                cs[i as int] != "All"@,
                first_cat_issue(cs, i as int) is None,
                forall|q: int| 0 <= q < j ==> cs[q] != cs[i as int],
            decreases i - j,
        {
            assert(cs[j as int] == cats@[j as int]@);
            if str_equal(cats[j].as_str(), cat.as_str()) {
                assert(cs[j as int] == cs[i as int]);
                let dup = cat.clone();
                assert(cat_issue(cs, i as int) == Some(Issue::DuplicateCategory { category: cs[i as int] }));
                assert(first_cat_issue(cs, i + 1) == cat_issue(cs, i as int));
                proof {
                    lemma_first_cat_issue_stable(cs, i + 1, cats@.len() as int);
                }
                return Some(ValidationError::DuplicateCategory { category: dup });
            }
            j = j + 1;
        }
        i = i + 1;
    }
    None
}

fn subgroup_split(c: &Canon, k: usize) -> (r: bool)
    requires
        k < c@.cards.len(),
    ensures
        r == subgroup_broken_before(c@.cards, k as int, k as int),
{
    let ghost cs = c@.cards;
    let card = &c.cards[k];
    assert(cs[k as int] == card@);
    let mut seen = false;
    let mut broken = false;
    let mut t: usize = 0;
    while t < k
        invariant
            t <= k < cs.len(),
            cs == c@.cards,
            cs.len() == c.cards@.len(),
            cs[k as int] == card@,
            seen == same_subgroup_before(cs, k as int, t as int),
            broken == subgroup_broken_before(cs, k as int, t as int),
        decreases k - t,
    {
        let other = &c.cards[t];
        assert(cs[t as int] == other@);
        let same_cat = str_equal(other.c.as_str(), card.c.as_str());
        let same_sub = str_equal(other.s.as_str(), card.s.as_str());
        broken = broken || (same_cat && !same_sub && seen);
        seen = seen || (same_cat && same_sub);
        t = t + 1;
    }
    broken
}

fn check_cards(c: &Canon) -> (r: Option<ValidationError>)
    ensures
        r matches Some(e) ==> first_card_issue(c@, c@.cards.len() as int) == Some(e@),
        r is None ==> first_card_issue(c@, c@.cards.len() as int) is None,
{
    let ghost m = c@;
    let mut slugs: Vec<String> = Vec::new();
    let mut k: usize = 0;
    while k < c.cards.len()
        invariant
            k <= c.cards@.len(),
            m == c@,
            m.cards.len() == c.cards@.len(),
            slugs@.len() == k,
            forall|q: int| 0 <= q < k ==> #[trigger] slugs@[q]@ == name_slug(m.cards[q].name),
            first_card_issue(m, k as int) is None,
        decreases c.cards@.len() - k,
    {
        let card = &c.cards[k];
        assert(m.cards[k as int] == card@);
        let slug = slugify(card.n.as_str());
        if slug.as_str().is_empty() {
            proof {
                lemma_first_card_issue_stable(m, k + 1, m.cards.len() as int);
            }
            return Some(ValidationError::EmptySlug { card: card.n.clone() });
        }
        let mut j: usize = k;
        while j > 0
            invariant
                j <= k,
                k < m.cards.len(),
                m == c@,
                m.cards.len() == c.cards@.len(),
                m.cards[k as int] == card@,
                slug@ == name_slug(card@.name),
                slug@.len() > 0,
                first_card_issue(m, k as int) is None,
                slugs@.len() == k,
                forall|q: int| 0 <= q < k ==> #[trigger] slugs@[q]@ == name_slug(m.cards[q].name),
                earlier_with_slug(m.cards, k as int, slug@) == earlier_with_slug(
                    m.cards,
                    j as int,
                    slug@,
                ),
            decreases j,
        {
            if str_equal(slugs[j - 1].as_str(), slug.as_str()) {
                assert(slugs@[j - 1]@ == name_slug(m.cards[j - 1].name));
                assert(earlier_with_slug(m.cards, j as int, slug@) == Some((j - 1) as int));
                assert(m.cards[j - 1] == c.cards@[j - 1]@);
                proof {
                    lemma_first_card_issue_stable(m, k + 1, m.cards.len() as int);
                }
                let first = c.cards[j - 1].n.clone();
                let second = card.n.clone();
                assert(earlier_with_slug(m.cards, k as int, slug@) == Some((j - 1) as int));
                assert(card_issue(m, k as int) == Some(Issue::SlugCollision { first: first@, second: second@, slug: slug@ }));
                return Some(ValidationError::SlugCollision { first, second, slug });
            }
            j = j - 1;
        }
        if !contains_text_in(&c.cats, card.c.as_str()) {
            proof {
                lemma_first_card_issue_stable(m, k + 1, m.cards.len() as int);
            }
            return Some(
                ValidationError::UnknownCategory { card: card.n.clone(), category: card.c.clone() },
            );
        }
        if subgroup_split(c, k) {
            proof {
                lemma_first_card_issue_stable(m, k + 1, m.cards.len() as int);
            }
            return Some(
                ValidationError::SplitSubgroup {
                    card: card.n.clone(),
                    subgroup: card.s.clone(),
                    category: card.c.clone(),
                },
            );
        }
        slugs.push(slug);
        k = k + 1;
    }
    None
}

/// Structural validation. Anything that would render a wrong or ambiguous
/// page is a hard error (the first one found); soft referential issues come
/// back as warnings.
pub fn validate(canon: &Canon) -> (res: Result<Vec<String>, ValidationError>)
    ensures
        first_issue(canon@) matches Some(e) ==> (res matches Err(err) && err@ == e),
        first_issue(canon@) is None ==> (res matches Ok(w) && texts(w@) == warnings_of(canon@)),
{
    if canon.cats.len() == 0 {
        return Err(ValidationError::EmptyCategories);
    }
    if let Some(e) = check_categories(&canon.cats) {
        return Err(e);
    }
    if let Some(e) = check_cards(canon) {
        return Err(e);
    }
    let ghost m = canon@;
    let mut warnings: Vec<String> = Vec::new();
    let n = canon.intros.len();
    let mut i: usize = 0;
    while i < n
        invariant
            i <= n,
            n == m.intros.len(),
            m == canon@,
            texts(warnings@) == stray_intro_warnings(m, i as int),
        decreases n - i,
    {
        let (key, _) = canon.intros.entry(i);
        if !contains_text_in(&canon.cats, key.as_str()) {
            let q = quote(key.as_str());
            let msg = concat3("intros key ", q.as_str(), " not in cats");
            warnings.push(msg);
            assert(texts(warnings@) =~= stray_intro_warnings(m, i as int).push(msg@));
        }
        i = i + 1;
    }
    let ghost stray = texts(warnings@);
    let mut j: usize = 0;
    while j < canon.cats.len()
        invariant
            j <= canon.cats@.len(),
            m == canon@,
            stray == stray_intro_warnings(m, m.intros.len() as int),
            texts(warnings@) == stray + missing_intro_warnings(m, j as int),
        decreases canon.cats@.len() - j,
    {
        let cat = &canon.cats[j];
        assert(m.cats[j as int] == cat@);
        if !canon.intros.contains_key(cat.as_str()) {
            let q = quote(cat.as_str());
            let msg = concat3("category ", q.as_str(), " has no intro");
            let ghost old_w = warnings;
            warnings.push(msg);
            assert(texts(warnings@) =~= texts(old_w@).push(msg@));
            assert(missing_intro_warnings(m, j + 1) == missing_intro_warnings(m, j as int).push(msg@));
            assert(texts(warnings@) =~= stray + missing_intro_warnings(m, j as int).push(msg@));
        }
        j = j + 1;
    }
    Ok(warnings)
}

} // verus!
