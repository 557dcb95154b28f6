//! Derivation of the page's view model from the canon data: card views with
//! their cross-references, category sections with subgroup runs, filter
//! chips, the decade-grouped chronology, and the edge-data JSON.

use vstd::prelude::*;
use crate::model::{Canon, CanonModel, CardModel, same_subgroup_before, subgroup_broken_before, name_slug, effective_label, texts, lookup, first_issue, first_card_issue, card_issue, first_cat_issue, cat_issue, earlier_with_slug};
use crate::graph::{lineage_graph, preds_of, pairs_view, year_of};
use crate::text::{slugify, collate_key, primary_of, nfkd, lowercase, slug_of};
use crate::order::{SortKey, sort_rows, sorted_by, before, lex_lt, lemma_lex_order, lemma_sorted_unique, lemma_sorted_distinct, raw_weights, weights_of};
use crate::util::{decimal, decimal_of, digits_of, occurs_at, contains_text, contains_seq, concat2};
use crate::util::{owned, str_equal};
use crate::graph::{orphan_keys, misses_with, sorted_orphans};
use crate::escape::{escape_lt, escape_lt_of, guard_inline_script, guard_of};

verus! {

broadcast use vstd::string::group_string_axioms;

/// The anchor namespace of card ids: templates consume it as the page's
/// card prefix, and the page script reads it back.
pub const CARD_PREFIX: &'static str = "card-";

pub struct Chip {
    pub category: String,
    pub count: usize,
}

pub struct Link {
    pub label: String,
    pub url: String,
}

pub struct Reference {
    pub id: String,
    pub name: String,
}

pub struct LineageGroup {
    pub label: &'static str,
    pub challenges: bool,
    pub refs: Vec<Reference>,
}

pub struct CardView {
    pub id: String,
    pub name: String,
    pub category: String,
    pub origin: String,
    pub definition: String,
    pub use_when: String,
    pub watch_out: String,
    pub use_label: String,
    pub watch_label: String,
    pub links: Vec<Link>,
    pub groups: Vec<LineageGroup>,
}

pub struct Group {
    pub subhead: String,
    pub cards: Vec<CardView>,
}

pub struct Section {
    pub category: String,
    pub intro: String,
    pub groups: Vec<Group>,
}

pub struct Row {
    pub id: String,
    pub year_label: String,
    pub name: String,
    pub category: String,
}

pub struct Decade {
    pub label: String,
    pub rows: Vec<Row>,
}

pub struct Page {
    pub total: usize,
    pub card_prefix: &'static str,
    pub chips: Vec<Chip>,
    pub sections: Vec<Section>,
    pub decades: Vec<Decade>,
    pub edge_json: String,
    pub script: String,
}

pub struct Derived {
    pub page: Page,
    pub warnings: Vec<String>,
    pub edges: usize,
}

// ---------------------------------------------------------------------------
// Plain-value models of the view types

pub struct RefModel {
    pub id: Seq<char>,
    pub name: Seq<char>,
}

pub struct LineageGroupModel {
    pub label: Seq<char>,
    pub challenges: bool,
    pub refs: Seq<RefModel>,
}

pub struct CardViewModel {
    pub id: Seq<char>,
    pub name: Seq<char>,
    pub category: Seq<char>,
    pub origin: Seq<char>,
    pub definition: Seq<char>,
    pub use_when: Seq<char>,
    pub watch_out: Seq<char>,
    pub use_label: Seq<char>,
    pub watch_label: Seq<char>,
    pub links: Seq<(Seq<char>, Seq<char>)>,
    pub groups: Seq<LineageGroupModel>,
}

impl View for Reference {
    type V = RefModel;

    open spec fn view(&self) -> RefModel {
        RefModel { id: self.id@, name: self.name@ }
    }
}

impl View for LineageGroup {
    type V = LineageGroupModel;

    open spec fn view(&self) -> LineageGroupModel {
        LineageGroupModel {
            label: self.label@,
            challenges: self.challenges,
            refs: self.refs@.map_values(|r: Reference| r@),
        }
    }
}

impl View for CardView {
    type V = CardViewModel;

    open spec fn view(&self) -> CardViewModel {
        CardViewModel {
            id: self.id@,
            name: self.name@,
            category: self.category@,
            origin: self.origin@,
            definition: self.definition@,
            use_when: self.use_when@,
            watch_out: self.watch_out@,
            use_label: self.use_label@,
            watch_label: self.watch_label@,
            links: self.links@.map_values(|l: Link| (l.label@, l.url@)),
            groups: self.groups@.map_values(|g: LineageGroup| g@),
        }
    }
}

// ---------------------------------------------------------------------------
// Cross-references

/// The anchor id of card `k`.
pub open spec fn card_id(c: CanonModel, k: int) -> Seq<char> {
    name_slug(c.cards[k].name)
}

pub open spec fn ref_model(c: CanonModel, k: int) -> RefModel {
    RefModel { id: card_id(c, k), name: c.cards[k].name }
}

/// References to the cards of `pairs` whose challenge flag is `ch`, in order.
pub open spec fn refs_with(c: CanonModel, pairs: Seq<(int, bool)>, ch: bool) -> Seq<RefModel>
    decreases pairs.len(),
{
    if pairs.len() == 0 {
        Seq::empty()
    } else {
        let rest = refs_with(c, pairs.drop_last(), ch);
        if pairs.last().1 == ch {
            rest.push(ref_model(c, pairs.last().0))
        } else {
            rest
        }
    }
}

/// `(t, challenges)` for each pair of `ps` whose source is `s`.
pub open spec fn incoming(ps: Seq<(int, bool)>, s: int, t: int) -> Seq<(int, bool)>
    decreases ps.len(),
{
    if ps.len() == 0 {
        Seq::empty()
    } else {
        let rest = incoming(ps.drop_last(), s, t);
        if ps.last().0 == s {
            rest.push((t, ps.last().1))
        } else {
            rest
        }
    }
}

/// The cards among the first `t` that build on or challenge card `s`, in
/// target order then predecessor order.
pub open spec fn outs_upto(c: CanonModel, s: int, t: int) -> Seq<(int, bool)>
    decreases t,
{
    if t <= 0 {
        Seq::empty()
    } else {
        outs_upto(c, s, t - 1) + incoming(preds_of(c, t - 1), s, t - 1)
    }
}

/// The cards that build on or challenge card `s`.
pub open spec fn outs_of(c: CanonModel, s: int) -> Seq<(int, bool)> {
    outs_upto(c, s, c.cards.len() as int)
}

/// A cross-reference group, present only when it has references.
pub open spec fn group_if_any(label: Seq<char>, ch: bool, refs: Seq<RefModel>) -> Seq<LineageGroupModel> {
    if refs.len() > 0 {
        seq![LineageGroupModel { label, challenges: ch, refs }]
    } else {
        Seq::empty()
    }
}

/// The four cross-reference groups of card `i`, in display order, empty
/// ones left out.
pub open spec fn lineage_groups(c: CanonModel, i: int) -> Seq<LineageGroupModel> {
    group_if_any("Builds on"@, false, refs_with(c, preds_of(c, i), false)) + group_if_any(
        "Challenges"@,
        true,
        refs_with(c, preds_of(c, i), true),
    ) + group_if_any("Leads to"@, false, refs_with(c, outs_of(c, i), false)) + group_if_any(
        "Challenged by"@,
        true,
        refs_with(c, outs_of(c, i), true),
    )
}

/// The view of card `i`.
pub open spec fn card_view_of(c: CanonModel, i: int) -> CardViewModel {
    let card = c.cards[i];
    CardViewModel {
        id: card_id(c, i),
        name: card.name,
        category: card.category,
        origin: card.origin,
        definition: card.definition,
        use_when: card.use_when,
        watch_out: card.watch_out,
        use_label: effective_label(card.use_label, "Use when"@),
        watch_label: effective_label(card.watch_label, "Watch out"@),
        links: card.links,
        groups: lineage_groups(c, i),
    }
}

pub proof fn lemma_preds_in_range(c: CanonModel, ps: Seq<Seq<char>>)
    ensures
        forall|q: int| 0 <= q < crate::graph::resolved(c, ps).len() ==> 0 <= (#[trigger] crate::graph::resolved(c, ps)[q]).0 < c.cards.len(),
    decreases ps.len(),
{
    if ps.len() > 0 {
        lemma_preds_in_range(c, ps.drop_last());
        let (ch, name) = crate::graph::parse_pred(ps.last());
        crate::graph::lemma_last_named(c.cards, c.cards.len() as int, name);
        let r = crate::graph::resolved(c, ps);
        let rest = crate::graph::resolved(c, ps.drop_last());
        assert forall|q: int| 0 <= q < r.len() implies 0 <= (#[trigger] r[q]).0 < c.cards.len() by {
            if q < rest.len() {
                assert(r[q] == rest[q]);
            }
        }
    }
}

/// The facts that the view builders take from the graph computation.
pub open spec fn graph_facts(c: CanonModel, ids: Seq<String>, preds: Seq<Vec<(usize, bool)>>) -> bool {
    &&& ids.len() == c.cards.len()
    &&& preds.len() == c.cards.len()
    &&& forall|k: int| 0 <= k < c.cards.len() ==> (#[trigger] ids[k])@ == card_id(c, k)
    &&& forall|k: int| 0 <= k < c.cards.len() ==> pairs_view((#[trigger] preds[k])@) == preds_of(c, k)
    &&& forall|k: int, q: int| 0 <= k < c.cards.len() && 0 <= q < preds[k]@.len() ==> (#[trigger] preds[k]@[q]).0 < c.cards.len()
}

fn card_ids(canon: &Canon) -> (ids: Vec<String>)
    ensures
        ids@.len() == canon@.cards.len(),
        forall|k: int| 0 <= k < canon@.cards.len() ==> (#[trigger] ids@[k])@ == card_id(canon@, k),
{
    let mut ids: Vec<String> = Vec::new();
    let mut k: usize = 0;
    while k < canon.cards.len()
        invariant
            k <= canon.cards@.len(),
            canon@.cards.len() == canon.cards@.len(),
            ids@.len() == k,
            forall|q: int| 0 <= q < k ==> (#[trigger] ids@[q])@ == card_id(canon@, q),
        decreases canon.cards@.len() - k,
    {
        assert(canon@.cards[k as int] == canon.cards@[k as int]@);
        ids.push(slugify(canon.cards[k].n.as_str()));
        k = k + 1;
    }
    ids
}

fn incoming_exec(ps: &Vec<(usize, bool)>, s: usize, t: usize, out: &mut Vec<(usize, bool)>)
    ensures
        pairs_view(final(out)@) == pairs_view(old(out)@) + incoming(pairs_view(ps@), s as int, t as int),
{
    let ghost start = pairs_view(out@);
    let mut q: usize = 0;
    while q < ps.len()
        invariant
            q <= ps@.len(),
            pairs_view(out@) == start + incoming(pairs_view(ps@).take(q as int), s as int, t as int),
        decreases ps@.len() - q,
    {
        assert(pairs_view(ps@).take(q + 1).drop_last() == pairs_view(ps@).take(q as int));
        assert(pairs_view(ps@).take(q + 1).last() == (ps@[q as int].0 as int, ps@[q as int].1));
        let (src, ch) = ps[q];
        if src == s {
            let ghost before = out@;
            out.push((t, ch));
            assert(pairs_view(out@) =~= pairs_view(before).push((t as int, ch)));
        }
        q = q + 1;
    }
    assert(pairs_view(ps@).take(ps@.len() as int) == pairs_view(ps@));
}

fn outs_exec(canon: &Canon, preds: &Vec<Vec<(usize, bool)>>, s: usize) -> (res: Vec<(usize, bool)>)
    requires
        preds@.len() == canon@.cards.len(),
        forall|k: int| 0 <= k < canon@.cards.len() ==> pairs_view((#[trigger] preds@[k])@) == preds_of(canon@, k),
    ensures
        pairs_view(res@) == outs_of(canon@, s as int),
        forall|q: int| 0 <= q < res@.len() ==> (#[trigger] res@[q]).0 < canon@.cards.len(),
{
    let mut out: Vec<(usize, bool)> = Vec::new();
    let mut t: usize = 0;
    assert(pairs_view(out@) =~= outs_upto(canon@, s as int, 0));
    while t < preds.len()
        invariant
            t <= preds@.len(),
            preds@.len() == canon@.cards.len(),
            forall|k: int| 0 <= k < canon@.cards.len() ==> pairs_view((#[trigger] preds@[k])@) == preds_of(canon@, k),
            pairs_view(out@) == outs_upto(canon@, s as int, t as int),
            forall|q: int| 0 <= q < out@.len() ==> (#[trigger] out@[q]).0 < t,
        decreases preds@.len() - t,
    {
        let ghost before = out@;
        incoming_exec(&preds[t], s, t, &mut out);
        proof {
            let inc = incoming(pairs_view(preds@[t as int]@), s as int, t as int);
            lemma_incoming_targets(pairs_view(preds@[t as int]@), s as int, t as int);
            assert(pairs_view(out@) == pairs_view(before) + inc);
            assert(pairs_view(out@).len() == out@.len());
            assert(pairs_view(before).len() == before.len());
            assert forall|q: int| 0 <= q < out@.len() implies (#[trigger] out@[q]).0 < t + 1 by {
                assert(pairs_view(out@)[q] == (out@[q].0 as int, out@[q].1));
                if q >= before.len() {
                    assert((pairs_view(before) + inc)[q] == inc[q - before.len()]);
                } else {
                    assert(pairs_view(before)[q] == (before[q].0 as int, before[q].1));
                    assert((pairs_view(before) + inc)[q] == pairs_view(before)[q]);
                }
            }
        }
        t = t + 1;
    }
    out
}

proof fn lemma_incoming_targets(ps: Seq<(int, bool)>, s: int, t: int)
    ensures
        forall|q: int| 0 <= q < incoming(ps, s, t).len() ==> (#[trigger] incoming(ps, s, t)[q]).0 == t,
    decreases ps.len(),
{
    if ps.len() > 0 {
        lemma_incoming_targets(ps.drop_last(), s, t);
        let r = incoming(ps, s, t);
        let rest = incoming(ps.drop_last(), s, t);
        assert forall|q: int| 0 <= q < r.len() implies (#[trigger] r[q]).0 == t by {
            if q < rest.len() {
                assert(r[q] == rest[q]);
            }
        }
    }
}

fn refs_exec(canon: &Canon, ids: &Vec<String>, pairs: &Vec<(usize, bool)>, ch: bool) -> (res: Vec<Reference>)
    requires
        ids@.len() == canon@.cards.len(),
        forall|k: int| 0 <= k < canon@.cards.len() ==> (#[trigger] ids@[k])@ == card_id(canon@, k),
        forall|q: int| 0 <= q < pairs@.len() ==> (#[trigger] pairs@[q]).0 < canon@.cards.len(),
    ensures
        res@.map_values(|r: Reference| r@) == refs_with(canon@, pairs_view(pairs@), ch),
{
    let ghost c = canon@;
    let mut out: Vec<Reference> = Vec::new();
    let mut q: usize = 0;
    while q < pairs.len()
        invariant
            q <= pairs@.len(),
            c == canon@,
            ids@.len() == c.cards.len(),
            c.cards.len() == canon.cards@.len(),
            forall|k: int| 0 <= k < c.cards.len() ==> (#[trigger] ids@[k])@ == card_id(c, k),
            forall|x: int| 0 <= x < pairs@.len() ==> (#[trigger] pairs@[x]).0 < c.cards.len(),
            out@.map_values(|r: Reference| r@) == refs_with(c, pairs_view(pairs@).take(q as int), ch),
        decreases pairs@.len() - q,
    {
        assert(pairs_view(pairs@).take(q + 1).drop_last() == pairs_view(pairs@).take(q as int));
        assert(pairs_view(pairs@).take(q + 1).last() == (pairs@[q as int].0 as int, pairs@[q as int].1));
        let (k, x) = pairs[q];
        if x == ch {
            assert(c.cards[k as int] == canon.cards@[k as int]@);
            let r = Reference { id: ids[k].clone(), name: canon.cards[k].n.clone() };
            let ghost before = out@;
            out.push(r);
            assert(out@.map_values(|r: Reference| r@) =~= before.map_values(|r: Reference| r@).push(ref_model(c, k as int)));
        }
        q = q + 1;
    }
    assert(pairs_view(pairs@).take(pairs@.len() as int) == pairs_view(pairs@));
    out
}

fn push_group(groups: &mut Vec<LineageGroup>, label: &'static str, ch: bool, refs: Vec<Reference>)
    ensures
        final(groups)@.map_values(|g: LineageGroup| g@) == old(groups)@.map_values(|g: LineageGroup| g@)
            + group_if_any(label@, ch, refs@.map_values(|r: Reference| r@)),
{
    if refs.len() > 0 {
        let g = LineageGroup { label, challenges: ch, refs };
        let ghost before = groups@;
        groups.push(g);
        assert(groups@.map_values(|g: LineageGroup| g@) =~= before.map_values(|g: LineageGroup| g@).push(g@));
    } else {
        assert(old(groups)@.map_values(|g: LineageGroup| g@) + group_if_any(label@, ch, refs@.map_values(|r: Reference| r@))
            =~= old(groups)@.map_values(|g: LineageGroup| g@));
    }
}

fn links_exec(l: &Vec<(String, String)>) -> (res: Vec<Link>)
    ensures
        res@.map_values(|x: Link| (x.label@, x.url@)) == l@.map_values(|p: (String, String)| (p.0@, p.1@)),
{
    let mut out: Vec<Link> = Vec::new();
    let mut q: usize = 0;
    while q < l.len()
        invariant
            q <= l@.len(),
            out@.map_values(|x: Link| (x.label@, x.url@)) == l@.take(q as int).map_values(|p: (String, String)| (p.0@, p.1@)),
        decreases l@.len() - q,
    {
        let ghost before = out@;
        let link = Link { label: l[q].0.clone(), url: l[q].1.clone() };
        assert((link.label@, link.url@) == (l@[q as int].0@, l@[q as int].1@));
        out.push(link);
        assert(l@.take(q + 1) == l@.take(q as int).push(l@[q as int]));
        assert(out@.map_values(|x: Link| (x.label@, x.url@)) =~= before.map_values(|x: Link| (x.label@, x.url@)).push((link.label@, link.url@)));
        assert(out@.map_values(|x: Link| (x.label@, x.url@)) =~= l@.take(q + 1).map_values(|p: (String, String)| (p.0@, p.1@)));
        q = q + 1;
    }
    assert(l@.take(l@.len() as int) == l@);
    out
}

fn card_view(canon: &Canon, ids: &Vec<String>, preds: &Vec<Vec<(usize, bool)>>, i: usize) -> (res: CardView)
    requires
        i < canon@.cards.len(),
        graph_facts(canon@, ids@, preds@),
    ensures
        res@ == card_view_of(canon@, i as int),
{
    let ghost c = canon@;
    let card = &canon.cards[i];
    assert(c.cards[i as int] == card@);
    let outs = outs_exec(canon, preds, i);
    let mut groups: Vec<LineageGroup> = Vec::new();
    let b = refs_exec(canon, ids, &preds[i], false);
    push_group(&mut groups, "Builds on", false, b);
    let ch = refs_exec(canon, ids, &preds[i], true);
    push_group(&mut groups, "Challenges", true, ch);
    let l = refs_exec(canon, ids, &outs, false);
    push_group(&mut groups, "Leads to", false, l);
    let cb = refs_exec(canon, ids, &outs, true);
    push_group(&mut groups, "Challenged by", true, cb);
    assert(groups@.map_values(|g: LineageGroup| g@) =~= lineage_groups(c, i as int));
    CardView {
        id: ids[i].clone(),
        name: card.n.clone(),
        category: card.c.clone(),
        origin: card.o.clone(),
        definition: card.d.clone(),
        use_when: card.u.clone(),
        watch_out: card.w.clone(),
        use_label: owned(card.use_label()),
        watch_label: owned(card.watch_label()),
        links: links_exec(&card.l),
        groups,
    }
}

// ---------------------------------------------------------------------------
// Sections, subgroup runs and chips

pub struct GroupModel {
    pub subhead: Seq<char>,
    pub cards: Seq<CardViewModel>,
}

pub struct SectionModel {
    pub category: Seq<char>,
    pub intro: Seq<char>,
    pub groups: Seq<GroupModel>,
}

pub struct ChipModel {
    pub category: Seq<char>,
    pub count: nat,
}

impl View for Group {
    type V = GroupModel;

    open spec fn view(&self) -> GroupModel {
        GroupModel { subhead: self.subhead@, cards: self.cards@.map_values(|v: CardView| v@) }
    }
}

impl View for Section {
    type V = SectionModel;

    open spec fn view(&self) -> SectionModel {
        SectionModel {
            category: self.category@,
            intro: self.intro@,
            groups: self.groups@.map_values(|g: Group| g@),
        }
    }
}

impl View for Chip {
    type V = ChipModel;

    open spec fn view(&self) -> ChipModel {
        ChipModel { category: self.category@, count: self.count as nat }
    }
}

/// The last of the first `n` categories equal to `cat`, or -1 (a map from
/// category to position built in list order holds the last one).
pub open spec fn cat_slot(cats: Seq<Seq<char>>, n: int, cat: Seq<char>) -> int
    decreases n,
{
    if n <= 0 {
        -1
    } else if cats[n - 1] == cat {
        n - 1
    } else {
        cat_slot(cats, n - 1, cat)
    }
}

/// The category position card `k` is filed under, or -1.
pub open spec fn slot_of_card(c: CanonModel, k: int) -> int {
    cat_slot(c.cats, c.cats.len() as int, c.cards[k].category)
}

/// The first `n` cards filed under category `j`, in canon order.
pub open spec fn members_upto(c: CanonModel, j: int, n: int) -> Seq<usize>
    decreases n,
{
    if n <= 0 {
        Seq::empty()
    } else if slot_of_card(c, n - 1) == j {
        members_upto(c, j, n - 1).push((n - 1) as usize)
    } else {
        members_upto(c, j, n - 1)
    }
}

/// The cards of category `j`, in canon order.
pub open spec fn members(c: CanonModel, j: int) -> Seq<usize> {
    members_upto(c, j, c.cards.len() as int)
}

/// Maximal runs of consecutive items sharing a key.
pub open spec fn chunk_runs<K>(items: Seq<usize>, key: spec_fn(usize) -> K) -> Seq<Seq<usize>>
    decreases items.len(),
{
    if items.len() == 0 {
        Seq::empty()
    } else {
        let runs = chunk_runs(items.drop_last(), key);
        let x = items.last();
        if runs.len() > 0 && key(runs.last().last()) == key(x) {
            runs.update(runs.len() - 1, runs.last().push(x))
        } else {
            runs.push(seq![x])
        }
    }
}

/// The subgroup heading of a card.
pub open spec fn subgroup_key(c: CanonModel) -> spec_fn(usize) -> Seq<char> {
    |k: usize| c.cards[k as int].subgroup
}

pub open spec fn group_of_run(c: CanonModel, run: Seq<usize>) -> GroupModel {
    GroupModel {
        subhead: c.cards[run[0] as int].subgroup,
        cards: run.map_values(|k: usize| card_view_of(c, k as int)),
    }
}

/// The subgroup grids of a list of cards.
pub open spec fn groups_of(c: CanonModel, items: Seq<usize>) -> Seq<GroupModel> {
    chunk_runs(items, subgroup_key(c)).map_values(|run: Seq<usize>| group_of_run(c, run))
}

pub open spec fn intro_of(c: CanonModel, cat: Seq<char>) -> Seq<char> {
    match lookup(c.intros, cat) {
        Some(t) => t,
        None => Seq::empty(),
    }
}

pub open spec fn section_of(c: CanonModel, j: int) -> SectionModel {
    SectionModel {
        category: c.cats[j],
        intro: intro_of(c, c.cats[j]),
        groups: groups_of(c, members(c, j)),
    }
}

/// Sections of the first `n` categories; a category without cards has none.
pub open spec fn sections_upto(c: CanonModel, n: int) -> Seq<SectionModel>
    decreases n,
{
    if n <= 0 {
        Seq::empty()
    } else if members(c, n - 1).len() > 0 {
        sections_upto(c, n - 1).push(section_of(c, n - 1))
    } else {
        sections_upto(c, n - 1)
    }
}

/// One chip per category, counting its cards (zero included).
pub open spec fn chips_of(c: CanonModel) -> Seq<ChipModel> {
    Seq::new(c.cats.len(), |j: int| ChipModel { category: c.cats[j], count: members(c, j).len() })
}

proof fn lemma_cat_slot(cats: Seq<Seq<char>>, n: int, cat: Seq<char>)
    requires
        0 <= n <= cats.len(),
    ensures
        -1 <= cat_slot(cats, n, cat) < n,
    decreases n,
{
    if n > 0 {
        lemma_cat_slot(cats, n - 1, cat);
    }
}

fn slot_exec(cats: &Vec<String>, cat: &str) -> (r: Option<usize>)
    ensures
        r matches Some(j) ==> j as int == cat_slot(texts(cats@), cats@.len() as int, cat@),
        r is None ==> cat_slot(texts(cats@), cats@.len() as int, cat@) == -1,
{
    let ghost cs = texts(cats@);
    let mut j = cats.len();
    while j > 0
        invariant
            j <= cats@.len(),
            cs == texts(cats@),
            cat_slot(cs, cats@.len() as int, cat@) == cat_slot(cs, j as int, cat@),
        decreases j,
    {
        assert(cs[j - 1] == cats@[j - 1]@);
        if str_equal(cats[j - 1].as_str(), cat) {
            return Some(j - 1);
        }
        j = j - 1;
    }
    None
}

/// Card positions per category, in canon order: the one place category
/// membership is computed (sections and chips both reuse it).
pub fn group_by_category(canon: &Canon) -> (res: Vec<Vec<usize>>)
    ensures
        res@.len() == canon@.cats.len(),
        forall|j: int| 0 <= j < canon@.cats.len() ==> (#[trigger] res@[j])@ == members(canon@, j),
{
    let ghost c = canon@;
    let mut slots: Vec<Option<usize>> = Vec::new();
    let mut k: usize = 0;
    while k < canon.cards.len()
        invariant
            k <= canon.cards@.len(),
            c == canon@,
            c.cards.len() == canon.cards@.len(),
            slots@.len() == k,
            forall|q: int| 0 <= q < k ==> match #[trigger] slots@[q] {
                Some(j) => j as int == slot_of_card(c, q),
                None => slot_of_card(c, q) == -1,
            },
        decreases canon.cards@.len() - k,
    {
        assert(c.cards[k as int] == canon.cards@[k as int]@);
        slots.push(slot_exec(&canon.cats, canon.cards[k].c.as_str()));
        k = k + 1;
    }
    let mut res: Vec<Vec<usize>> = Vec::new();
    let mut j: usize = 0;
    while j < canon.cats.len()
        invariant
            j <= canon.cats@.len(),
            c == canon@,
            c.cats.len() == canon.cats@.len(),
            c.cards.len() == slots@.len(),
            forall|q: int| 0 <= q < slots@.len() ==> match #[trigger] slots@[q] {
                Some(j) => j as int == slot_of_card(c, q),
                None => slot_of_card(c, q) == -1,
            },
            res@.len() == j,
            forall|x: int| 0 <= x < j ==> (#[trigger] res@[x])@ == members(c, x),
        decreases canon.cats@.len() - j,
    {
        let mut mine: Vec<usize> = Vec::new();
        let mut q: usize = 0;
        while q < slots.len()
            invariant
                q <= slots@.len(),
                c.cards.len() == slots@.len(),
                forall|q: int| 0 <= q < slots@.len() ==> match #[trigger] slots@[q] {
                    Some(j) => j as int == slot_of_card(c, q),
                    None => slot_of_card(c, q) == -1,
                },
                mine@ == members_upto(c, j as int, q as int),
            decreases slots@.len() - q,
        {
            match slots[q] {
                Some(x) => {
                    if x == j {
                        mine.push(q);
                    }
                },
                None => {},
            }
            q = q + 1;
        }
        res.push(mine);
        j = j + 1;
    }
    res
}

/// Consecutive cards sharing a subgroup form one run (one grid under one
/// subhead).
pub fn subgroup_runs(canon: &Canon, items: &Vec<usize>) -> (runs: Vec<Vec<usize>>)
    requires
        forall|q: int| 0 <= q < items@.len() ==> (#[trigger] items@[q]) < canon@.cards.len(),
    ensures
        runs@.map_values(|r: Vec<usize>| r@) == chunk_runs(items@, subgroup_key(canon@)),
        runs@.map_values(|r: Vec<usize>| r@).flatten() == items@,
        forall|r: int| 0 <= r < runs@.len() ==> (#[trigger] runs@[r])@.len() > 0,
        forall|r: int, a: int| 0 <= r < runs@.len() && 0 <= a < runs@[r]@.len()
            ==> canon@.cards[(#[trigger] runs@[r]@[a]) as int].subgroup == canon@.cards[runs@[r]@[0] as int].subgroup,
        forall|r: int| 0 <= r < runs@.len() - 1 ==> canon@.cards[(#[trigger] runs@[r])@.last() as int].subgroup
            != canon@.cards[runs@[r + 1]@[0] as int].subgroup,
{
    let runs = subgroup_chunks(canon, items);
    proof {
        let key = subgroup_key(canon@);
        let m = runs@.map_values(|r: Vec<usize>| r@);
        lemma_runs_partition(items@, key);
        assert forall|r: int| 0 <= r < runs@.len() implies (#[trigger] runs@[r])@.len() > 0 by {
            assert(m[r] == runs@[r]@);
        }
        assert forall|r: int, a: int| 0 <= r < runs@.len() && 0 <= a < runs@[r]@.len()
            implies canon@.cards[(#[trigger] runs@[r]@[a]) as int].subgroup == canon@.cards[runs@[r]@[0] as int].subgroup by {
            assert(m[r] == runs@[r]@);
            assert(key(m[r][a]) == key(m[r][0]));
        }
        assert forall|r: int| 0 <= r < runs@.len() - 1 implies canon@.cards[(#[trigger] runs@[r])@.last() as int].subgroup
            != canon@.cards[runs@[r + 1]@[0] as int].subgroup by {
            assert(m[r] == runs@[r]@);
            assert(m[r + 1] == runs@[r + 1]@);
            assert(key(m[r].last()) != key(m[r + 1][0]));
        }
    }
    runs
}

fn subgroup_chunks(canon: &Canon, items: &Vec<usize>) -> (runs: Vec<Vec<usize>>)
    requires
        forall|q: int| 0 <= q < items@.len() ==> (#[trigger] items@[q]) < canon@.cards.len(),
    ensures
        runs@.map_values(|r: Vec<usize>| r@) == chunk_runs(items@, subgroup_key(canon@)),
{
    let ghost c = canon@;
    let ghost key = subgroup_key(c);
    let mut runs: Vec<Vec<usize>> = Vec::new();
    let mut cur: Vec<usize> = Vec::new();
    let mut q: usize = 0;
    while q < items.len()
        invariant
            q <= items@.len(),
            c == canon@,
            key == subgroup_key(c),
            c.cards.len() == canon.cards@.len(),
            forall|x: int| 0 <= x < items@.len() ==> (#[trigger] items@[x]) < c.cards.len(),
            q == 0 <==> cur@.len() == 0,
            q > 0 ==> runs@.map_values(|r: Vec<usize>| r@).push(cur@) == chunk_runs(items@.take(q as int), key),
            q > 0 ==> cur@.last() == items@[q - 1],
            q == 0 ==> runs@.len() == 0,
        decreases items@.len() - q,
    {
        let x = items[q];
        assert(items@.take(q + 1).drop_last() == items@.take(q as int));
        assert(items@.take(q + 1).last() == x);
        let ghost prev = runs@.map_values(|r: Vec<usize>| r@).push(cur@);
        if cur.len() > 0 && str_equal(canon.cards[cur[cur.len() - 1]].s.as_str(), canon.cards[x].s.as_str()) {
            assert(c.cards[cur@.last() as int] == canon.cards@[cur@.last() as int]@);
            assert(c.cards[x as int] == canon.cards@[x as int]@);
            cur.push(x);
            assert(runs@.map_values(|r: Vec<usize>| r@).push(cur@) =~= prev.update(prev.len() - 1, prev.last().push(x)));
        } else {
            let ghost old_cur = cur@;
            proof {
                if q == 0 {
                    assert(items@.take(0) =~= Seq::<usize>::empty());
                    assert(chunk_runs(items@.take(0), key).len() == 0);
                    assert(chunk_runs(items@.take(q + 1), key) =~= seq![seq![x]]);
                } else {
                    assert(c.cards[cur@.last() as int] == canon.cards@[cur@.last() as int]@);
                    assert(c.cards[x as int] == canon.cards@[x as int]@);
                    assert(key(old_cur.last()) != key(x));
                    assert(prev.last() == old_cur);
                    assert(chunk_runs(items@.take(q + 1), key) == prev.push(seq![x]));
                }
            }
            if cur.len() > 0 {
                let done = cur;
                runs.push(done);
                cur = Vec::new();
            }
            cur.push(x);
            assert(cur@ =~= seq![x]);
            assert(runs@.map_values(|r: Vec<usize>| r@).push(cur@) =~= chunk_runs(items@.take(q + 1), key));
        }
        q = q + 1;
    }
    if cur.len() > 0 {
        runs.push(cur);
    }
    assert(items@.take(items@.len() as int) == items@);
    runs
}

/// Runs partition the items: concatenated they give the items back, every
/// run is non-empty, all items of a run share the key, and neighbouring
/// runs differ in key (runs split only on change).
pub proof fn lemma_runs_partition<K>(items: Seq<usize>, key: spec_fn(usize) -> K)
    ensures
        chunk_runs(items, key).flatten() == items,
        forall|r: int| 0 <= r < chunk_runs(items, key).len() ==> (#[trigger] chunk_runs(items, key)[r]).len() > 0,
        forall|r: int, a: int|
            0 <= r < chunk_runs(items, key).len() && 0 <= a < chunk_runs(items, key)[r].len() ==> key(
                #[trigger] chunk_runs(items, key)[r][a],
            ) == key(chunk_runs(items, key)[r][0]),
        forall|r: int|
            0 <= r < chunk_runs(items, key).len() - 1 ==> key((#[trigger] chunk_runs(items, key)[r]).last()) != key(
                chunk_runs(items, key)[r + 1][0],
            ),
    decreases items.len(),
{
    broadcast use Seq::lemma_flatten_push;

    let runs = chunk_runs(items, key);
    if items.len() == 0 {
        assert(runs.len() == 0);
    } else {
        let prev = chunk_runs(items.drop_last(), key);
        let x = items.last();
        lemma_runs_partition(items.drop_last(), key);
        if prev.len() > 0 && key(prev.last().last()) == key(x) {
            let last = prev.last().push(x);
            assert(prev == prev.drop_last().push(prev.last()));
            assert(runs == prev.drop_last().push(last));
            assert(prev.drop_last().push(last).flatten() == prev.drop_last().flatten() + last);
            assert(prev.drop_last().push(prev.last()).flatten() == prev.drop_last().flatten() + prev.last());
            assert(runs.flatten() =~= prev.flatten().push(x));
            assert(items =~= items.drop_last().push(x));
            assert forall|r: int, a: int| 0 <= r < runs.len() && 0 <= a < runs[r].len() implies key(
                #[trigger] runs[r][a],
            ) == key(runs[r][0]) by {
                if r < prev.len() - 1 {
                    assert(runs[r] == prev[r]);
                } else if a < prev.last().len() {
                    assert(runs[r][a] == prev[r][a]);
                    assert(runs[r][0] == prev[r][0]);
                } else {
                    assert(runs[r][0] == prev[r][0]);
                    assert(key(prev[r][prev[r].len() - 1]) == key(prev[r][0]));
                }
            }
            assert forall|r: int| 0 <= r < runs.len() - 1 implies key((#[trigger] runs[r]).last()) != key(
                runs[r + 1][0],
            ) by {
                assert(runs[r] == prev[r]);
                if r + 1 < prev.len() - 1 {
                    assert(runs[r + 1] == prev[r + 1]);
                } else {
                    assert(runs[r + 1][0] == prev[r + 1][0]);
                }
            }
        } else {
            assert(runs == prev.push(seq![x]));
            assert(runs.flatten() == prev.flatten() + seq![x]);
            assert(items =~= items.drop_last() + seq![x]);
            assert forall|r: int, a: int| 0 <= r < runs.len() && 0 <= a < runs[r].len() implies key(
                #[trigger] runs[r][a],
            ) == key(runs[r][0]) by {
                if r < prev.len() {
                    assert(runs[r] == prev[r]);
                }
            }
            assert forall|r: int| 0 <= r < runs.len() - 1 implies key((#[trigger] runs[r]).last()) != key(
                runs[r + 1][0],
            ) by {
                assert(runs[r] == prev[r]);
                if r + 1 < prev.len() {
                    assert(runs[r + 1] == prev[r + 1]);
                }
            }
        }
    }
}

proof fn lemma_runs_bounded<K>(items: Seq<usize>, key: spec_fn(usize) -> K, bound: int)
    requires
        forall|q: int| 0 <= q < items.len() ==> (#[trigger] items[q]) < bound,
    ensures
        forall|r: int, a: int|
            0 <= r < chunk_runs(items, key).len() && 0 <= a < chunk_runs(items, key)[r].len() ==> #[trigger] chunk_runs(
                items,
                key,
            )[r][a] < bound,
    decreases items.len(),
{
    if items.len() > 0 {
        let runs = chunk_runs(items, key);
        let prev = chunk_runs(items.drop_last(), key);
        lemma_runs_bounded(items.drop_last(), key, bound);
        assert forall|r: int, a: int| 0 <= r < runs.len() && 0 <= a < runs[r].len() implies #[trigger] runs[r][a]
            < bound by {
            if r < prev.len() && a < prev[r].len() {
                assert(runs[r][a] == prev[r][a]);
            } else {
                assert(runs[r][a] == items.last());
            }
        }
    }
}

fn build_groups(canon: &Canon, ids: &Vec<String>, preds: &Vec<Vec<(usize, bool)>>, items: &Vec<usize>) -> (res: Vec<Group>)
    requires
        graph_facts(canon@, ids@, preds@),
        forall|q: int| 0 <= q < items@.len() ==> (#[trigger] items@[q]) < canon@.cards.len(),
    ensures
        res@.map_values(|g: Group| g@) == groups_of(canon@, items@),
{
    let ghost c = canon@;
    let runs = subgroup_runs(canon, items);
    proof {
        lemma_runs_partition(items@, subgroup_key(c));
        lemma_runs_bounded(items@, subgroup_key(c), c.cards.len() as int);
    }
    let ghost rv = runs@.map_values(|r: Vec<usize>| r@);
    let mut out: Vec<Group> = Vec::new();
    let mut r: usize = 0;
    while r < runs.len()
        invariant
            r <= runs@.len(),
            c == canon@,
            graph_facts(c, ids@, preds@),
            c.cards.len() == canon.cards@.len(),
            rv == runs@.map_values(|r: Vec<usize>| r@),
            rv == chunk_runs(items@, subgroup_key(c)),
            forall|x: int| 0 <= x < rv.len() ==> (#[trigger] rv[x]).len() > 0,
            forall|x: int, a: int| 0 <= x < rv.len() && 0 <= a < rv[x].len() ==> #[trigger] rv[x][a] < c.cards.len(),
            out@.map_values(|g: Group| g@) == rv.take(r as int).map_values(|run: Seq<usize>| group_of_run(c, run)),
        decreases runs@.len() - r,
    {
        let run = &runs[r];
        assert(rv[r as int] == run@);
        let mut cards: Vec<CardView> = Vec::new();
        let mut a: usize = 0;
        while a < run.len()
            invariant
                a <= run@.len(),
                c == canon@,
                graph_facts(c, ids@, preds@),
                forall|q: int| 0 <= q < run@.len() ==> #[trigger] run@[q] < c.cards.len(),
                cards@.map_values(|v: CardView| v@) == run@.take(a as int).map_values(|k: usize| card_view_of(c, k as int)),
            decreases run@.len() - a,
        {
            let v = card_view(canon, ids, preds, run[a]);
            let ghost before = cards@;
            cards.push(v);
            assert(run@.take(a + 1) == run@.take(a as int).push(run@[a as int]));
            assert(cards@.map_values(|v: CardView| v@) =~= before.map_values(|v: CardView| v@).push(v@));
            assert(run@.take(a + 1).map_values(|k: usize| card_view_of(c, k as int)) =~= run@.take(a as int).map_values(|k: usize| card_view_of(c, k as int)).push(card_view_of(c, run@[a as int] as int)));
            assert(cards@.map_values(|v: CardView| v@) =~= run@.take(a + 1).map_values(|k: usize| card_view_of(c, k as int)));
            a = a + 1;
        }
        assert(run@.take(run@.len() as int) == run@);
        let first = run[0];
        assert(c.cards[first as int] == canon.cards@[first as int]@);
        let g = Group { subhead: canon.cards[first].s.clone(), cards };
        assert(g@ == group_of_run(c, rv[r as int]));
        let ghost before = out@;
        out.push(g);
        assert(rv.take(r + 1) == rv.take(r as int).push(rv[r as int]));
        assert(out@.map_values(|g: Group| g@) =~= before.map_values(|g: Group| g@).push(g@));
        assert(rv.take(r + 1).map_values(|run: Seq<usize>| group_of_run(c, run)) =~= rv.take(r as int).map_values(|run: Seq<usize>| group_of_run(c, run)).push(group_of_run(c, rv[r as int])));
        assert(out@.map_values(|g: Group| g@) =~= rv.take(r + 1).map_values(|run: Seq<usize>| group_of_run(c, run)));
        r = r + 1;
    }
    assert(rv.take(rv.len() as int) == rv);
    out
}

proof fn lemma_members_bounded(c: CanonModel, j: int, n: int)
    requires
        0 <= n <= c.cards.len(),
        c.cards.len() <= usize::MAX,
    ensures
        forall|q: int| 0 <= q < members_upto(c, j, n).len() ==> (#[trigger] members_upto(c, j, n)[q]) < n,
        forall|a: int, b: int| 0 <= a < b < members_upto(c, j, n).len() ==> members_upto(c, j, n)[a] < members_upto(c, j, n)[b],
    decreases n,
{
    if n > 0 {
        lemma_members_bounded(c, j, n - 1);
        let m = members_upto(c, j, n);
        let p = members_upto(c, j, n - 1);
        assert forall|q: int| 0 <= q < m.len() implies (#[trigger] m[q]) < n by {
            if q < p.len() {
                assert(m[q] == p[q]);
            }
        }
        assert forall|a: int, b: int| 0 <= a < b < m.len() implies m[a] < m[b] by {
            if b < p.len() {
                assert(m[a] == p[a] && m[b] == p[b]);
            } else {
                assert(m[a] == p[a]);
                assert(p[a] < n - 1);
                assert(m[b] == (n - 1) as usize);
            }
        }
    }
}

fn build_sections(canon: &Canon, ids: &Vec<String>, preds: &Vec<Vec<(usize, bool)>>, by_cat: &Vec<Vec<usize>>) -> (res: Vec<Section>)
    requires
        graph_facts(canon@, ids@, preds@),
        by_cat@.len() == canon@.cats.len(),
        forall|j: int| 0 <= j < canon@.cats.len() ==> (#[trigger] by_cat@[j])@ == members(canon@, j),
    ensures
        res@.map_values(|s: Section| s@) == sections_upto(canon@, canon@.cats.len() as int),
{
    let ghost c = canon@;
    let mut out: Vec<Section> = Vec::new();
    let mut j: usize = 0;
    while j < by_cat.len()
        invariant
            j <= by_cat@.len(),
            c == canon@,
            graph_facts(c, ids@, preds@),
            by_cat@.len() == c.cats.len(),
            c.cats.len() == canon.cats@.len(),
            c.cards.len() == canon.cards@.len(),
            forall|j: int| 0 <= j < c.cats.len() ==> (#[trigger] by_cat@[j])@ == members(c, j),
            out@.map_values(|s: Section| s@) == sections_upto(c, j as int),
        decreases by_cat@.len() - j,
    {
        let items = &by_cat[j];
        if items.len() > 0 {
            let ncards = canon.cards.len();
            proof {
                lemma_members_bounded(c, j as int, c.cards.len() as int);
            }
            assert(c.cats[j as int] == canon.cats@[j as int]@);
            let cat = &canon.cats[j];
            let intro = match canon.intros.get(cat.as_str()) {
                Some(t) => t.clone(),
                None => String::new(),
            };
            let groups = build_groups(canon, ids, preds, items);
            let sec = Section { category: cat.clone(), intro, groups };
            assert(sec@ == section_of(c, j as int));
            let ghost before = out@;
            out.push(sec);
            assert(out@.map_values(|s: Section| s@) =~= before.map_values(|s: Section| s@).push(sec@));
        }
        j = j + 1;
    }
    out
}

fn build_chips(canon: &Canon, by_cat: &Vec<Vec<usize>>) -> (res: Vec<Chip>)
    requires
        by_cat@.len() == canon@.cats.len(),
        forall|j: int| 0 <= j < canon@.cats.len() ==> (#[trigger] by_cat@[j])@ == members(canon@, j),
    ensures
        res@.map_values(|x: Chip| x@) == chips_of(canon@),
{
    let mut out: Vec<Chip> = Vec::new();
    let mut j: usize = 0;
    while j < by_cat.len()
        invariant
            j <= by_cat@.len(),
            by_cat@.len() == canon@.cats.len(),
            canon@.cats.len() == canon.cats@.len(),
            forall|j: int| 0 <= j < canon@.cats.len() ==> (#[trigger] by_cat@[j])@ == members(canon@, j),
            out@.map_values(|x: Chip| x@) == chips_of(canon@).take(j as int),
        decreases by_cat@.len() - j,
    {
        assert(canon@.cats[j as int] == canon.cats@[j as int]@);
        let chip = Chip { category: canon.cats[j].clone(), count: by_cat[j].len() };
        let ghost before = out@;
        assert(chip@ == chips_of(canon@)[j as int]);
        out.push(chip);
        assert(out@.map_values(|x: Chip| x@) =~= before.map_values(|x: Chip| x@).push(chip@));
        assert(chips_of(canon@).take(j + 1) =~= chips_of(canon@).take(j as int).push(chips_of(canon@)[j as int]));
        assert(out@.map_values(|x: Chip| x@) =~= chips_of(canon@).take(j + 1));
        j = j + 1;
    }
    assert(chips_of(canon@).take(j as int) =~= chips_of(canon@));
    out
}

// ---------------------------------------------------------------------------
// Chronology

pub struct RowModel {
    pub id: Seq<char>,
    pub year_label: Seq<char>,
    pub name: Seq<char>,
    pub category: Seq<char>,
}

pub struct DecadeModel {
    pub label: Seq<char>,
    pub rows: Seq<RowModel>,
}

impl View for Row {
    type V = RowModel;

    open spec fn view(&self) -> RowModel {
        RowModel { id: self.id@, year_label: self.year_label@, name: self.name@, category: self.category@ }
    }
}

impl View for Decade {
    type V = DecadeModel;

    open spec fn view(&self) -> DecadeModel {
        DecadeModel { label: self.label@, rows: self.rows@.map_values(|r: Row| r@) }
    }
}

/// A card is dated when it has a lineage entry with a non-zero year.
pub open spec fn is_dated(c: CanonModel, i: int) -> bool {
    year_of(c, i) matches Some(y) && y != 0
}

/// The year shown on card `i`'s row: only when it is dated and its origin
/// line mentions the year.
pub open spec fn year_label_of(c: CanonModel, i: int) -> Seq<char> {
    match year_of(c, i) {
        Some(y) => if y != 0 && contains_seq(c.cards[i].origin, decimal_of(y as int)) {
            decimal_of(y as int)
        } else {
            Seq::empty()
        },
        None => Seq::empty(),
    }
}

pub open spec fn row_of(c: CanonModel, i: int) -> RowModel {
    RowModel {
        id: card_id(c, i),
        year_label: year_label_of(c, i),
        name: c.cards[i].name,
        category: c.cards[i].category,
    }
}

/// The sort key of card `i`: its year (0 when undated), the collation
/// weights of its name, then the name itself.
pub open spec fn key_of(c: CanonModel, i: int) -> (i64, Seq<(u8, char)>, Seq<(u8, char)>) {
    (
        if is_dated(c, i) { year_of(c, i)->0 } else { 0 },
        primary_of(nfkd(lowercase(c.cards[i].name))),
        raw_weights(c.cards[i].name),
    )
}

pub open spec fn sort_keys(c: CanonModel) -> Seq<(i64, Seq<(u8, char)>, Seq<(u8, char)>)> {
    Seq::new(c.cards.len(), |i: int| key_of(c, i))
}

/// The first `n` cards whose datedness is `dated`, in canon order.
pub open spec fn dated_upto(c: CanonModel, n: int, dated: bool) -> Seq<usize>
    decreases n,
{
    if n <= 0 {
        Seq::empty()
    } else if is_dated(c, n - 1) == dated {
        dated_upto(c, n - 1, dated).push((n - 1) as usize)
    } else {
        dated_upto(c, n - 1, dated)
    }
}

/// `order` lists exactly the cards of `set`, each once, in key order.
pub open spec fn sorted_arrangement(c: CanonModel, set: Seq<usize>, order: Seq<usize>) -> bool {
    &&& order.len() == set.len()
    &&& order.to_set() == set.to_set()
    &&& sorted_by(sort_keys(c), order)
}

/// The decade a year falls in, floored (so BCE years band correctly).
pub open spec fn decade_of(y: int) -> int {
    (y / 10) * 10
}

pub open spec fn decade_key(c: CanonModel) -> spec_fn(usize) -> int {
    |k: usize| decade_of(year_of(c, k as int)->0 as int)
}

pub open spec fn undated_label() -> Seq<char> {
    "Undated · folklore & standing practice"@
}

pub open spec fn band_of(c: CanonModel, band: Seq<usize>) -> DecadeModel {
    DecadeModel {
        label: decimal_of(decade_of(year_of(c, band[0] as int)->0 as int)) + "s"@,
        rows: band.map_values(|k: usize| row_of(c, k as int)),
    }
}

/// Decade bands of the dated cards in `dated_order`, then, if any, the
/// undated cards in `undated_order` as one last group.
pub open spec fn decades_from(c: CanonModel, dated_order: Seq<usize>, undated_order: Seq<usize>) -> Seq<DecadeModel> {
    chunk_runs(dated_order, decade_key(c)).map_values(|band: Seq<usize>| band_of(c, band)) + if undated_order.len() > 0 {
        seq![DecadeModel { label: undated_label(), rows: undated_order.map_values(|k: usize| row_of(c, k as int)) }]
    } else {
        Seq::empty()
    }
}

/// The chronology of the canon: dated cards sorted by (year, collation)
/// and split into decade bands, undated cards sorted by collation last.
pub open spec fn chronology_is(c: CanonModel, decades: Seq<DecadeModel>) -> bool {
    exists|d: Seq<usize>, u: Seq<usize>|
        #![trigger decades_from(c, d, u)]
        sorted_arrangement(c, dated_upto(c, c.cards.len() as int, true), d)
            && sorted_arrangement(c, dated_upto(c, c.cards.len() as int, false), u)
            && decades == decades_from(c, d, u)
}

/// Every card's year is far enough from `i64::MIN` that its decade is an
/// `i64`.
pub open spec fn years_in_range(c: CanonModel) -> bool {
    forall|i: int| 0 <= i < c.cards.len() && (#[trigger] year_of(c, i)) is Some ==> year_of(c, i)->0 >= i64::MIN + 8
}

fn decade_exec(y: i64) -> (r: i64)
    requires
        y >= i64::MIN + 8,
    ensures
        r as int == decade_of(y as int),
{
    if y >= 0 {
        let q = y / 10;
        assert(q * 10 <= y) by (nonlinear_arith) requires q == y / 10, y >= 0;
        q * 10
    } else {
        let m: u64 = (0i128 - (y as i128)) as u64;
        assert(m <= 9223372036854775800u64);
        let q: u64 = (m + 9) / 10;
        assert(q * 10 <= m + 9) by (nonlinear_arith) requires q == (m + 9) / 10;
        assert(q <= 922337203685477580u64) by (nonlinear_arith) requires q == (m + 9) / 10, m <= 9223372036854775800u64;
        assert((y as int) / 10 == -(q as int)) by (nonlinear_arith)
            requires q == (m + 9) / 10, m as int == -(y as int), y < 0;
        let r: i64 = 0 - ((q * 10) as i64);
        r
    }
}

fn build_keys(canon: &Canon, years: &Vec<Option<i64>>) -> (keys: Vec<SortKey>)
    requires
        years@.len() == canon@.cards.len(),
        forall|i: int| 0 <= i < canon@.cards.len() ==> #[trigger] years@[i] == year_of(canon@, i),
    ensures
        keys@.map_values(|k: SortKey| k@) == sort_keys(canon@),
{
    let ghost c = canon@;
    let mut keys: Vec<SortKey> = Vec::new();
    let mut i: usize = 0;
    while i < canon.cards.len()
        invariant
            i <= canon.cards@.len(),
            c == canon@,
            c.cards.len() == canon.cards@.len(),
            years@.len() == c.cards.len(),
            forall|i: int| 0 <= i < c.cards.len() ==> #[trigger] years@[i] == year_of(c, i),
            keys@.map_values(|k: SortKey| k@) == sort_keys(c).take(i as int),
        decreases canon.cards@.len() - i,
    {
        let name = &canon.cards[i].n;
        assert(c.cards[i as int] == canon.cards@[i as int]@);
        let (primary, _raw) = collate_key(name.as_str());
        let year = match years[i] {
            Some(y) => if y != 0 { y } else { 0 },
            None => 0,
        };
        let key = SortKey { year, primary, raw: weights_of(name.as_str()) };
        assert(key@ == key_of(c, i as int));
        let ghost before = keys@;
        keys.push(key);
        assert(keys@.map_values(|k: SortKey| k@) =~= before.map_values(|k: SortKey| k@).push(key@));
        assert(sort_keys(c).take(i + 1) =~= sort_keys(c).take(i as int).push(sort_keys(c)[i as int]));
        i = i + 1;
    }
    assert(sort_keys(c).take(i as int) =~= sort_keys(c));
    keys
}

fn select_dated(canon: &Canon, years: &Vec<Option<i64>>, dated: bool) -> (res: Vec<usize>)
    requires
        years@.len() == canon@.cards.len(),
        forall|i: int| 0 <= i < canon@.cards.len() ==> #[trigger] years@[i] == year_of(canon@, i),
    ensures
        res@ == dated_upto(canon@, canon@.cards.len() as int, dated),
        forall|a: int, b: int| 0 <= a < b < res@.len() ==> res@[a] < res@[b],
        forall|a: int| 0 <= a < res@.len() ==> res@[a] < canon@.cards.len(),
{
    let mut out: Vec<usize> = Vec::new();
    let mut i: usize = 0;
    while i < years.len()
        invariant
            i <= years@.len(),
            years@.len() == canon@.cards.len(),
            forall|i: int| 0 <= i < canon@.cards.len() ==> #[trigger] years@[i] == year_of(canon@, i),
            out@ == dated_upto(canon@, i as int, dated),
            forall|a: int, b: int| 0 <= a < b < out@.len() ==> out@[a] < out@[b],
            forall|a: int| 0 <= a < out@.len() ==> out@[a] < i,
        decreases years@.len() - i,
    {
        let d = match years[i] {
            Some(y) => y != 0,
            None => false,
        };
        if d == dated {
            out.push(i);
        }
        i = i + 1;
    }
    out
}

fn row_exec(canon: &Canon, ids: &Vec<String>, years: &Vec<Option<i64>>, i: usize) -> (r: Row)
    requires
        i < canon@.cards.len(),
        ids@.len() == canon@.cards.len(),
        forall|k: int| 0 <= k < canon@.cards.len() ==> (#[trigger] ids@[k])@ == card_id(canon@, k),
        years@.len() == canon@.cards.len(),
        forall|i: int| 0 <= i < canon@.cards.len() ==> #[trigger] years@[i] == year_of(canon@, i),
    ensures
        r@ == row_of(canon@, i as int),
{
    let card = &canon.cards[i];
    assert(canon@.cards[i as int] == card@);
    let year_label = match years[i] {
        Some(y) => {
            if y != 0 {
                let text = decimal(y);
                if contains_text(card.o.as_str(), text.as_str()) {
                    text
                } else {
                    String::new()
                }
            } else {
                String::new()
            }
        },
        None => String::new(),
    };
    Row { id: ids[i].clone(), year_label, name: card.n.clone(), category: card.c.clone() }
}

fn rows_exec(canon: &Canon, ids: &Vec<String>, years: &Vec<Option<i64>>, items: &Vec<usize>) -> (res: Vec<Row>)
    requires
        ids@.len() == canon@.cards.len(),
        forall|k: int| 0 <= k < canon@.cards.len() ==> (#[trigger] ids@[k])@ == card_id(canon@, k),
        years@.len() == canon@.cards.len(),
        forall|i: int| 0 <= i < canon@.cards.len() ==> #[trigger] years@[i] == year_of(canon@, i),
        forall|a: int| 0 <= a < items@.len() ==> #[trigger] items@[a] < canon@.cards.len(),
    ensures
        res@.map_values(|r: Row| r@) == items@.map_values(|k: usize| row_of(canon@, k as int)),
{
    let mut out: Vec<Row> = Vec::new();
    let mut a: usize = 0;
    while a < items.len()
        invariant
            a <= items@.len(),
            ids@.len() == canon@.cards.len(),
            forall|k: int| 0 <= k < canon@.cards.len() ==> (#[trigger] ids@[k])@ == card_id(canon@, k),
            years@.len() == canon@.cards.len(),
            forall|i: int| 0 <= i < canon@.cards.len() ==> #[trigger] years@[i] == year_of(canon@, i),
            forall|a: int| 0 <= a < items@.len() ==> #[trigger] items@[a] < canon@.cards.len(),
            out@.map_values(|r: Row| r@) == items@.take(a as int).map_values(|k: usize| row_of(canon@, k as int)),
        decreases items@.len() - a,
    {
        let r = row_exec(canon, ids, years, items[a]);
        let ghost before = out@;
        out.push(r);
        assert(out@.map_values(|r: Row| r@) =~= before.map_values(|r: Row| r@).push(r@));
        assert(items@.take(a + 1).map_values(|k: usize| row_of(canon@, k as int)) =~= items@.take(a as int).map_values(|k: usize| row_of(canon@, k as int)).push(row_of(canon@, items@[a as int] as int)));
        a = a + 1;
    }
    assert(items@.take(items@.len() as int) == items@);
    out
}

proof fn lemma_dated_upto(c: CanonModel, n: int, dated: bool)
    requires
        0 <= n <= c.cards.len(),
        c.cards.len() <= usize::MAX,
    ensures
        forall|a: int| 0 <= a < dated_upto(c, n, dated).len() ==> (#[trigger] dated_upto(c, n, dated)[a]) < n
            && is_dated(c, dated_upto(c, n, dated)[a] as int) == dated,
    decreases n,
{
    if n > 0 {
        lemma_dated_upto(c, n - 1, dated);
        let m = dated_upto(c, n, dated);
        let p = dated_upto(c, n - 1, dated);
        assert forall|a: int| 0 <= a < m.len() implies (#[trigger] m[a]) < n && is_dated(c, m[a] as int) == dated by {
            if a < p.len() {
                assert(m[a] == p[a]);
            }
        }
    }
}

/// The lineage year of a dated card, read from its lineage entry.
proof fn lemma_dated_year_in_range(c: CanonModel, i: int)
    requires
        0 <= i < c.cards.len(),
        years_in_range(c),
        year_of(c, i) is Some,
    ensures
        year_of(c, i)->0 >= i64::MIN + 8,
{
    crate::model::lemma_key_position(c.lineage, c.cards[i].name);
    let p = crate::model::key_position(c.lineage, c.cards[i].name)->0;
    assert(c.lineage[p].1.year >= i64::MIN + 8);
}

fn decade_runs(canon: &Canon, years: &Vec<Option<i64>>, items: &Vec<usize>) -> (runs: Vec<Vec<usize>>)
    requires
        years_in_range(canon@),
        years@.len() == canon@.cards.len(),
        forall|i: int| 0 <= i < canon@.cards.len() ==> #[trigger] years@[i] == year_of(canon@, i),
        forall|a: int| 0 <= a < items@.len() ==> #[trigger] items@[a] < canon@.cards.len() && is_dated(canon@, items@[a] as int),
    ensures
        runs@.map_values(|r: Vec<usize>| r@) == chunk_runs(items@, decade_key(canon@)),
{
    let ghost c = canon@;
    let ghost key = decade_key(c);
    let mut runs: Vec<Vec<usize>> = Vec::new();
    let mut cur: Vec<usize> = Vec::new();
    let mut cur_decade: i64 = 0;
    let mut q: usize = 0;
    while q < items.len()
        invariant
            q <= items@.len(),
            c == canon@,
            key == decade_key(c),
            years_in_range(c),
            years@.len() == c.cards.len(),
            c.cards.len() == canon.cards@.len(),
            forall|i: int| 0 <= i < c.cards.len() ==> #[trigger] years@[i] == year_of(c, i),
            forall|a: int| 0 <= a < items@.len() ==> #[trigger] items@[a] < c.cards.len() && is_dated(c, items@[a] as int),
            q == 0 <==> cur@.len() == 0,
            q > 0 ==> runs@.map_values(|r: Vec<usize>| r@).push(cur@) == chunk_runs(items@.take(q as int), key),
            q > 0 ==> cur@.last() == items@[q - 1] && cur_decade as int == key(cur@.last()),
            q == 0 ==> runs@.len() == 0,
        decreases items@.len() - q,
    {
        let x = items[q];
        assert(items@.take(q + 1).drop_last() == items@.take(q as int));
        assert(items@.take(q + 1).last() == x);
        assert(is_dated(c, x as int));
        let y = match years[x] {
            Some(y) => y,
            None => 0,
        };
        proof {
            lemma_dated_year_in_range(c, x as int);
        }
        let d = decade_exec(y);
        assert(d as int == key(x));
        let ghost prev = runs@.map_values(|r: Vec<usize>| r@).push(cur@);
        if cur.len() > 0 && cur_decade == d {
            cur.push(x);
            assert(runs@.map_values(|r: Vec<usize>| r@).push(cur@) =~= prev.update(prev.len() - 1, prev.last().push(x)));
        } else {
            let ghost old_cur = cur@;
            proof {
                if q == 0 {
                    assert(items@.take(0) =~= Seq::<usize>::empty());
                    assert(chunk_runs(items@.take(0), key).len() == 0);
                    assert(chunk_runs(items@.take(q + 1), key) =~= seq![seq![x]]);
                } else {
                    assert(prev.last() == old_cur);
                    assert(chunk_runs(items@.take(q + 1), key) == prev.push(seq![x]));
                }
            }
            if cur.len() > 0 {
                let done = cur;
                runs.push(done);
                cur = Vec::new();
            }
            cur.push(x);
            cur_decade = d;
            assert(cur@ =~= seq![x]);
            assert(runs@.map_values(|r: Vec<usize>| r@).push(cur@) =~= chunk_runs(items@.take(q + 1), key));
        }
        q = q + 1;
    }
    if cur.len() > 0 {
        runs.push(cur);
    }
    assert(items@.take(items@.len() as int) == items@);
    runs
}

fn build_decades(
    canon: &Canon,
    ids: &Vec<String>,
    years: &Vec<Option<i64>>,
    dated_order: &Vec<usize>,
    undated_order: &Vec<usize>,
) -> (res: Vec<Decade>)
    requires
        years_in_range(canon@),
        ids@.len() == canon@.cards.len(),
        forall|k: int| 0 <= k < canon@.cards.len() ==> (#[trigger] ids@[k])@ == card_id(canon@, k),
        years@.len() == canon@.cards.len(),
        forall|i: int| 0 <= i < canon@.cards.len() ==> #[trigger] years@[i] == year_of(canon@, i),
        forall|a: int| 0 <= a < dated_order@.len() ==> #[trigger] dated_order@[a] < canon@.cards.len() && is_dated(canon@, dated_order@[a] as int),
        forall|a: int| 0 <= a < undated_order@.len() ==> #[trigger] undated_order@[a] < canon@.cards.len(),
    ensures
        res@.map_values(|d: Decade| d@) == decades_from(canon@, dated_order@, undated_order@),
{
    let ghost c = canon@;
    let runs = decade_runs(canon, years, dated_order);
    proof {
        lemma_runs_partition(dated_order@, decade_key(c));
        lemma_runs_bounded(dated_order@, decade_key(c), c.cards.len() as int);
    }
    let ghost rv = runs@.map_values(|r: Vec<usize>| r@);
    let mut out: Vec<Decade> = Vec::new();
    let mut r: usize = 0;
    while r < runs.len()
        invariant
            r <= runs@.len(),
            c == canon@,
            years_in_range(c),
            c.cards.len() == canon.cards@.len(),
            ids@.len() == c.cards.len(),
            forall|k: int| 0 <= k < c.cards.len() ==> (#[trigger] ids@[k])@ == card_id(c, k),
            years@.len() == c.cards.len(),
            forall|i: int| 0 <= i < c.cards.len() ==> #[trigger] years@[i] == year_of(c, i),
            forall|a: int| 0 <= a < dated_order@.len() ==> #[trigger] dated_order@[a] < c.cards.len() && is_dated(c, dated_order@[a] as int),
            rv == runs@.map_values(|r: Vec<usize>| r@),
            rv == chunk_runs(dated_order@, decade_key(c)),
            rv.flatten() == dated_order@,
            forall|x: int| 0 <= x < rv.len() ==> (#[trigger] rv[x]).len() > 0,
            forall|x: int, a: int| 0 <= x < rv.len() && 0 <= a < rv[x].len() ==> #[trigger] rv[x][a] < c.cards.len(),
            out@.map_values(|d: Decade| d@) == rv.take(r as int).map_values(|band: Seq<usize>| band_of(c, band)),
        decreases runs@.len() - r,
    {
        let band = &runs[r];
        assert(rv[r as int] == band@);
        let rows = rows_exec(canon, ids, years, band);
        let first = band[0];
        proof {
            lemma_flatten_member(rv, r as int, 0);
            let w = choose|w: int| 0 <= w < dated_order@.len() && dated_order@[w] == first;
            assert(is_dated(c, dated_order@[w] as int));
            lemma_dated_year_in_range(c, first as int);
        }
        let y = match years[first] {
            Some(y) => y,
            None => 0,
        };
        let label = concat2(decimal(decade_exec(y)).as_str(), "s");
        let d = Decade { label, rows };
        assert(d@ == band_of(c, rv[r as int]));
        let ghost before = out@;
        out.push(d);
        assert(out@.map_values(|d: Decade| d@) =~= before.map_values(|d: Decade| d@).push(d@));
        assert(rv.take(r + 1).map_values(|band: Seq<usize>| band_of(c, band)) =~= rv.take(r as int).map_values(|band: Seq<usize>| band_of(c, band)).push(band_of(c, rv[r as int])));
        r = r + 1;
    }
    assert(rv.take(rv.len() as int) == rv);
    let ghost banded = out@.map_values(|d: Decade| d@);
    if undated_order.len() > 0 {
        let rows = rows_exec(canon, ids, years, undated_order);
        let d = Decade { label: owned("Undated · folklore & standing practice"), rows };
        out.push(d);
        assert(out@.map_values(|d: Decade| d@) =~= banded.push(d@));
    } else {
        assert(out@.map_values(|d: Decade| d@) =~= banded + Seq::<DecadeModel>::empty());
    }
    out
}

proof fn lemma_flatten_member(runs: Seq<Seq<usize>>, r: int, a: int)
    requires
        0 <= r < runs.len(),
        0 <= a < runs[r].len(),
    ensures
        exists|w: int| 0 <= w < runs.flatten().len() && runs.flatten()[w] == runs[r][a],
    decreases runs.len(),
{
    broadcast use Seq::lemma_flatten_push;

    assert(runs == runs.drop_last().push(runs.last()));
    assert(runs.flatten() == runs.drop_last().flatten() + runs.last());
    if r < runs.len() - 1 {
        assert(runs[r] == runs.drop_last()[r]);
        lemma_flatten_member(runs.drop_last(), r, a);
        let w = choose|w: int| 0 <= w < runs.drop_last().flatten().len() && runs.drop_last().flatten()[w] == runs[r][a];
        assert(runs.flatten()[w] == runs[r][a]);
    } else {
        let w = runs.drop_last().flatten().len() + a;
        assert(runs.flatten()[w] == runs[r][a]);
    }
}

fn chronology(canon: &Canon, ids: &Vec<String>, years: &Vec<Option<i64>>) -> (res: Vec<Decade>)
    requires
        years_in_range(canon@),
        ids@.len() == canon@.cards.len(),
        forall|k: int| 0 <= k < canon@.cards.len() ==> (#[trigger] ids@[k])@ == card_id(canon@, k),
        years@.len() == canon@.cards.len(),
        forall|i: int| 0 <= i < canon@.cards.len() ==> #[trigger] years@[i] == year_of(canon@, i),
    ensures
        chronology_is(canon@, res@.map_values(|d: Decade| d@)),
{
    let ghost c = canon@;
    let keys = build_keys(canon, years);
    let dated = select_dated(canon, years, true);
    let undated = select_dated(canon, years, false);
    let ncards = canon.cards.len();
    proof {
        lemma_dated_upto(c, c.cards.len() as int, true);
        lemma_dated_upto(c, c.cards.len() as int, false);
    }
    assert(keys@.map_values(|k: SortKey| k@).len() == keys@.len());
    assert(keys@.len() == c.cards.len());
    let d = sort_rows(&keys, &dated);
    let u = sort_rows(&keys, &undated);
    proof {
        assert forall|a: int| 0 <= a < d@.len() implies #[trigger] d@[a] < c.cards.len() && is_dated(c, d@[a] as int) by {
            assert(d@.to_set().contains(d@[a]));
            assert(dated@.to_set().contains(d@[a]));
            let w = choose|w: int| 0 <= w < dated@.len() && dated@[w] == d@[a];
        }
        assert forall|a: int| 0 <= a < u@.len() implies #[trigger] u@[a] < c.cards.len() by {
            assert(u@.to_set().contains(u@[a]));
            assert(undated@.to_set().contains(u@[a]));
            let w = choose|w: int| 0 <= w < undated@.len() && undated@[w] == u@[a];
        }
    }
    let res = build_decades(canon, ids, years, &d, &u);
    assert(sorted_arrangement(c, dated_upto(c, c.cards.len() as int, true), d@));
    assert(sorted_arrangement(c, dated_upto(c, c.cards.len() as int, false), u@));
    assert(res@.map_values(|x: Decade| x@) == decades_from(c, d@, u@));
    res
}

// ---------------------------------------------------------------------------
// Edges, misses and the edge-data JSON

/// The lineage edges of the first `t` cards as (source, target,
/// challenges): target card order, then predecessor order.
pub open spec fn edges_upto(c: CanonModel, t: int) -> Seq<(int, int, bool)>
    decreases t,
{
    if t <= 0 {
        Seq::empty()
    } else {
        edges_upto(c, t - 1) + preds_of(c, t - 1).map_values(|p: (int, bool)| (p.0, t - 1, p.1))
    }
}

pub open spec fn edges_of(c: CanonModel) -> Seq<(int, int, bool)> {
    edges_upto(c, c.cards.len() as int)
}

/// The edges as the JSON rows `[source id, target id, 0 or 1]`.
pub open spec fn edge_rows(c: CanonModel) -> Seq<(Seq<char>, Seq<char>, u8)> {
    edges_of(c).map_values(|e: (int, int, bool)| (card_id(c, e.0), card_id(c, e.1), if e.2 { 1u8 } else { 0u8 }))
}

/// What `serde_json` writes (compact) for the object that maps
/// `edges_key` to the array of `[source, target, flag]` rows and
/// `misses_key` to the array of miss strings.
pub uninterp spec fn json_blob(
    edges_key: Seq<char>,
    edges: Seq<(Seq<char>, Seq<char>, u8)>,
    misses_key: Seq<char>,
    misses: Seq<Seq<char>>,
) -> Seq<char>;

/// `serde_json::Value::to_string` of an object built from plain values:
/// `edges_key` maps to the rows as arrays, `misses_key` to the strings.
#[verifier::external_body]
fn edge_data_json(
    edges_key: &str,
    edges: &Vec<(String, String, u8)>,
    misses_key: &str,
    misses: &Vec<String>,
) -> (r: String)
    ensures
        r@ == json_blob(
            edges_key@,
            edges@.map_values(|e: (String, String, u8)| (e.0@, e.1@, e.2)),
            misses_key@,
            texts(misses@),
        ),
{
    let rows: Vec<serde_json::Value> = edges.iter().map(|(s, t, f)| serde_json::Value::from(vec![
        serde_json::Value::from(s.as_str()), serde_json::Value::from(t.as_str()), serde_json::Value::from(*f),
    ])).collect();
    let mut blob = serde_json::Map::new();
    blob.insert(edges_key.to_string(), serde_json::Value::from(rows));
    blob.insert(misses_key.to_string(), serde_json::Value::from(misses.clone()));
    serde_json::Value::Object(blob).to_string()
}

fn edge_list(canon: &Canon, ids: &Vec<String>, preds: &Vec<Vec<(usize, bool)>>) -> (res: Vec<(String, String, u8)>)
    requires
        graph_facts(canon@, ids@, preds@),
    ensures
        res@.map_values(|e: (String, String, u8)| (e.0@, e.1@, e.2)) == edge_rows(canon@),
{
    let ghost c = canon@;
    let ghost f = |e: (int, int, bool)| (card_id(c, e.0), card_id(c, e.1), if e.2 { 1u8 } else { 0u8 });
    let mut out: Vec<(String, String, u8)> = Vec::new();
    let mut t: usize = 0;
    while t < preds.len()
        invariant
            t <= preds@.len(),
            c == canon@,
            graph_facts(c, ids@, preds@),
            f == (|e: (int, int, bool)| (card_id(c, e.0), card_id(c, e.1), if e.2 { 1u8 } else { 0u8 })),
            out@.map_values(|e: (String, String, u8)| (e.0@, e.1@, e.2)) == edges_upto(c, t as int).map_values(f),
        decreases preds@.len() - t,
    {
        let ps = &preds[t];
        let ghost base = out@.map_values(|e: (String, String, u8)| (e.0@, e.1@, e.2));
        let ghost mapped = pairs_view(ps@).map_values(|p: (int, bool)| (p.0, t as int, p.1));
        let mut q: usize = 0;
        while q < ps.len()
            invariant
                q <= ps@.len(),
                t < preds@.len(),
                c == canon@,
                graph_facts(c, ids@, preds@),
                ps == preds@[t as int],
                mapped == pairs_view(ps@).map_values(|p: (int, bool)| (p.0, t as int, p.1)),
                f == (|e: (int, int, bool)| (card_id(c, e.0), card_id(c, e.1), if e.2 { 1u8 } else { 0u8 })),
                out@.map_values(|e: (String, String, u8)| (e.0@, e.1@, e.2)) == base + mapped.take(q as int).map_values(f),
            decreases ps@.len() - q,
        {
            let (src, ch) = ps[q];
            assert(src < c.cards.len());
            let flag: u8 = if ch { 1 } else { 0 };
            let e = (ids[src].clone(), ids[t].clone(), flag);
            let ghost before = out@;
            out.push(e);
            assert(mapped[q as int] == (src as int, t as int, ch));
            assert(mapped.take(q + 1) == mapped.take(q as int).push(mapped[q as int]));
            assert(out@.map_values(|e: (String, String, u8)| (e.0@, e.1@, e.2)) =~= before.map_values(|e: (String, String, u8)| (e.0@, e.1@, e.2)).push((e.0@, e.1@, e.2)));
            assert(mapped.take(q + 1).map_values(f) =~= mapped.take(q as int).map_values(f).push(f(mapped[q as int])));
            q = q + 1;
        }
        assert(mapped.take(ps@.len() as int) == mapped);
        assert(pairs_view(ps@) == preds_of(c, t as int));
        assert(edges_upto(c, t + 1) == edges_upto(c, t as int) + mapped);
        assert(edges_upto(c, t + 1).map_values(f) =~= edges_upto(c, t as int).map_values(f) + mapped.map_values(f));
        t = t + 1;
    }
    out
}

// ---------------------------------------------------------------------------
// The page

pub struct PageModel {
    pub total: nat,
    pub card_prefix: Seq<char>,
    pub chips: Seq<ChipModel>,
    pub sections: Seq<SectionModel>,
    pub decades: Seq<DecadeModel>,
    pub edge_json: Seq<char>,
    pub script: Seq<char>,
}

impl View for Page {
    type V = PageModel;

    open spec fn view(&self) -> PageModel {
        PageModel {
            total: self.total as nat,
            card_prefix: self.card_prefix@,
            chips: self.chips@.map_values(|x: Chip| x@),
            sections: self.sections@.map_values(|x: Section| x@),
            decades: self.decades@.map_values(|x: Decade| x@),
            edge_json: self.edge_json@,
            script: self.script@,
        }
    }
}

/// The lineage warnings for a misses list.
pub open spec fn miss_warnings(misses: Seq<Seq<char>>) -> Seq<Seq<char>> {
    misses.map_values(|m: Seq<char>| "lineage miss: "@ + m)
}

/// What the edge-data blob and the warnings are, for some sorted orphan
/// order.
pub open spec fn misses_are(c: CanonModel, edge_json: Seq<char>, warnings: Seq<Seq<char>>) -> bool {
    exists|o: Seq<usize>|
        #![trigger misses_with(c, o)]
        sorted_orphans(c, o) && edge_json == escape_lt_of(json_blob("edges"@, edge_rows(c), "misses"@, misses_with(c, o)))
            && warnings == miss_warnings(misses_with(c, o))
}

/// The chronology is deterministic: a canon has exactly one chronology, so
/// two builds of the same canon list the same decades and rows.
pub proof fn lemma_chronology_unique(c: CanonModel, d1: Seq<DecadeModel>, d2: Seq<DecadeModel>)
    requires
        chronology_is(c, d1),
        chronology_is(c, d2),
    ensures
        d1 == d2,
{
    let (a1, b1) = choose|d: Seq<usize>, u: Seq<usize>|
        #![trigger decades_from(c, d, u)]
        sorted_arrangement(c, dated_upto(c, c.cards.len() as int, true), d)
            && sorted_arrangement(c, dated_upto(c, c.cards.len() as int, false), u)
            && d1 == decades_from(c, d, u);
    let (a2, b2) = choose|d: Seq<usize>, u: Seq<usize>|
        #![trigger decades_from(c, d, u)]
        sorted_arrangement(c, dated_upto(c, c.cards.len() as int, true), d)
            && sorted_arrangement(c, dated_upto(c, c.cards.len() as int, false), u)
            && d2 == decades_from(c, d, u);
    lemma_sorted_unique(sort_keys(c), a1, a2);
    lemma_sorted_unique(sort_keys(c), b1, b2);
}

/// The misses diagnostic is deterministic: for a canon there is exactly one
/// edge-data blob and one list of miss warnings.
pub proof fn lemma_misses_unique(c: CanonModel, j1: Seq<char>, w1: Seq<Seq<char>>, j2: Seq<char>, w2: Seq<Seq<char>>)
    requires
        misses_are(c, j1, w1),
        misses_are(c, j2, w2),
    ensures
        j1 == j2,
        w1 == w2,
{
    let o1 = choose|o: Seq<usize>|
        #![trigger misses_with(c, o)]
        sorted_orphans(c, o) && j1 == escape_lt_of(json_blob("edges"@, edge_rows(c), "misses"@, misses_with(c, o)))
            && w1 == miss_warnings(misses_with(c, o));
    let o2 = choose|o: Seq<usize>|
        #![trigger misses_with(c, o)]
        sorted_orphans(c, o) && j2 == escape_lt_of(json_blob("edges"@, edge_rows(c), "misses"@, misses_with(c, o)))
            && w2 == miss_warnings(misses_with(c, o));
    lemma_sorted_unique(orphan_keys(c), o1, o2);
}

/// Everything `derive` promises of the page, warnings and edge count it
/// returns for a canon and a script.
pub open spec fn derived_is(c: CanonModel, script: Seq<char>, page: PageModel, warnings: Seq<Seq<char>>, edges: nat) -> bool {
    &&& page.total == c.cards.len()
    &&& page.card_prefix == "card-"@
    &&& page.chips == chips_of(c)
    &&& page.sections == sections_upto(c, c.cats.len() as int)
    &&& chronology_is(c, page.decades)
    &&& misses_are(c, page.edge_json, warnings)
    &&& page.script == guard_of(script)
    &&& edges == edges_of(c).len()
}

/// The build is deterministic: for the same canon and script there is
/// exactly one page, one warning list and one edge count that `derive`
/// can return.
pub proof fn lemma_derive_deterministic(
    c: CanonModel,
    script: Seq<char>,
    p1: PageModel,
    w1: Seq<Seq<char>>,
    e1: nat,
    p2: PageModel,
    w2: Seq<Seq<char>>,
    e2: nat,
)
    requires
        derived_is(c, script, p1, w1, e1),
        derived_is(c, script, p2, w2, e2),
    ensures
        p1 == p2,
        w1 == w2,
        e1 == e2,
{
    lemma_chronology_unique(c, p1.decades, p2.decades);
    lemma_misses_unique(c, p1.edge_json, w1, p2.edge_json, w2);
}

/// Build the full view model. `script` is the page's JavaScript, passed
/// through (guarded, never template-processed) into the inline script tag.
pub fn derive(canon: &Canon, script: String) -> (res: Derived)
    requires
        years_in_range(canon@),
    ensures
        res.page.total == canon@.cards.len(),
        res.page.card_prefix@ == "card-"@,
        res.page@.chips == chips_of(canon@),
        res.page@.sections == sections_upto(canon@, canon@.cats.len() as int),
        chronology_is(canon@, res.page@.decades),
        misses_are(canon@, res.page.edge_json@, texts(res.warnings@)),
        res.page.script@ == guard_of(script@),
        res.edges == edges_of(canon@).len(),
        derived_is(canon@, script@, res.page@, texts(res.warnings@), res.edges as nat),
{
    let ghost c = canon@;
    let ids = card_ids(canon);
    let (years, preds, misses) = lineage_graph(canon);
    proof {
        assert forall|k: int, q: int| 0 <= k < c.cards.len() && 0 <= q < preds@[k]@.len() implies (#[trigger] preds@[k]@[q]).0 < c.cards.len() by {
            lemma_preds_in_range(c, crate::graph::pred_list(c, k));
            assert(pairs_view(preds@[k]@)[q] == (preds@[k]@[q].0 as int, preds@[k]@[q].1));
        }
    }
    assert(graph_facts(c, ids@, preds@));

    let ghost order = choose|o: Seq<usize>| #![trigger misses_with(c, o)] sorted_orphans(c, o) && texts(misses@) == misses_with(c, o);

    let mut warnings: Vec<String> = Vec::new();
    let mut w: usize = 0;
    while w < misses.len()
        invariant
            w <= misses@.len(),
            texts(warnings@) == miss_warnings(texts(misses@).take(w as int)),
        decreases misses@.len() - w,
    {
        let msg = concat2("lineage miss: ", misses[w].as_str());
        let ghost before = warnings@;
        warnings.push(msg);
        assert(texts(warnings@) =~= texts(before).push(msg@));
        assert(texts(misses@).take(w + 1) =~= texts(misses@).take(w as int).push(misses@[w as int]@));
        assert(miss_warnings(texts(misses@).take(w + 1)) =~= miss_warnings(texts(misses@).take(w as int)).push(msg@));
        w = w + 1;
    }
    assert(texts(misses@).take(misses@.len() as int) == texts(misses@));

    let edges = edge_list(canon, &ids, &preds);
    let blob = edge_data_json("edges", &edges, "misses", &misses);
    let edge_json = escape_lt(blob.as_str());
    let n_edges = edges.len();
    assert(edges@.map_values(|e: (String, String, u8)| (e.0@, e.1@, e.2)).len() == edges@.len());

    let by_cat = group_by_category(canon);
    let sections = build_sections(canon, &ids, &preds, &by_cat);
    let chips = build_chips(canon, &by_cat);
    let decades = chronology(canon, &ids, &years);
    proof {
        assert(sorted_orphans(c, order));
        assert(misses_are(c, edge_json@, texts(warnings@)));
    }
    Derived {
        page: Page {
            total: canon.cards.len(),
            card_prefix: CARD_PREFIX,
            chips,
            sections,
            decades,
            edge_json,
            script: guard_inline_script(script),
        },
        warnings,
        edges: n_edges,
    }
}

// ---------------------------------------------------------------------------
// Laws

proof fn lemma_incoming_contains(ps: Seq<(int, bool)>, s: int, t: int, t2: int, ch: bool)
    ensures
        incoming(ps, s, t).contains((t2, ch)) <==> (t2 == t && ps.contains((s, ch))),
    decreases ps.len(),
{
    if ps.len() > 0 {
        let p = ps.drop_last();
        lemma_incoming_contains(p, s, t, t2, ch);
        let inc = incoming(ps, s, t);
        let rest = incoming(p, s, t);
        if inc.contains((t2, ch)) {
            let k = choose|k: int| 0 <= k < inc.len() && inc[k] == (t2, ch);
            if k < rest.len() {
                assert(rest[k] == inc[k]);
                assert(rest.contains((t2, ch)));
                let q = choose|q: int| 0 <= q < p.len() && p[q] == (s, ch);
                assert(ps[q] == p[q]);
            } else {
                assert(ps[ps.len() - 1] == (s, ch));
            }
        }
        if t2 == t && ps.contains((s, ch)) {
            let q = choose|q: int| 0 <= q < ps.len() && ps[q] == (s, ch);
            if q < ps.len() - 1 {
                assert(p[q] == ps[q]);
                assert(p.contains((s, ch)));
                let k = choose|k: int| 0 <= k < rest.len() && rest[k] == (t2, ch);
                assert(inc[k] == rest[k]);
            } else {
                assert(inc[inc.len() - 1] == (t2, ch));
            }
        }
    }
}

proof fn lemma_outs_upto_contains(c: CanonModel, s: int, n: int, t: int, ch: bool)
    ensures
        outs_upto(c, s, n).contains((t, ch)) <==> (0 <= t < n && preds_of(c, t).contains((s, ch))),
    decreases n,
{
    if n > 0 {
        lemma_outs_upto_contains(c, s, n - 1, t, ch);
        lemma_incoming_contains(preds_of(c, n - 1), s, n - 1, t, ch);
        let a = outs_upto(c, s, n - 1);
        let b = incoming(preds_of(c, n - 1), s, n - 1);
        let o = outs_upto(c, s, n);
        assert(o == a + b);
        if o.contains((t, ch)) {
            let k = choose|k: int| 0 <= k < o.len() && o[k] == (t, ch);
            if k < a.len() {
                assert(a[k] == o[k]);
            } else {
                assert(b[k - a.len()] == o[k]);
            }
        }
        if a.contains((t, ch)) {
            let k = choose|k: int| 0 <= k < a.len() && a[k] == (t, ch);
            assert(o[k] == a[k]);
        }
        if b.contains((t, ch)) {
            let k = choose|k: int| 0 <= k < b.len() && b[k] == (t, ch);
            assert(o[a.len() + k] == b[k]);
        }
    } else {
        assert(outs_upto(c, s, n).len() == 0);
    }
}

/// Cross-references cover both directions: card `t` lists card `s` under
/// "Builds on" (or "Challenges") exactly when card `s` lists card `t` under
/// "Leads to" (or "Challenged by").
pub proof fn lemma_cross_references_symmetric(c: CanonModel, s: int, t: int, ch: bool)
    requires
        0 <= t < c.cards.len(),
    ensures
        outs_of(c, s).contains((t, ch)) <==> preds_of(c, t).contains((s, ch)),
{
    lemma_outs_upto_contains(c, s, c.cards.len() as int, t, ch);
}

proof fn lemma_no_card_issue(c: CanonModel, n: int, k: int)
    requires
        first_card_issue(c, n) is None,
        0 <= k < n,
    ensures
        card_issue(c, k) is None,
    decreases n,
{
    if k < n - 1 {
        lemma_no_card_issue(c, n - 1, k);
    }
}

proof fn lemma_no_cat_issue(cats: Seq<Seq<char>>, n: int, k: int)
    requires
        first_cat_issue(cats, n) is None,
        0 <= k < n,
    ensures
        cat_issue(cats, k) is None,
    decreases n,
{
    if k < n - 1 {
        lemma_no_cat_issue(cats, n - 1, k);
    }
}

proof fn lemma_no_earlier_slug(cards: Seq<crate::model::CardModel>, k: int, slug: Seq<char>, j: int)
    requires
        earlier_with_slug(cards, k, slug) is None,
        0 <= j < k,
    ensures
        name_slug(cards[j].name) != slug,
    decreases k,
{
    if j < k - 1 {
        lemma_no_earlier_slug(cards, k - 1, slug, j);
    }
}

proof fn lemma_slot_found(cats: Seq<Seq<char>>, n: int, cat: Seq<char>)
    requires
        0 <= n <= cats.len(),
        cats.take(n).contains(cat),
    ensures
        0 <= cat_slot(cats, n, cat) < n,
        cats[cat_slot(cats, n, cat)] == cat,
    decreases n,
{
    if cats[n - 1] != cat {
        let w = choose|w: int| 0 <= w < n && cats.take(n)[w] == cat;
        assert(cats.take(n - 1)[w] == cat);
        lemma_slot_found(cats, n - 1, cat);
    }
}

/// What a canon that passes validation guarantees the page: categories are
/// distinct, non-empty and never "All"; every card has a non-empty anchor
/// id, no two cards share one; and every card is filed under the category
/// it names, so each card lands in exactly one section.
pub proof fn lemma_validated_canon(c: CanonModel)
    requires
        first_issue(c) is None,
    ensures
        forall|j: int| 0 <= j < c.cats.len() ==> (#[trigger] c.cats[j]).len() > 0 && c.cats[j] != "All"@,
        forall|i: int, j: int| 0 <= i < j < c.cats.len() ==> c.cats[i] != c.cats[j],
        forall|k: int| 0 <= k < c.cards.len() ==> (#[trigger] card_id(c, k)).len() > 0,
        forall|j: int, k: int| 0 <= j < k < c.cards.len() ==> card_id(c, j) != card_id(c, k),
        forall|k: int| 0 <= k < c.cards.len() ==> 0 <= #[trigger] slot_of_card(c, k) < c.cats.len()
            && c.cats[slot_of_card(c, k)] == c.cards[k].category,
{
    assert(first_cat_issue(c.cats, c.cats.len() as int) is None);
    assert(first_card_issue(c, c.cards.len() as int) is None);
    assert forall|j: int| 0 <= j < c.cats.len() implies (#[trigger] c.cats[j]).len() > 0 && c.cats[j] != "All"@ by {
        lemma_no_cat_issue(c.cats, c.cats.len() as int, j);
    }
    assert forall|i: int, j: int| 0 <= i < j < c.cats.len() implies c.cats[i] != c.cats[j] by {
        lemma_no_cat_issue(c.cats, c.cats.len() as int, j);
    }
    assert forall|k: int| 0 <= k < c.cards.len() implies (#[trigger] card_id(c, k)).len() > 0 by {
        lemma_no_card_issue(c, c.cards.len() as int, k);
    }
    assert forall|j: int, k: int| 0 <= j < k < c.cards.len() implies card_id(c, j) != card_id(c, k) by {
        lemma_no_card_issue(c, c.cards.len() as int, k);
        lemma_no_earlier_slug(c.cards, k, name_slug(c.cards[k].name), j);
    }
    assert forall|k: int| 0 <= k < c.cards.len() implies 0 <= #[trigger] slot_of_card(c, k) < c.cats.len()
        && c.cats[slot_of_card(c, k)] == c.cards[k].category by {
        lemma_no_card_issue(c, c.cards.len() as int, k);
        assert(c.cats.take(c.cats.len() as int) == c.cats);
        lemma_slot_found(c.cats, c.cats.len() as int, c.cards[k].category);
    }
}

/// Within each category, the cards of one subgroup stand together: no
/// card of another subgroup of the category comes between two of them.
pub open spec fn subgroups_contiguous(cards: Seq<CardModel>) -> bool {
    forall|j: int, m: int, k: int|
        #![trigger cards[j], cards[m], cards[k]]
        0 <= j < m < k < cards.len() && cards[j].category == cards[k].category
            && cards[m].category == cards[k].category && cards[j].subgroup == cards[k].subgroup
            ==> cards[m].subgroup == cards[k].subgroup
}

/// The conditions validation checks, written out.
pub open spec fn passes_validation(c: CanonModel) -> bool {
    &&& c.cats.len() > 0
    &&& forall|j: int| 0 <= j < c.cats.len() ==> (#[trigger] c.cats[j]).len() > 0 && c.cats[j] != "All"@
    &&& forall|i: int, j: int| 0 <= i < j < c.cats.len() ==> c.cats[i] != c.cats[j]
    &&& forall|k: int| 0 <= k < c.cards.len() ==> name_slug((#[trigger] c.cards[k]).name).len() > 0
        && c.cats.contains(c.cards[k].category)
    &&& forall|j: int, k: int| 0 <= j < k < c.cards.len() ==> name_slug(c.cards[j].name) != name_slug(c.cards[k].name)
    &&& subgroups_contiguous(c.cards)
}

proof fn lemma_same_before(cards: Seq<CardModel>, k: int, j: int, t: int)
    requires
        0 <= j < t,
        cards[j].category == cards[k].category,
        cards[j].subgroup == cards[k].subgroup,
    ensures
        same_subgroup_before(cards, k, t),
    decreases t,
{
    if j < t - 1 {
        lemma_same_before(cards, k, j, t - 1);
    }
}

proof fn lemma_same_before_witness(cards: Seq<CardModel>, k: int, t: int) -> (j: int)
    requires
        t >= 0,
        same_subgroup_before(cards, k, t),
    ensures
        0 <= j < t,
        cards[j].category == cards[k].category,
        cards[j].subgroup == cards[k].subgroup,
    decreases t,
{
    if same_subgroup_before(cards, k, t - 1) {
        lemma_same_before_witness(cards, k, t - 1)
    } else {
        t - 1
    }
}

proof fn lemma_broken_iff(cards: Seq<CardModel>, k: int, t: int)
    requires
        0 <= t,
    ensures
        subgroup_broken_before(cards, k, t) <==> exists|j: int, m: int|
            0 <= j < m < t && cards[j].category == cards[k].category && cards[m].category == cards[k].category
                && cards[j].subgroup == cards[k].subgroup && #[trigger] cards[m].subgroup != cards[k].subgroup
                && #[trigger] cards[j] == cards[j],
    decreases t,
{
    if t > 0 {
        lemma_broken_iff(cards, k, t - 1);
        if subgroup_broken_before(cards, k, t) && !subgroup_broken_before(cards, k, t - 1) {
            let j = lemma_same_before_witness(cards, k, t - 1);
            assert(cards[j] == cards[j]);
            assert(cards[t - 1].subgroup != cards[k].subgroup);
        }
        if exists|j: int, m: int|
            0 <= j < m < t && cards[j].category == cards[k].category && cards[m].category == cards[k].category
                && cards[j].subgroup == cards[k].subgroup && #[trigger] cards[m].subgroup != cards[k].subgroup
                && #[trigger] cards[j] == cards[j] {
            let (j, m) = choose|j: int, m: int|
                0 <= j < m < t && cards[j].category == cards[k].category && cards[m].category == cards[k].category
                    && cards[j].subgroup == cards[k].subgroup && #[trigger] cards[m].subgroup != cards[k].subgroup
                    && #[trigger] cards[j] == cards[j];
            if m == t - 1 {
                lemma_same_before(cards, k, j, t - 1);
            } else {
                assert(cards[m].subgroup != cards[k].subgroup && cards[j] == cards[j]);
            }
        }
    }
}

proof fn lemma_no_earlier_slug_conv(cards: Seq<CardModel>, k: int, slug: Seq<char>)
    requires
        0 <= k <= cards.len(),
        forall|j: int| 0 <= j < k ==> name_slug(#[trigger] cards[j].name) != slug,
    ensures
        earlier_with_slug(cards, k, slug) is None,
    decreases k,
{
    if k > 0 {
        lemma_no_earlier_slug_conv(cards, k - 1, slug);
    }
}

/// Validation fails exactly on the documented conditions: it passes if and
/// only if the category list is non-empty, its names are non-empty, never
/// "All" and distinct, every card's slug is non-empty and unique, every card
/// names a listed category, and each subgroup stands together within its
/// category.
pub proof fn lemma_validation_iff(c: CanonModel)
    ensures
        first_issue(c) is None <==> passes_validation(c),
{
    if first_issue(c) is None {
        lemma_validated_canon(c);
        assert forall|k: int| 0 <= k < c.cards.len() implies name_slug((#[trigger] c.cards[k]).name).len() > 0
            && c.cats.contains(c.cards[k].category) by {
            lemma_no_card_issue(c, c.cards.len() as int, k);
        }
        assert forall|j: int, k: int| 0 <= j < k < c.cards.len() implies name_slug(c.cards[j].name) != name_slug(c.cards[k].name) by {
            lemma_no_card_issue(c, c.cards.len() as int, k);
            lemma_no_earlier_slug(c.cards, k, name_slug(c.cards[k].name), j);
        }
        assert forall|j: int, m: int, k: int|
            #![trigger c.cards[j], c.cards[m], c.cards[k]]
            0 <= j < m < k < c.cards.len() && c.cards[j].category == c.cards[k].category
                && c.cards[m].category == c.cards[k].category && c.cards[j].subgroup == c.cards[k].subgroup
            implies c.cards[m].subgroup == c.cards[k].subgroup by {
            lemma_no_card_issue(c, c.cards.len() as int, k);
            lemma_broken_iff(c.cards, k, k);
            if c.cards[m].subgroup != c.cards[k].subgroup {
                assert(c.cards[j] == c.cards[j]);
            }
        }
    }
    if passes_validation(c) {
        assert forall|i: int| 0 <= i < c.cats.len() implies cat_issue(c.cats, i) is None by {
            assert(c.cats[i].len() > 0 && c.cats[i] != "All"@);
        }
        lemma_all_cats_pass(c.cats, c.cats.len() as int);
        assert forall|k: int| 0 <= k < c.cards.len() implies card_issue(c, k) is None by {
            assert(name_slug(c.cards[k].name).len() > 0 && c.cats.contains(c.cards[k].category));
            lemma_no_earlier_slug_conv(c.cards, k, name_slug(c.cards[k].name));
            lemma_broken_iff(c.cards, k, k);
            assert(!subgroup_broken_before(c.cards, k, k)) by {
                if subgroup_broken_before(c.cards, k, k) {
                    let (j, m) = choose|j: int, m: int|
                        0 <= j < m < k && c.cards[j].category == c.cards[k].category
                            && c.cards[m].category == c.cards[k].category && c.cards[j].subgroup == c.cards[k].subgroup
                            && #[trigger] c.cards[m].subgroup != c.cards[k].subgroup && #[trigger] c.cards[j] == c.cards[j];
                    assert(c.cards[j] == c.cards[j] && c.cards[m] == c.cards[m] && c.cards[k] == c.cards[k]);
                }
            }
        }
        lemma_all_cards_pass(c, c.cards.len() as int);
    }
}

proof fn lemma_all_cats_pass(cats: Seq<Seq<char>>, n: int)
    requires
        forall|i: int| 0 <= i < n ==> cat_issue(cats, i) is None,
    ensures
        first_cat_issue(cats, n) is None,
    decreases n,
{
    if n > 0 {
        lemma_all_cats_pass(cats, n - 1);
    }
}

proof fn lemma_all_cards_pass(c: CanonModel, n: int)
    requires
        forall|k: int| 0 <= k < n ==> card_issue(c, k) is None,
    ensures
        first_card_issue(c, n) is None,
    decreases n,
{
    if n > 0 {
        lemma_all_cards_pass(c, n - 1);
    }
}

proof fn lemma_cat_slot_exact(cats: Seq<Seq<char>>, n: int, cat: Seq<char>)
    requires
        0 <= n <= cats.len(),
        forall|a: int, b: int| 0 <= a < b < cats.len() ==> cats[a] != cats[b],
    ensures
        forall|j: int| 0 <= j < n ==> (cat_slot(cats, n, cat) == j <==> #[trigger] cats[j] == cat),
    decreases n,
{
    if n > 0 {
        lemma_cat_slot_exact(cats, n - 1, cat);
        lemma_cat_slot(cats, n - 1, cat);
        if cats[n - 1] == cat {
            assert forall|j: int| 0 <= j < n - 1 implies #[trigger] cats[j] != cat by {
                assert(cats[j] != cats[n - 1]);
            }
        }
    }
}

proof fn lemma_members_upto(c: CanonModel, j: int, n: int)
    requires
        0 <= n <= c.cards.len() <= usize::MAX,
    ensures
        forall|a: int, b: int| 0 <= a < b < members_upto(c, j, n).len() ==> members_upto(c, j, n)[a] < members_upto(c, j, n)[b],
        forall|a: int| 0 <= a < members_upto(c, j, n).len() ==> #[trigger] members_upto(c, j, n)[a] < n,
        forall|i: int| 0 <= i < c.cards.len() ==> (members_upto(c, j, n).contains(i as usize) <==> i < n && #[trigger] slot_of_card(c, i) == j),
    decreases n,
{
    if n > 0 {
        lemma_members_upto(c, j, n - 1);
        let prev = members_upto(c, j, n - 1);
        let cur = members_upto(c, j, n);
        if slot_of_card(c, n - 1) == j {
            assert(cur == prev.push((n - 1) as usize));
            assert forall|a: int| 0 <= a < cur.len() implies #[trigger] cur[a] < n by {
                if a < prev.len() {
                    assert(cur[a] == prev[a]);
                }
            }
            assert forall|a: int, b: int| 0 <= a < b < cur.len() implies cur[a] < cur[b] by {
                assert(cur[a] == prev[a]);
                assert(prev[a] < n - 1);
                if b < prev.len() {
                    assert(cur[b] == prev[b]);
                }
            }
            assert forall|i: int| 0 <= i < c.cards.len() implies (cur.contains(i as usize) <==> i < n && #[trigger] slot_of_card(c, i) == j) by {
                if cur.contains(i as usize) {
                    let w = choose|w: int| 0 <= w < cur.len() && cur[w] == i as usize;
                    if w < prev.len() {
                        assert(prev[w] == i as usize);
                        assert(prev.contains(i as usize));
                    }
                }
                if i < n && slot_of_card(c, i) == j {
                    if i < n - 1 {
                        assert(prev.contains(i as usize));
                        let w = choose|w: int| 0 <= w < prev.len() && prev[w] == i as usize;
                        assert(cur[w] == i as usize);
                    } else {
                        assert(cur[prev.len() as int] == i as usize);
                    }
                }
            }
        } else {
            assert forall|i: int| 0 <= i < c.cards.len() implies (cur.contains(i as usize) <==> i < n && #[trigger] slot_of_card(c, i) == j) by {
                if i == n - 1 && cur.contains(i as usize) {
                    let w = choose|w: int| 0 <= w < cur.len() && cur[w] == i as usize;
                    assert(prev[w] < n - 1);
                }
            }
        }
    }
}

/// Grouping by category: when the categories are distinct, category `j`
/// lists, in ascending order, exactly the cards that name it.
pub proof fn lemma_members_exact(c: CanonModel, j: int)
    requires
        0 <= j < c.cats.len(),
        c.cards.len() <= usize::MAX,
        forall|a: int, b: int| 0 <= a < b < c.cats.len() ==> c.cats[a] != c.cats[b],
    ensures
        forall|a: int, b: int| 0 <= a < b < members(c, j).len() ==> members(c, j)[a] < members(c, j)[b],
        forall|a: int| 0 <= a < members(c, j).len() ==> #[trigger] members(c, j)[a] < c.cards.len(),
        forall|i: int| 0 <= i < c.cards.len() ==> (members(c, j).contains(i as usize) <==> #[trigger] c.cards[i].category == c.cats[j]),
{
    lemma_members_upto(c, j, c.cards.len() as int);
    assert forall|i: int| 0 <= i < c.cards.len() implies (members(c, j).contains(i as usize) <==> #[trigger] c.cards[i].category == c.cats[j]) by {
        lemma_cat_slot_exact(c.cats, c.cats.len() as int, c.cards[i].category);
        assert(slot_of_card(c, i) == j <==> c.cats[j] == c.cards[i].category);
    }
}

/// Every card is filed under exactly one category when the categories are
/// distinct and every card names one of them: so the chips count every card
/// once, and every card stands in exactly one section.
pub proof fn lemma_cards_filed_once(c: CanonModel, i: int)
    requires
        0 <= i < c.cards.len() <= usize::MAX,
        forall|a: int, b: int| 0 <= a < b < c.cats.len() ==> c.cats[a] != c.cats[b],
        c.cats.contains(c.cards[i].category),
    ensures
        exists|j: int| 0 <= j < c.cats.len() && #[trigger] members(c, j).contains(i as usize),
        forall|j1: int, j2: int| 0 <= j1 < c.cats.len() && 0 <= j2 < c.cats.len()
            && #[trigger] members(c, j1).contains(i as usize) && #[trigger] members(c, j2).contains(i as usize) ==> j1 == j2,
{
    let j = choose|j: int| 0 <= j < c.cats.len() && c.cats[j] == c.cards[i].category;
    lemma_members_exact(c, j);
    assert(members(c, j).contains(i as usize));
    assert forall|j1: int, j2: int| 0 <= j1 < c.cats.len() && 0 <= j2 < c.cats.len()
        && #[trigger] members(c, j1).contains(i as usize) && #[trigger] members(c, j2).contains(i as usize) implies j1 == j2 by {
        lemma_members_exact(c, j1);
        lemma_members_exact(c, j2);
    }
}

proof fn lemma_runs_increasing(items: Seq<usize>, key: spec_fn(usize) -> int)
    requires
        forall|a: int, b: int| 0 <= a < b < items.len() ==> key(#[trigger] items[a]) <= key(#[trigger] items[b]),
    ensures
        items.len() > 0 ==> chunk_runs(items, key).len() > 0 && chunk_runs(items, key).last().len() > 0
            && chunk_runs(items, key).last().last() == items.last(),
        forall|r1: int, r2: int| 0 <= r1 < r2 < chunk_runs(items, key).len()
            ==> key((#[trigger] chunk_runs(items, key)[r1])[0]) < key((#[trigger] chunk_runs(items, key)[r2])[0]),
    decreases items.len(),
{
    if items.len() > 0 {
        let prev = items.drop_last();
        let x = items.last();
        assert forall|a: int, b: int| 0 <= a < b < prev.len() implies key(#[trigger] prev[a]) <= key(#[trigger] prev[b]) by {
            assert(prev[a] == items[a] && prev[b] == items[b]);
        }
        lemma_runs_increasing(prev, key);
        lemma_runs_partition(prev, key);
        let pr = chunk_runs(prev, key);
        let runs = chunk_runs(items, key);
        if pr.len() > 0 && key(pr.last().last()) == key(x) {
            assert(runs == pr.update(pr.len() - 1, pr.last().push(x)));
            assert forall|r: int| 0 <= r < runs.len() implies (#[trigger] runs[r])[0] == pr[r][0] by {
                if r == pr.len() - 1 {
                    assert(pr[r].len() > 0);
                    assert(runs[r] == pr[r].push(x));
                }
            }
            assert forall|r1: int, r2: int| 0 <= r1 < r2 < runs.len() implies key((#[trigger] runs[r1])[0]) < key((#[trigger] runs[r2])[0]) by {
                assert(runs[r1][0] == pr[r1][0]);
                assert(runs[r2][0] == pr[r2][0]);
                assert(key(pr[r1][0]) < key(pr[r2][0]));
            }
        } else {
            assert(runs == pr.push(seq![x]));
            if pr.len() > 0 {
                let l = pr.len() - 1;
                assert(pr[l].len() > 0);
                assert(key(pr[l][pr[l].len() - 1]) == key(pr[l][0]));
                assert(pr.last().last() == prev.last());
                assert(prev.last() == items[items.len() - 2]);
                assert(key(items[items.len() - 2]) <= key(items[items.len() - 1]));
                assert(key(pr[l][0]) < key(x));
            }
            assert forall|r1: int, r2: int| 0 <= r1 < r2 < runs.len() implies key((#[trigger] runs[r1])[0]) < key((#[trigger] runs[r2])[0]) by {
                assert(runs[r1] == pr[r1]);
                if r2 < pr.len() {
                    assert(runs[r2] == pr[r2]);
                    assert(key(pr[r1][0]) < key(pr[r2][0]));
                } else {
                    assert(runs[r2] == seq![x]);
                    let l = pr.len() - 1;
                    if r1 < l {
                        assert(key(pr[r1][0]) < key(pr[l][0]));
                    }
                }
            }
        }
    }
}

proof fn lemma_decade_monotone(y1: int, y2: int)
    requires
        y1 <= y2,
    ensures
        decade_of(y1) <= decade_of(y2),
{
    assert((y1 / 10) * 10 <= (y2 / 10) * 10) by (nonlinear_arith)
        requires
            y1 <= y2,
    {
        assert(y1 / 10 <= y2 / 10) by (nonlinear_arith)
            requires y1 <= y2;
    }
}

/// The decade bands of the chronology: every band is non-empty, all its
/// cards share one decade (floored, so -387 falls in the -390s), and the
/// bands' decades strictly increase, so each decade has exactly one band.
pub proof fn lemma_decade_bands(c: CanonModel, d: Seq<usize>)
    requires
        c.cards.len() <= usize::MAX,
        sorted_arrangement(c, dated_upto(c, c.cards.len() as int, true), d),
    ensures
        forall|r: int| 0 <= r < chunk_runs(d, decade_key(c)).len() ==> (#[trigger] chunk_runs(d, decade_key(c))[r]).len() > 0,
        forall|r: int, a: int| 0 <= r < chunk_runs(d, decade_key(c)).len() && 0 <= a < chunk_runs(d, decade_key(c))[r].len()
            ==> decade_key(c)(#[trigger] chunk_runs(d, decade_key(c))[r][a]) == decade_key(c)(chunk_runs(d, decade_key(c))[r][0]),
        forall|r1: int, r2: int| 0 <= r1 < r2 < chunk_runs(d, decade_key(c)).len()
            ==> decade_key(c)((#[trigger] chunk_runs(d, decade_key(c))[r1])[0]) < decade_key(c)((#[trigger] chunk_runs(d, decade_key(c))[r2])[0]),
{
    let key = decade_key(c);
    let ks = sort_keys(c);
    let n = c.cards.len() as int;
    lemma_dated_upto(c, n, true);
    assert forall|a: int| 0 <= a < d.len() implies #[trigger] d[a] < n && is_dated(c, d[a] as int) by {
        assert(d.to_set().contains(d[a]));
        assert(dated_upto(c, n, true).to_set().contains(d[a]));
        let w = choose|w: int| 0 <= w < dated_upto(c, n, true).len() && dated_upto(c, n, true)[w] == d[a];
    }
    assert forall|a: int, b: int| 0 <= a < b < d.len() implies key(#[trigger] d[a]) <= key(#[trigger] d[b]) by {
        assert(before(ks, d[a], d[b]));
        assert(d[a] < n && d[b] < n);
        assert(ks[d[a] as int] == key_of(c, d[a] as int));
        assert(ks[d[b] as int] == key_of(c, d[b] as int));
        assert(is_dated(c, d[a] as int) && is_dated(c, d[b] as int));
        let ya = year_of(c, d[a] as int)->0;
        let yb = year_of(c, d[b] as int)->0;
        assert(ks[d[a] as int].0 == ya && ks[d[b] as int].0 == yb);
        assert(ya <= yb);
        lemma_decade_monotone(ya as int, yb as int);
    }
    lemma_runs_partition(d, key);
    lemma_runs_increasing(d, key);
}

/// The rows of the cards `order`, in that order.
pub open spec fn rows_of(c: CanonModel, order: Seq<usize>) -> Seq<RowModel> {
    order.map_values(|k: usize| row_of(c, k as int))
}

proof fn lemma_flatten_map<A, B>(runs: Seq<Seq<A>>, f: spec_fn(A) -> B)
    ensures
        runs.map_values(|r: Seq<A>| r.map_values(f)).flatten() == runs.flatten().map_values(f),
    decreases runs.len(),
{
    let m = runs.map_values(|r: Seq<A>| r.map_values(f));
    if runs.len() == 0 {
        assert(m.flatten() =~= runs.flatten().map_values(f));
    } else {
        lemma_flatten_map(runs.drop_first(), f);
        assert(m.drop_first() =~= runs.drop_first().map_values(|r: Seq<A>| r.map_values(f)));
        assert(m.flatten() == m.first() + m.drop_first().flatten());
        assert(runs.flatten() == runs.first() + runs.drop_first().flatten());
        assert((runs.first() + runs.drop_first().flatten()).map_values(f) =~= runs.first().map_values(f)
            + runs.drop_first().flatten().map_values(f));
    }
}

proof fn lemma_dated_split_len(c: CanonModel, n: int)
    requires
        0 <= n,
    ensures
        dated_upto(c, n, true).len() + dated_upto(c, n, false).len() == n,
    decreases n,
{
    if n > 0 {
        lemma_dated_split_len(c, n - 1);
    }
}

proof fn lemma_arrangement_members(c: CanonModel, dated: bool, o: Seq<usize>)
    requires
        c.cards.len() <= usize::MAX,
        sorted_arrangement(c, dated_upto(c, c.cards.len() as int, dated), o),
    ensures
        forall|a: int| 0 <= a < o.len() ==> #[trigger] o[a] < c.cards.len() && is_dated(c, o[a] as int) == dated,
{
    let n = c.cards.len() as int;
    lemma_dated_upto(c, n, dated);
    assert forall|a: int| 0 <= a < o.len() implies #[trigger] o[a] < n && is_dated(c, o[a] as int) == dated by {
        assert(o.to_set().contains(o[a]));
        assert(dated_upto(c, n, dated).to_set().contains(o[a]));
        let w = choose|w: int| 0 <= w < dated_upto(c, n, dated).len() && dated_upto(c, n, dated)[w] == o[a];
    }
}

/// The chronology lists every card exactly once: its rows, band after
/// band, are the rows of an arrangement of all the cards (each once),
/// the dated ones first.
pub proof fn lemma_chronology_covers_cards(c: CanonModel, decades: Seq<DecadeModel>)
    requires
        c.cards.len() <= usize::MAX,
        chronology_is(c, decades),
    ensures
        exists|order: Seq<usize>| #![trigger rows_of(c, order)]
            order.len() == c.cards.len()
            && (forall|a: int, b: int| 0 <= a < b < order.len() ==> order[a] != order[b])
            && (forall|a: int| 0 <= a < order.len() ==> order[a] < c.cards.len())
            && decades.map_values(|x: DecadeModel| x.rows).flatten() == rows_of(c, order),
{
    let n = c.cards.len() as int;
    let (d, u) = choose|d: Seq<usize>, u: Seq<usize>|
        #![trigger decades_from(c, d, u)]
        sorted_arrangement(c, dated_upto(c, n, true), d)
            && sorted_arrangement(c, dated_upto(c, n, false), u)
            && decades == decades_from(c, d, u);
    lemma_arrangement_members(c, true, d);
    lemma_arrangement_members(c, false, u);
    lemma_sorted_distinct(sort_keys(c), d);
    lemma_sorted_distinct(sort_keys(c), u);
    lemma_dated_split_len(c, n);
    let order = d + u;
    assert forall|a: int, b: int| 0 <= a < b < order.len() implies order[a] != order[b] by {
        if b < d.len() {
            assert(order[a] == d[a] && order[b] == d[b]);
        } else if a >= d.len() {
            assert(order[a] == u[a - d.len()] && order[b] == u[b - d.len()]);
        } else {
            assert(order[a] == d[a] && order[b] == u[b - d.len()]);
            assert(is_dated(c, d[a] as int) && !is_dated(c, u[b - d.len()] as int));
        }
    }
    assert forall|a: int| 0 <= a < order.len() implies order[a] < c.cards.len() by {
        if a < d.len() {
            assert(order[a] == d[a]);
        } else {
            assert(order[a] == u[a - d.len()]);
        }
    }
    let key = decade_key(c);
    let runs = chunk_runs(d, key);
    let rv = |k: usize| row_of(c, k as int);
    lemma_runs_partition(d, key);
    lemma_flatten_map(runs, rv);
    let dated_part = runs.map_values(|band: Seq<usize>| band_of(c, band));
    assert(dated_part.map_values(|x: DecadeModel| x.rows) =~= runs.map_values(|r: Seq<usize>| r.map_values(rv)));
    let undated_part: Seq<DecadeModel> = if u.len() > 0 {
        seq![DecadeModel { label: undated_label(), rows: u.map_values(|k: usize| row_of(c, k as int)) }]
    } else {
        Seq::empty()
    };
    assert(decades == dated_part + undated_part);
    assert(decades.map_values(|x: DecadeModel| x.rows) =~= dated_part.map_values(|x: DecadeModel| x.rows)
        + undated_part.map_values(|x: DecadeModel| x.rows));
    vstd::seq_lib::lemma_flatten_concat(dated_part.map_values(|x: DecadeModel| x.rows), undated_part.map_values(|x: DecadeModel| x.rows));
    if u.len() > 0 {
        assert(undated_part.map_values(|x: DecadeModel| x.rows).flatten() =~= u.map_values(rv)) by {
            let one = seq![u.map_values(rv)];
            assert(u.map_values(|k: usize| row_of(c, k as int)) =~= u.map_values(rv));
            assert(undated_part.map_values(|x: DecadeModel| x.rows) =~= one);
            one.lemma_flatten_singleton();
        }
    } else {
        assert(undated_part.map_values(|x: DecadeModel| x.rows).flatten() =~= u.map_values(rv));
    }
    assert(order.map_values(rv) =~= d.map_values(rv) + u.map_values(rv));
    assert(decades.map_values(|x: DecadeModel| x.rows).flatten() == rows_of(c, order));
}

proof fn lemma_stray_count(c: CanonModel, n: int)
    requires
        0 <= n <= c.intros.len(),
    ensures
        crate::model::stray_intro_warnings(c, n).len()
            == c.intros.take(n).filter(|e: (Seq<char>, Seq<char>)| !c.cats.contains(e.0)).len(),
    decreases n,
{
    reveal(Seq::filter);
    if n > 0 {
        lemma_stray_count(c, n - 1);
        assert(c.intros.take(n).drop_last() == c.intros.take(n - 1));
        assert(c.intros.take(n).last() == c.intros[n - 1]);
    }
}

proof fn lemma_missing_count(c: CanonModel, n: int)
    requires
        0 <= n <= c.cats.len(),
    ensures
        crate::model::missing_intro_warnings(c, n).len()
            == c.cats.take(n).filter(|cat: Seq<char>| !crate::model::has_key(c.intros, cat)).len(),
    decreases n,
{
    reveal(Seq::filter);
    if n > 0 {
        lemma_missing_count(c, n - 1);
        assert(c.cats.take(n).drop_last() == c.cats.take(n - 1));
        assert(c.cats.take(n).last() == c.cats[n - 1]);
    }
}

/// Intro mismatches only warn, once each: the warnings of a valid canon are
/// one per intro key that names no category plus one per category without
/// an intro.
pub proof fn lemma_warning_count(c: CanonModel)
    ensures
        crate::model::warnings_of(c).len()
            == c.intros.filter(|e: (Seq<char>, Seq<char>)| !c.cats.contains(e.0)).len()
            + c.cats.filter(|cat: Seq<char>| !crate::model::has_key(c.intros, cat)).len(),
{
    lemma_stray_count(c, c.intros.len() as int);
    lemma_missing_count(c, c.cats.len() as int);
    assert(c.intros.take(c.intros.len() as int) == c.intros);
    assert(c.cats.take(c.cats.len() as int) == c.cats);
}

proof fn lemma_edges_contains(c: CanonModel, n: int, s: int, t: int, ch: bool)
    requires
        0 <= n,
    ensures
        edges_upto(c, n).contains((s, t, ch)) <==> 0 <= t < n && preds_of(c, t).contains((s, ch)),
    decreases n,
{
    if n > 0 {
        lemma_edges_contains(c, n - 1, s, t, ch);
        let a = edges_upto(c, n - 1);
        let b = preds_of(c, n - 1).map_values(|p: (int, bool)| (p.0, n - 1, p.1));
        let e = edges_upto(c, n);
        assert(e == a + b);
        if e.contains((s, t, ch)) {
            let k = choose|k: int| 0 <= k < e.len() && e[k] == (s, t, ch);
            if k < a.len() {
                assert(a[k] == e[k]);
            } else {
                assert(b[k - a.len()] == e[k]);
                assert(preds_of(c, n - 1)[k - a.len()] == (s, ch));
            }
        }
        if 0 <= t < n && preds_of(c, t).contains((s, ch)) {
            if t < n - 1 {
                let k = choose|k: int| 0 <= k < a.len() && a[k] == (s, t, ch);
                assert(e[k] == a[k]);
            } else {
                let k = choose|k: int| 0 <= k < preds_of(c, t).len() && preds_of(c, t)[k] == (s, ch);
                assert(b[k] == (s, t, ch));
                assert(e[a.len() + k] == b[k]);
            }
        }
    }
}

proof fn lemma_refs_with_contains(c: CanonModel, pairs: Seq<(int, bool)>, ch: bool, r: RefModel)
    ensures
        refs_with(c, pairs, ch).contains(r) <==> exists|x: int| #[trigger] pairs.contains((x, ch)) && r == ref_model(c, x),
    decreases pairs.len(),
{
    if pairs.len() > 0 {
        let p = pairs.drop_last();
        lemma_refs_with_contains(c, p, ch, r);
        let rs = refs_with(c, pairs, ch);
        let rp = refs_with(c, p, ch);
        if rs.contains(r) {
            let k = choose|k: int| 0 <= k < rs.len() && rs[k] == r;
            if k < rp.len() {
                assert(rp[k] == r);
                assert(rp.contains(r));
                let x = choose|x: int| #[trigger] p.contains((x, ch)) && r == ref_model(c, x);
                let w = choose|w: int| 0 <= w < p.len() && p[w] == (x, ch);
                assert(pairs[w] == (x, ch));
                assert(pairs.contains((x, ch)));
            } else {
                let x = pairs.last().0;
                assert(pairs[pairs.len() - 1] == (x, ch));
                assert(pairs.contains((x, ch)));
            }
        }
        if exists|x: int| #[trigger] pairs.contains((x, ch)) && r == ref_model(c, x) {
            let x = choose|x: int| #[trigger] pairs.contains((x, ch)) && r == ref_model(c, x);
            let w = choose|w: int| 0 <= w < pairs.len() && pairs[w] == (x, ch);
            if w < p.len() {
                assert(p[w] == (x, ch));
                assert(p.contains((x, ch)));
                assert(rp.contains(r));
                let k = choose|k: int| 0 <= k < rp.len() && rp[k] == r;
                assert(rs[k] == r);
            } else {
                assert(rs[rs.len() - 1] == r);
            }
        }
    }
}

/// Cross-references list every resolved edge on both of its cards and
/// nothing else: card `i`'s "Builds on" ("Challenges" when `ch`) group
/// references exactly the cards `s` with an edge `s -> i`, and its "Leads
/// to" ("Challenged by") group exactly the cards `t` with an edge `i -> t`.
pub proof fn lemma_cross_references_are_edges(c: CanonModel, i: int, ch: bool, r: RefModel)
    requires
        0 <= i < c.cards.len(),
    ensures
        refs_with(c, preds_of(c, i), ch).contains(r) <==> exists|s: int|
            #[trigger] edges_of(c).contains((s, i, ch)) && r == ref_model(c, s),
        refs_with(c, outs_of(c, i), ch).contains(r) <==> exists|t: int|
            #[trigger] edges_of(c).contains((i, t, ch)) && r == ref_model(c, t),
{
    let n = c.cards.len() as int;
    lemma_refs_with_contains(c, preds_of(c, i), ch, r);
    lemma_refs_with_contains(c, outs_of(c, i), ch, r);
    if refs_with(c, preds_of(c, i), ch).contains(r) {
        let s = choose|x: int| #[trigger] preds_of(c, i).contains((x, ch)) && r == ref_model(c, x);
        lemma_edges_contains(c, n, s, i, ch);
    }
    if exists|s: int| #[trigger] edges_of(c).contains((s, i, ch)) && r == ref_model(c, s) {
        let s = choose|s: int| #[trigger] edges_of(c).contains((s, i, ch)) && r == ref_model(c, s);
        lemma_edges_contains(c, n, s, i, ch);
    }
    if refs_with(c, outs_of(c, i), ch).contains(r) {
        let t = choose|x: int| #[trigger] outs_of(c, i).contains((x, ch)) && r == ref_model(c, x);
        lemma_outs_upto_contains(c, i, n, t, ch);
        lemma_edges_contains(c, n, i, t, ch);
    }
    if exists|t: int| #[trigger] edges_of(c).contains((i, t, ch)) && r == ref_model(c, t) {
        let t = choose|t: int| #[trigger] edges_of(c).contains((i, t, ch)) && r == ref_model(c, t);
        lemma_edges_contains(c, n, i, t, ch);
        lemma_outs_upto_contains(c, i, n, t, ch);
    }
}

/// The card views of a section, group after group.
pub open spec fn section_cards(s: SectionModel) -> Seq<CardViewModel> {
    s.groups.map_values(|g: GroupModel| g.cards).flatten()
}

/// The views of the cards `order`, in that order.
pub open spec fn views_of(c: CanonModel, order: Seq<usize>) -> Seq<CardViewModel> {
    order.map_values(|k: usize| card_view_of(c, k as int))
}

/// The cards of the first `m` categories, category by category, in canon
/// order within each.
pub open spec fn cards_by_category(c: CanonModel, m: int) -> Seq<usize>
    decreases m,
{
    if m <= 0 {
        Seq::empty()
    } else {
        cards_by_category(c, m - 1) + members(c, m - 1)
    }
}

proof fn lemma_section_cards(c: CanonModel, j: int)
    ensures
        section_cards(section_of(c, j)) == views_of(c, members(c, j)),
{
    let items = members(c, j);
    let key = subgroup_key(c);
    let runs = chunk_runs(items, key);
    let cv = |k: usize| card_view_of(c, k as int);
    lemma_runs_partition(items, key);
    lemma_flatten_map(runs, cv);
    let gs = groups_of(c, items);
    assert(gs.map_values(|g: GroupModel| g.cards) =~= runs.map_values(|r: Seq<usize>| r.map_values(cv)));
    assert(views_of(c, items) =~= items.map_values(cv));
}

proof fn lemma_sections_flatten(c: CanonModel, m: int)
    requires
        0 <= m <= c.cats.len(),
    ensures
        sections_upto(c, m).map_values(|s: SectionModel| section_cards(s)).flatten() == views_of(c, cards_by_category(c, m)),
    decreases m,
{
    if m <= 0 {
        assert(sections_upto(c, m).map_values(|s: SectionModel| section_cards(s)).flatten() =~= views_of(c, cards_by_category(c, m)));
    } else {
        lemma_sections_flatten(c, m - 1);
        let prev = sections_upto(c, m - 1);
        let pm = prev.map_values(|s: SectionModel| section_cards(s));
        assert(views_of(c, cards_by_category(c, m)) =~= views_of(c, cards_by_category(c, m - 1)) + views_of(c, members(c, m - 1)));
        if members(c, m - 1).len() > 0 {
            lemma_section_cards(c, m - 1);
            assert(sections_upto(c, m).map_values(|s: SectionModel| section_cards(s)) =~= pm.push(section_cards(section_of(c, m - 1))));
            pm.lemma_flatten_push(section_cards(section_of(c, m - 1)));
        } else {
            assert(views_of(c, members(c, m - 1)) =~= Seq::<CardViewModel>::empty());
            assert(sections_upto(c, m) == prev);
        }
    }
}

proof fn lemma_cards_by_category(c: CanonModel, m: int)
    requires
        0 <= m <= c.cats.len(),
        c.cards.len() <= usize::MAX,
    ensures
        forall|a: int| 0 <= a < cards_by_category(c, m).len() ==> #[trigger] cards_by_category(c, m)[a] < c.cards.len()
            && 0 <= slot_of_card(c, cards_by_category(c, m)[a] as int) < m,
        forall|a: int, b: int| 0 <= a < b < cards_by_category(c, m).len() ==> cards_by_category(c, m)[a] != cards_by_category(c, m)[b],
        forall|i: int| 0 <= i < c.cards.len() && 0 <= #[trigger] slot_of_card(c, i) < m ==> cards_by_category(c, m).contains(i as usize),
    decreases m,
{
    if m > 0 {
        lemma_cards_by_category(c, m - 1);
        lemma_members_upto(c, m - 1, c.cards.len() as int);
        let p = cards_by_category(c, m - 1);
        let q = members(c, m - 1);
        let all = cards_by_category(c, m);
        assert(all == p + q);
        assert forall|a: int| 0 <= a < all.len() implies #[trigger] all[a] < c.cards.len()
            && 0 <= slot_of_card(c, all[a] as int) < m by {
            if a < p.len() {
                assert(all[a] == p[a]);
            } else {
                assert(all[a] == q[a - p.len()]);
                assert(q.contains(q[a - p.len()]));
            }
        }
        assert forall|a: int, b: int| 0 <= a < b < all.len() implies all[a] != all[b] by {
            if b < p.len() {
                assert(all[a] == p[a] && all[b] == p[b]);
            } else if a >= p.len() {
                assert(all[a] == q[a - p.len()] && all[b] == q[b - p.len()]);
            } else {
                assert(all[a] == p[a] && all[b] == q[b - p.len()]);
                assert(q.contains(q[b - p.len()]));
                assert(slot_of_card(c, p[a] as int) < m - 1);
            }
        }
        assert forall|i: int| 0 <= i < c.cards.len() && 0 <= #[trigger] slot_of_card(c, i) < m implies all.contains(i as usize) by {
            if slot_of_card(c, i) < m - 1 {
                let w = choose|w: int| 0 <= w < p.len() && p[w] == i as usize;
                assert(all[w] == p[w]);
            } else {
                assert(q.contains(i as usize));
                let w = choose|w: int| 0 <= w < q.len() && q[w] == i as usize;
                assert(all[p.len() + w] == q[w]);
            }
        }
    }
}

/// The sections list every card exactly once, category by category and in
/// canon order within a category, when the categories are distinct and
/// every card names one of them: flattening sections, then groups, gives
/// the views of an arrangement of all the cards.
pub proof fn lemma_sections_cover_cards(c: CanonModel)
    requires
        c.cards.len() <= usize::MAX,
        forall|a: int, b: int| 0 <= a < b < c.cats.len() ==> c.cats[a] != c.cats[b],
        forall|k: int| 0 <= k < c.cards.len() ==> c.cats.contains(#[trigger] c.cards[k].category),
    ensures
        sections_upto(c, c.cats.len() as int).map_values(|s: SectionModel| section_cards(s)).flatten()
            == views_of(c, cards_by_category(c, c.cats.len() as int)),
        cards_by_category(c, c.cats.len() as int).len() == c.cards.len(),
        forall|a: int| 0 <= a < cards_by_category(c, c.cats.len() as int).len()
            ==> #[trigger] cards_by_category(c, c.cats.len() as int)[a] < c.cards.len(),
        forall|a: int, b: int| 0 <= a < b < cards_by_category(c, c.cats.len() as int).len()
            ==> cards_by_category(c, c.cats.len() as int)[a] != cards_by_category(c, c.cats.len() as int)[b],
        forall|k: usize| (k as int) < c.cards.len() ==> #[trigger] cards_by_category(c, c.cats.len() as int).contains(k),
{
    let m = c.cats.len() as int;
    lemma_sections_flatten(c, m);
    lemma_cards_by_category(c, m);
    let all = cards_by_category(c, m);
    assert forall|k: usize| (k as int) < c.cards.len() implies #[trigger] all.contains(k) by {
        let i = k as int;
        assert(c.cats.contains(c.cards[i].category));
        assert(c.cats.take(m) == c.cats);
        lemma_slot_found(c.cats, m, c.cards[i].category);
        assert(0 <= slot_of_card(c, i) < m);
        assert(i as usize == k);
    }
    // Distinct, bounded and covering: a permutation of the cards.
    let full = Set::new(|k: usize| (k as int) < c.cards.len());
    assert(all.to_set() =~= full) by {
        assert forall|k: usize| all.to_set().contains(k) implies full.contains(k) by {
            let w = choose|w: int| 0 <= w < all.len() && all[w] == k;
        }
    }
    assert(all.no_duplicates()) by {
        assert forall|a: int, b: int| 0 <= a < all.len() && 0 <= b < all.len() && a != b implies all[a] != all[b] by {
            if a > b {
                assert(all[b] != all[a]);
            }
        }
    }
    all.unique_seq_to_set();
    let r = Seq::new(c.cards.len() as nat, |k: int| k as usize);
    assert(r.to_set() =~= full) by {
        assert forall|k: usize| full.contains(k) implies r.to_set().contains(k) by {
            assert(r[k as int] == k);
        }
    }
    assert(r.no_duplicates());
    r.unique_seq_to_set();
}

proof fn lemma_members_count(c: CanonModel, j: int, n: int)
    requires
        0 <= j < c.cats.len(),
        0 <= n <= c.cards.len(),
        forall|a: int, b: int| 0 <= a < b < c.cats.len() ==> c.cats[a] != c.cats[b],
    ensures
        members_upto(c, j, n).len() == c.cards.take(n).filter(|card: CardModel| card.category == c.cats[j]).len(),
    decreases n,
{
    reveal(Seq::filter);
    if n > 0 {
        lemma_members_count(c, j, n - 1);
        lemma_cat_slot_exact(c.cats, c.cats.len() as int, c.cards[n - 1].category);
        assert(c.cards.take(n).drop_last() == c.cards.take(n - 1));
        assert(c.cards.take(n).last() == c.cards[n - 1]);
    }
}

/// Each chip counts the cards that name its category, when the categories
/// are distinct.
pub proof fn lemma_chip_counts(c: CanonModel, j: int)
    requires
        0 <= j < c.cats.len(),
        forall|a: int, b: int| 0 <= a < b < c.cats.len() ==> c.cats[a] != c.cats[b],
    ensures
        chips_of(c)[j].category == c.cats[j],
        chips_of(c)[j].count == c.cards.filter(|card: CardModel| card.category == c.cats[j]).len(),
{
    lemma_members_count(c, j, c.cards.len() as int);
    assert(c.cards.take(c.cards.len() as int) == c.cards);
}

proof fn lemma_digits_nonempty(m: nat)
    ensures
        digits_of(m).len() > 0,
    decreases m,
{
    if m >= 10 {
        lemma_digits_nonempty(m / 10);
    }
}

/// Each card view carries its own card's texts: the anchor id is the slug
/// of its name, the name, category, origin, definition, use-when and
/// watch-out texts and the links are the card's own, and the two labels
/// are the card's non-empty overrides or "Use when" / "Watch out".
pub proof fn lemma_card_view_fields(canon: Canon, i: int)
    requires
        0 <= i < canon.cards@.len(),
    ensures
        card_view_of(canon@, i).id == slug_of(lowercase(canon.cards@[i].n@)),
        card_view_of(canon@, i).name == canon.cards@[i].n@,
        card_view_of(canon@, i).category == canon.cards@[i].c@,
        card_view_of(canon@, i).origin == canon.cards@[i].o@,
        card_view_of(canon@, i).definition == canon.cards@[i].d@,
        card_view_of(canon@, i).use_when == canon.cards@[i].u@,
        card_view_of(canon@, i).watch_out == canon.cards@[i].w@,
        card_view_of(canon@, i).links == canon.cards@[i].l@.map_values(|p: (String, String)| (p.0@, p.1@)),
        card_view_of(canon@, i).use_label == (if canon.cards@[i].ul is Some && canon.cards@[i].ul->0@.len() > 0 {
            canon.cards@[i].ul->0@
        } else {
            "Use when"@
        }),
        card_view_of(canon@, i).watch_label == (if canon.cards@[i].wl is Some && canon.cards@[i].wl->0@.len() > 0 {
            canon.cards@[i].wl->0@
        } else {
            "Watch out"@
        }),
{
    assert(canon@.cards[i] == canon.cards@[i]@);
}

/// A chronology row shows a year only when the card is dated (a lineage
/// year other than 0) and its origin line mentions that year's decimal
/// rendering; it then shows exactly that rendering, and otherwise nothing.
pub proof fn lemma_year_label(canon: Canon, i: int)
    requires
        0 <= i < canon.cards@.len(),
    ensures
        row_of(canon@, i).year_label.len() > 0 <==> (year_of(canon@, i) is Some && year_of(canon@, i)->0 != 0
            && exists|k: int| 0 <= k && k + decimal_of(year_of(canon@, i)->0 as int).len() <= canon.cards@[i].o@.len()
                && #[trigger] canon.cards@[i].o@.subrange(k, k + decimal_of(year_of(canon@, i)->0 as int).len())
                    == decimal_of(year_of(canon@, i)->0 as int)),
        row_of(canon@, i).year_label.len() > 0 ==> row_of(canon@, i).year_label == decimal_of(year_of(canon@, i)->0 as int),
        row_of(canon@, i).id == slug_of(lowercase(canon.cards@[i].n@)),
        row_of(canon@, i).name == canon.cards@[i].n@,
        row_of(canon@, i).category == canon.cards@[i].c@,
{
    assert(canon@.cards[i] == canon.cards@[i]@);
    if year_of(canon@, i) is Some {
        let y = year_of(canon@, i)->0 as int;
        lemma_digits_nonempty(if y < 0 { (-y) as nat } else { y as nat });
        assert(decimal_of(y).len() > 0);
        let o = canon.cards@[i].o@;
        let t = decimal_of(y);
        if exists|k: int| 0 <= k && k + t.len() <= o.len() && #[trigger] o.subrange(k, k + t.len()) == t {
            let k = choose|k: int| 0 <= k && k + t.len() <= o.len() && #[trigger] o.subrange(k, k + t.len()) == t;
            assert(occurs_at(o, t, k));
        }
        if contains_seq(o, t) {
            let k = choose|k: int| occurs_at(o, t, k);
            assert(o.subrange(k, k + t.len()) == t);
        }
    }
}

proof fn lemma_refs_nonempty(c: CanonModel, pairs: Seq<(int, bool)>, ch: bool)
    ensures
        refs_with(c, pairs, ch).len() > 0 <==> exists|x: int| #[trigger] pairs.contains((x, ch)),
{
    let rs = refs_with(c, pairs, ch);
    if rs.len() > 0 {
        lemma_refs_with_contains(c, pairs, ch, rs[0]);
        assert(rs.contains(rs[0]));
    }
    if exists|x: int| #[trigger] pairs.contains((x, ch)) {
        let x = choose|x: int| #[trigger] pairs.contains((x, ch));
        lemma_refs_with_contains(c, pairs, ch, ref_model(c, x));
    }
}

/// The position of a cross-reference label in the display order.
pub open spec fn label_rank(label: Seq<char>) -> int {
    if label == "Builds on"@ {
        0
    } else if label == "Challenges"@ {
        1
    } else if label == "Leads to"@ {
        2
    } else {
        3
    }
}

/// A card view's cross-reference groups: at most one each of "Builds on",
/// "Challenges", "Leads to" and "Challenged by", in that order, none empty.
/// "Builds on" ("Challenges") is present exactly when a plain (challenge)
/// edge `s -> i` exists and references exactly those cards `s`; "Leads to"
/// ("Challenged by") likewise for the edges `i -> t`. A card the view only
/// challenges is never listed as built on, and the other way round.
pub proof fn lemma_card_groups(c: CanonModel, i: int)
    requires
        0 <= i < c.cards.len(),
    ensures
        forall|a: int| 0 <= a < card_view_of(c, i).groups.len() ==> {
            let g = #[trigger] card_view_of(c, i).groups[a];
            &&& g.refs.len() > 0
            &&& (g.label == "Builds on"@ || g.label == "Challenges"@ || g.label == "Leads to"@ || g.label == "Challenged by"@)
            &&& (g.label == "Builds on"@ ==> !g.challenges && forall|r: RefModel| g.refs.contains(r) <==> exists|s: int|
                #[trigger] edges_of(c).contains((s, i, false)) && r == ref_model(c, s))
            &&& (g.label == "Challenges"@ ==> g.challenges && forall|r: RefModel| g.refs.contains(r) <==> exists|s: int|
                #[trigger] edges_of(c).contains((s, i, true)) && r == ref_model(c, s))
            &&& (g.label == "Leads to"@ ==> !g.challenges && forall|r: RefModel| g.refs.contains(r) <==> exists|t: int|
                #[trigger] edges_of(c).contains((i, t, false)) && r == ref_model(c, t))
            &&& (g.label == "Challenged by"@ ==> g.challenges && forall|r: RefModel| g.refs.contains(r) <==> exists|t: int|
                #[trigger] edges_of(c).contains((i, t, true)) && r == ref_model(c, t))
        },
        forall|a: int, b: int| 0 <= a < b < card_view_of(c, i).groups.len()
            ==> label_rank(card_view_of(c, i).groups[a].label) < label_rank(card_view_of(c, i).groups[b].label),
        (exists|a: int| 0 <= a < card_view_of(c, i).groups.len() && #[trigger] card_view_of(c, i).groups[a].label == "Builds on"@)
            <==> exists|s: int| #[trigger] edges_of(c).contains((s, i, false)),
        (exists|a: int| 0 <= a < card_view_of(c, i).groups.len() && #[trigger] card_view_of(c, i).groups[a].label == "Challenges"@)
            <==> exists|s: int| #[trigger] edges_of(c).contains((s, i, true)),
        (exists|a: int| 0 <= a < card_view_of(c, i).groups.len() && #[trigger] card_view_of(c, i).groups[a].label == "Leads to"@)
            <==> exists|t: int| #[trigger] edges_of(c).contains((i, t, false)),
        (exists|a: int| 0 <= a < card_view_of(c, i).groups.len() && #[trigger] card_view_of(c, i).groups[a].label == "Challenged by"@)
            <==> exists|t: int| #[trigger] edges_of(c).contains((i, t, true)),
{
    reveal_strlit("Builds on");
    reveal_strlit("Challenges");
    reveal_strlit("Leads to");
    reveal_strlit("Challenged by");
    let n = c.cards.len() as int;
    let gs = card_view_of(c, i).groups;
    let r0 = refs_with(c, preds_of(c, i), false);
    let r1 = refs_with(c, preds_of(c, i), true);
    let r2 = refs_with(c, outs_of(c, i), false);
    let r3 = refs_with(c, outs_of(c, i), true);
    let g0 = group_if_any("Builds on"@, false, r0);
    let g1 = group_if_any("Challenges"@, true, r1);
    let g2 = group_if_any("Leads to"@, false, r2);
    let g3 = group_if_any("Challenged by"@, true, r3);
    assert(gs == g0 + g1 + g2 + g3);
    assert("Challenges"@[0] != "Builds on"@[0]);
    assert("Leads to"@[0] != "Builds on"@[0] && "Leads to"@[0] != "Challenges"@[0]);
    assert("Challenged by"@[0] != "Builds on"@[0] && "Challenged by"@[0] != "Leads to"@[0]);
    assert("Challenged by"@.len() != "Challenges"@.len());
    assert(label_rank("Builds on"@) == 0);
    assert(label_rank("Challenges"@) == 1);
    assert(label_rank("Leads to"@) == 2);
    assert(label_rank("Challenged by"@) == 3);
    // Each group's refs, read as edges.
    assert forall|r: RefModel| r0.contains(r) <==> exists|s: int| #[trigger] edges_of(c).contains((s, i, false)) && r == ref_model(c, s) by {
        lemma_cross_references_are_edges(c, i, false, r);
    }
    assert forall|r: RefModel| r1.contains(r) <==> exists|s: int| #[trigger] edges_of(c).contains((s, i, true)) && r == ref_model(c, s) by {
        lemma_cross_references_are_edges(c, i, true, r);
    }
    assert forall|r: RefModel| r2.contains(r) <==> exists|t: int| #[trigger] edges_of(c).contains((i, t, false)) && r == ref_model(c, t) by {
        lemma_cross_references_are_edges(c, i, false, r);
    }
    assert forall|r: RefModel| r3.contains(r) <==> exists|t: int| #[trigger] edges_of(c).contains((i, t, true)) && r == ref_model(c, t) by {
        lemma_cross_references_are_edges(c, i, true, r);
    }
    // A group is present exactly when an edge of its kind exists.
    lemma_refs_nonempty(c, preds_of(c, i), false);
    lemma_refs_nonempty(c, preds_of(c, i), true);
    lemma_refs_nonempty(c, outs_of(c, i), false);
    lemma_refs_nonempty(c, outs_of(c, i), true);
    assert((exists|x: int| #[trigger] preds_of(c, i).contains((x, false))) <==> exists|s: int| #[trigger] edges_of(c).contains((s, i, false))) by {
        if exists|x: int| #[trigger] preds_of(c, i).contains((x, false)) {
            let x = choose|x: int| #[trigger] preds_of(c, i).contains((x, false));
            lemma_edges_contains(c, n, x, i, false);
            assert(edges_of(c).contains((x, i, false)));
        }
        if exists|s: int| #[trigger] edges_of(c).contains((s, i, false)) {
            let s = choose|s: int| #[trigger] edges_of(c).contains((s, i, false));
            lemma_edges_contains(c, n, s, i, false);
            assert(preds_of(c, i).contains((s, false)));
        }
    }
    assert((exists|x: int| #[trigger] preds_of(c, i).contains((x, true))) <==> exists|s: int| #[trigger] edges_of(c).contains((s, i, true))) by {
        if exists|x: int| #[trigger] preds_of(c, i).contains((x, true)) {
            let x = choose|x: int| #[trigger] preds_of(c, i).contains((x, true));
            lemma_edges_contains(c, n, x, i, true);
            assert(edges_of(c).contains((x, i, true)));
        }
        if exists|s: int| #[trigger] edges_of(c).contains((s, i, true)) {
            let s = choose|s: int| #[trigger] edges_of(c).contains((s, i, true));
            lemma_edges_contains(c, n, s, i, true);
            assert(preds_of(c, i).contains((s, true)));
        }
    }
    assert((exists|x: int| #[trigger] outs_of(c, i).contains((x, false))) <==> exists|t: int| #[trigger] edges_of(c).contains((i, t, false))) by {
        if exists|x: int| #[trigger] outs_of(c, i).contains((x, false)) {
            let x = choose|x: int| #[trigger] outs_of(c, i).contains((x, false));
            lemma_outs_upto_contains(c, i, n, x, false);
            lemma_edges_contains(c, n, i, x, false);
        }
        if exists|t: int| #[trigger] edges_of(c).contains((i, t, false)) {
            let t = choose|t: int| #[trigger] edges_of(c).contains((i, t, false));
            lemma_edges_contains(c, n, i, t, false);
            lemma_outs_upto_contains(c, i, n, t, false);
        }
    }
    assert((exists|x: int| #[trigger] outs_of(c, i).contains((x, true))) <==> exists|t: int| #[trigger] edges_of(c).contains((i, t, true))) by {
        if exists|x: int| #[trigger] outs_of(c, i).contains((x, true)) {
            let x = choose|x: int| #[trigger] outs_of(c, i).contains((x, true));
            lemma_outs_upto_contains(c, i, n, x, true);
            lemma_edges_contains(c, n, i, x, true);
        }
        if exists|t: int| #[trigger] edges_of(c).contains((i, t, true)) {
            let t = choose|t: int| #[trigger] edges_of(c).contains((i, t, true));
            lemma_edges_contains(c, n, i, t, true);
            lemma_outs_upto_contains(c, i, n, t, true);
        }
    }
    // Where each group sits.
    let l0 = g0.len() as int;
    let l1 = g1.len() as int;
    let l2 = g2.len() as int;
    assert forall|a: int| 0 <= a < gs.len() implies
        (a < l0 && gs[a] == g0[0]) || (l0 <= a < l0 + l1 && gs[a] == g1[0])
        || (l0 + l1 <= a < l0 + l1 + l2 && gs[a] == g2[0]) || (l0 + l1 + l2 <= a && gs[a] == g3[0]) by {
        if a < l0 {
            assert(gs[a] == g0[a]);
        } else if a < l0 + l1 {
            assert(gs[a] == g1[a - l0]);
        } else if a < l0 + l1 + l2 {
            assert(gs[a] == g2[a - l0 - l1]);
        } else {
            assert(gs[a] == g3[a - l0 - l1 - l2]);
        }
    }
    if l0 > 0 {
        assert(gs[0] == g0[0]);
    }
    if l1 > 0 {
        assert(gs[l0] == g1[0]);
    }
    if l2 > 0 {
        assert(gs[l0 + l1] == g2[0]);
    }
    if g3.len() > 0 {
        assert(gs[l0 + l1 + l2] == g3[0]);
    }
    if exists|s: int| #[trigger] edges_of(c).contains((s, i, false)) {
        assert(r0.len() > 0);
        assert(gs[0].label == "Builds on"@);
    }
    if exists|a: int| 0 <= a < gs.len() && #[trigger] gs[a].label == "Builds on"@ {
        let a = choose|a: int| 0 <= a < gs.len() && #[trigger] gs[a].label == "Builds on"@;
        assert(a < l0);
        assert(r0.len() > 0);
    }
    if exists|s: int| #[trigger] edges_of(c).contains((s, i, true)) {
        assert(r1.len() > 0);
        assert(gs[l0].label == "Challenges"@);
    }
    if exists|a: int| 0 <= a < gs.len() && #[trigger] gs[a].label == "Challenges"@ {
        let a = choose|a: int| 0 <= a < gs.len() && #[trigger] gs[a].label == "Challenges"@;
        assert(l0 <= a < l0 + l1);
        assert(r1.len() > 0);
    }
    if exists|t: int| #[trigger] edges_of(c).contains((i, t, false)) {
        assert(r2.len() > 0);
        assert(gs[l0 + l1].label == "Leads to"@);
    }
    if exists|a: int| 0 <= a < gs.len() && #[trigger] gs[a].label == "Leads to"@ {
        let a = choose|a: int| 0 <= a < gs.len() && #[trigger] gs[a].label == "Leads to"@;
        assert(l0 + l1 <= a < l0 + l1 + l2);
        assert(r2.len() > 0);
    }
    if exists|t: int| #[trigger] edges_of(c).contains((i, t, true)) {
        assert(r3.len() > 0);
        assert(gs[l0 + l1 + l2].label == "Challenged by"@);
    }
    if exists|a: int| 0 <= a < gs.len() && #[trigger] gs[a].label == "Challenged by"@ {
        let a = choose|a: int| 0 <= a < gs.len() && #[trigger] gs[a].label == "Challenged by"@;
        assert(l0 + l1 + l2 <= a);
        assert(r3.len() > 0);
    }
}

/// The collation weights of card `k`'s name: lowercased, decomposed,
/// combining marks dropped, each char with its class.
pub open spec fn name_weights(c: CanonModel, k: int) -> Seq<(u8, char)> {
    primary_of(nfkd(lowercase(c.cards[k].name)))
}

/// The chronology's row order: dated cards by year; cards of one year by
/// the collation weights of their names, then by the names' code points;
/// undated cards by the weights, then the code points.
pub proof fn lemma_chronology_order(c: CanonModel, d: Seq<usize>, u: Seq<usize>)
    requires
        c.cards.len() <= usize::MAX,
        sorted_arrangement(c, dated_upto(c, c.cards.len() as int, true), d),
        sorted_arrangement(c, dated_upto(c, c.cards.len() as int, false), u),
    ensures
        forall|a: int, b: int| #![trigger d[a], d[b]] 0 <= a < b < d.len() ==> {
            let ya = year_of(c, d[a] as int)->0;
            let yb = year_of(c, d[b] as int)->0;
            &&& year_of(c, d[a] as int) is Some && ya != 0
            &&& ya <= yb
            &&& (ya == yb ==> !lex_lt(name_weights(c, d[b] as int), name_weights(c, d[a] as int)))
            &&& (ya == yb && name_weights(c, d[a] as int) == name_weights(c, d[b] as int)
                ==> !lex_lt(c.cards[d[b] as int].name.map_values(|ch: char| (0u8, ch)), c.cards[d[a] as int].name.map_values(|ch: char| (0u8, ch))))
        },
        forall|a: int, b: int| #![trigger u[a], u[b]] 0 <= a < b < u.len() ==> {
            &&& !is_dated(c, u[a] as int)
            &&& !lex_lt(name_weights(c, u[b] as int), name_weights(c, u[a] as int))
            &&& (name_weights(c, u[a] as int) == name_weights(c, u[b] as int)
                ==> !lex_lt(c.cards[u[b] as int].name.map_values(|ch: char| (0u8, ch)), c.cards[u[a] as int].name.map_values(|ch: char| (0u8, ch))))
        },
{
    let ks = sort_keys(c);
    lemma_arrangement_members(c, true, d);
    lemma_arrangement_members(c, false, u);
    assert forall|a: int, b: int| #![trigger d[a], d[b]] 0 <= a < b < d.len() implies {
        let ya = year_of(c, d[a] as int)->0;
        let yb = year_of(c, d[b] as int)->0;
        &&& year_of(c, d[a] as int) is Some && ya != 0
        &&& ya <= yb
        &&& (ya == yb ==> !lex_lt(name_weights(c, d[b] as int), name_weights(c, d[a] as int)))
        &&& (ya == yb && name_weights(c, d[a] as int) == name_weights(c, d[b] as int)
            ==> !lex_lt(c.cards[d[b] as int].name.map_values(|ch: char| (0u8, ch)), c.cards[d[a] as int].name.map_values(|ch: char| (0u8, ch))))
    } by {
        let x = d[a];
        let y = d[b];
        assert(before(ks, x, y));
        assert(ks[x as int] == key_of(c, x as int));
        assert(ks[y as int] == key_of(c, y as int));
        assert(is_dated(c, x as int) && is_dated(c, y as int));
        lemma_lex_order(name_weights(c, x as int), name_weights(c, y as int), name_weights(c, x as int));
        lemma_lex_order(raw_weights(c.cards[x as int].name), raw_weights(c.cards[y as int].name), raw_weights(c.cards[x as int].name));
    }
    assert forall|a: int, b: int| #![trigger u[a], u[b]] 0 <= a < b < u.len() implies {
        &&& !is_dated(c, u[a] as int)
        &&& !lex_lt(name_weights(c, u[b] as int), name_weights(c, u[a] as int))
        &&& (name_weights(c, u[a] as int) == name_weights(c, u[b] as int)
            ==> !lex_lt(c.cards[u[b] as int].name.map_values(|ch: char| (0u8, ch)), c.cards[u[a] as int].name.map_values(|ch: char| (0u8, ch))))
    } by {
        let x = u[a];
        let y = u[b];
        assert(before(ks, x, y));
        assert(ks[x as int] == key_of(c, x as int));
        assert(ks[y as int] == key_of(c, y as int));
        lemma_lex_order(name_weights(c, x as int), name_weights(c, y as int), name_weights(c, x as int));
        lemma_lex_order(raw_weights(c.cards[x as int].name), raw_weights(c.cards[y as int].name), raw_weights(c.cards[x as int].name));
    }
}

/// Decades are floored: the decade of `y` is the multiple of ten at or
/// just below it (so -387 falls in the -390s, not the -380s).
pub proof fn lemma_decade_floor(y: int)
    ensures
        decade_of(y) <= y < decade_of(y) + 10,
        decade_of(y) % 10 == 0,
{
    assert(decade_of(y) <= y < decade_of(y) + 10 && decade_of(y) % 10 == 0) by (nonlinear_arith)
        requires
            decade_of(y) == (y / 10) * 10,
    {
        assert(y == (y / 10) * 10 + y % 10);
        assert(0 <= y % 10 < 10);
    }
}

/// A section is headed by its category and carries the category's intro
/// from the intros table, or an empty intro when the table has none.
pub proof fn lemma_section_fields(canon: Canon, j: int)
    requires
        0 <= j < canon.cats@.len(),
    ensures
        section_of(canon@, j).category == canon.cats@[j]@,
        lookup(canon.intros@, canon.cats@[j]@) is Some ==> section_of(canon@, j).intro == lookup(canon.intros@, canon.cats@[j]@)->0,
        lookup(canon.intros@, canon.cats@[j]@) is None ==> section_of(canon@, j).intro.len() == 0,
{
    assert(canon@.cats[j] == canon.cats@[j]@);
}

} // verus!
