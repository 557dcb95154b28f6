//! The lineage graph: which card each predecessor name resolves to, the
//! per-card year, the edges in page order, the reverse ("leads to")
//! adjacency, and the misses diagnostic.

use vstd::prelude::*;

use crate::model::{Canon, Card, CanonModel, CardModel, LineageModel, lookup, texts};
use crate::util::{str_equal, owned, concat2};
use crate::order::{SortKey, sort_rows, sorted_by, raw_weights, weights_of};

verus! {

broadcast use vstd::string::group_string_axioms;

/// The card models of a card list.
pub open spec fn card_models(cards: Seq<Card>) -> Seq<CardModel> {
    cards.map_values(|c: Card| c@)
}

/// Pairs with their positions as integers.
pub open spec fn pairs_view(v: Seq<(usize, bool)>) -> Seq<(int, bool)> {
    v.map_values(|p: (usize, bool)| (p.0 as int, p.1))
}

/// The last of the first `n` cards named `name`, or -1.
pub open spec fn last_named(cards: Seq<CardModel>, n: int, name: Seq<char>) -> int
    decreases n,
{
    if n <= 0 {
        -1
    } else if cards[n - 1].name == name {
        n - 1
    } else {
        last_named(cards, n - 1, name)
    }
}

/// The card a name refers to: the last card with that name (as a map from
/// name to position built in card order would hold), or -1.
pub open spec fn card_index(c: CanonModel, name: Seq<char>) -> int {
    last_named(c.cards, c.cards.len() as int, name)
}

pub proof fn lemma_last_named(cards: Seq<CardModel>, n: int, name: Seq<char>)
    requires
        0 <= n <= cards.len(),
    ensures
        -1 <= last_named(cards, n, name) < n,
        last_named(cards, n, name) >= 0 ==> cards[last_named(cards, n, name)].name == name,
        last_named(cards, n, name) == -1 ==> forall|k: int| 0 <= k < n ==> #[trigger] cards[k].name != name,
    decreases n,
{
    if n > 0 {
        lemma_last_named(cards, n - 1, name);
    }
}

/// A predecessor entry: a leading `!` marks a challenge and is not part of
/// the name.
pub open spec fn parse_pred(raw: Seq<char>) -> (bool, Seq<char>) {
    if raw.len() > 0 && raw[0] == '!' {
        (true, raw.drop_first())
    } else {
        (false, raw)
    }
}

/// The lineage entry of card `i`.
pub open spec fn lineage_of(c: CanonModel, i: int) -> Option<LineageModel> {
    lookup(c.lineage, c.cards[i].name)
}

/// The year of card `i`, if it has a lineage entry.
pub open spec fn year_of(c: CanonModel, i: int) -> Option<i64> {
    match lineage_of(c, i) {
        Some(l) => Some(l.year),
        None => None,
    }
}

/// The raw predecessor entries of card `i`.
pub open spec fn pred_list(c: CanonModel, i: int) -> Seq<Seq<char>> {
    match lineage_of(c, i) {
        Some(l) => match l.preds {
            Some(p) => p,
            None => Seq::empty(),
        },
        None => Seq::empty(),
    }
}

/// The entries of `ps` that name a card, as (card, challenges) pairs.
pub open spec fn resolved(c: CanonModel, ps: Seq<Seq<char>>) -> Seq<(int, bool)>
    decreases ps.len(),
{
    if ps.len() == 0 {
        Seq::empty()
    } else {
        let rest = resolved(c, ps.drop_last());
        let (ch, name) = parse_pred(ps.last());
        let k = card_index(c, name);
        if k >= 0 {
            rest.push((k, ch))
        } else {
            rest
        }
    }
}

/// The predecessors of card `i` that resolve, in entry order.
pub open spec fn preds_of(c: CanonModel, i: int) -> Seq<(int, bool)> {
    resolved(c, pred_list(c, i))
}

/// `<card> -> <missing predecessor>` for the entries of `ps` that name no card.
pub open spec fn unresolved(c: CanonModel, card: Seq<char>, ps: Seq<Seq<char>>) -> Seq<Seq<char>>
    decreases ps.len(),
{
    if ps.len() == 0 {
        Seq::empty()
    } else {
        let rest = unresolved(c, card, ps.drop_last());
        let (ch, name) = parse_pred(ps.last());
        if card_index(c, name) >= 0 {
            rest
        } else {
            rest.push(card + " -> "@ + name)
        }
    }
}

/// The edge misses of the first `n` cards, in card order.
pub open spec fn edge_misses(c: CanonModel, n: int) -> Seq<Seq<char>>
    decreases n,
{
    if n <= 0 {
        Seq::empty()
    } else {
        edge_misses(c, n - 1) + unresolved(c, c.cards[n - 1].name, pred_list(c, n - 1))
    }
}

/// Positions, among the first `n` lineage entries, of those whose key is no
/// card's name.
pub open spec fn orphan_positions(c: CanonModel, n: int) -> Seq<usize>
    decreases n,
{
    if n <= 0 {
        Seq::empty()
    } else if card_index(c, c.lineage[n - 1].0) < 0 {
        orphan_positions(c, n - 1).push((n - 1) as usize)
    } else {
        orphan_positions(c, n - 1)
    }
}

fn find_card(cards: &Vec<Card>, name: &str) -> (r: Option<usize>)
    ensures
        r matches Some(i) ==> i as int == last_named(card_models(cards@), cards@.len() as int, name@),
        r is None ==> last_named(card_models(cards@), cards@.len() as int, name@) == -1,
{
    let ghost cm = card_models(cards@);
    let mut i = cards.len();
    while i > 0
        invariant
            i <= cards@.len(),
            cm == card_models(cards@),
            last_named(cm, cards@.len() as int, name@) == last_named(cm, i as int, name@),
        decreases i,
    {
        assert(cm[i - 1] == cards@[i - 1]@);
        if str_equal(cards[i - 1].n.as_str(), name) {
            return Some(i - 1);
        }
        i = i - 1;
    }
    None
}

fn split_pred(raw: &String) -> (r: (bool, String))
    ensures
        (r.0, r.1@) == parse_pred(raw@),
{
    let s = raw.as_str();
    let n = s.unicode_len();
    if n > 0 && s.get_char(0) == '!' {
        let rest = s.substring_char(1, n);
        assert(raw@.subrange(1, n as int) == raw@.drop_first());
        (true, owned(rest))
    } else {
        (false, raw.clone())
    }
}

/// Per-card years and resolved predecessors, and the edge misses.
fn resolve_lineage(canon: &Canon) -> (res: (Vec<Option<i64>>, Vec<Vec<(usize, bool)>>, Vec<String>))
    ensures
        res.0@.len() == canon@.cards.len(),
        res.1@.len() == canon@.cards.len(),
        forall|i: int| 0 <= i < canon@.cards.len() ==> #[trigger] res.0@[i] == year_of(canon@, i),
        forall|i: int| 0 <= i < canon@.cards.len() ==> pairs_view(#[trigger] res.1@[i]@) == preds_of(canon@, i),
        texts(res.2@) == edge_misses(canon@, canon@.cards.len() as int),
{
    let ghost c = canon@;
    let mut years: Vec<Option<i64>> = Vec::new();
    let mut preds: Vec<Vec<(usize, bool)>> = Vec::new();
    let mut misses: Vec<String> = Vec::new();
    let mut i: usize = 0;
    while i < canon.cards.len()
        invariant
            i <= canon.cards@.len(),
            c == canon@,
            c.cards.len() == canon.cards@.len(),
            years@.len() == i,
            preds@.len() == i,
            forall|q: int| 0 <= q < i ==> #[trigger] years@[q] == year_of(c, q),
            forall|q: int| 0 <= q < i ==> pairs_view(#[trigger] preds@[q]@) == preds_of(c, q),
            texts(misses@) == edge_misses(c, i as int),
        decreases canon.cards@.len() - i,
    {
        let card = &canon.cards[i];
        assert(c.cards[i as int] == card@);
        let mut mine: Vec<(usize, bool)> = Vec::new();
        match canon.lineage.get(card.n.as_str()) {
            None => {
                years.push(None);
                assert(pairs_view(mine@) =~= preds_of(c, i as int));
                assert(edge_misses(c, i + 1) =~= edge_misses(c, i as int));
            },
            Some(l) => {
                years.push(Some(l.y));
                match &l.p {
                    None => {
                        assert(pairs_view(mine@) =~= preds_of(c, i as int));
                        assert(edge_misses(c, i + 1) =~= edge_misses(c, i as int));
                    },
                    Some(ps) => {
                        let ghost pl = texts(ps@);
                        assert(pl == pred_list(c, i as int));
                        let ghost base = texts(misses@);
                        let mut q: usize = 0;
                        while q < ps.len()
                            invariant
                                q <= ps@.len(),
                                pl == texts(ps@),
                                c == canon@,
                                c.cards.len() == canon.cards@.len(),
                                i < c.cards.len(),
                                c.cards[i as int].name == card.n@,
                                pairs_view(mine@) == resolved(c, pl.take(q as int)),
                                texts(misses@) == base + unresolved(c, card.n@, pl.take(q as int)),
                                forall|x: int| 0 <= x < mine@.len() ==> (#[trigger] mine@[x]).0 < c.cards.len(),
                            decreases ps@.len() - q,
                        {
                            assert(pl.take(q + 1).drop_last() == pl.take(q as int));
                            assert(pl.take(q + 1).last() == ps@[q as int]@);
                            let (ch, name) = split_pred(&ps[q]);
                            proof {
                                lemma_last_named(c.cards, c.cards.len() as int, name@);
                            }
                            match find_card(&canon.cards, name.as_str()) {
                                Some(k) => {
                                    let ghost before = mine@;
                                    mine.push((k, ch));
                                    assert(pairs_view(mine@) =~= pairs_view(before).push((k as int, ch)));
                                },
                                None => {
                                    let mut m = concat2(card.n.as_str(), " -> ");
                                    m.append(name.as_str());
                                    let ghost before = misses@;
                                    misses.push(m);
                                    assert(texts(misses@) =~= texts(before).push(m@));
                                    assert(texts(misses@) =~= base + unresolved(c, card.n@, pl.take(q + 1)));
                                },
                            }
                            q = q + 1;
                        }
                        assert(pl.take(ps@.len() as int) == pl);
                    },
                }
            },
        }
        preds.push(mine);
        i = i + 1;
    }
    (years, preds, misses)
}

/// The orphan lineage keys' sort keys: by code point of the key.
pub open spec fn orphan_keys(c: CanonModel) -> Seq<(i64, Seq<(u8, char)>, Seq<(u8, char)>)> {
    Seq::new(c.lineage.len(), |p: int| (0i64, Seq::<(u8, char)>::empty(), raw_weights(c.lineage[p].0)))
}

/// The misses diagnostic for an orphan order: `key:<orphan>` entries first,
/// then `<card> -> <missing predecessor>` in card order.
pub open spec fn misses_with(c: CanonModel, orphan_order: Seq<usize>) -> Seq<Seq<char>> {
    orphan_order.map_values(|p: usize| "key:"@ + c.lineage[p as int].0) + edge_misses(c, c.cards.len() as int)
}

/// `orphan_order` lists the lineage keys that name no card, each once,
/// sorted.
pub open spec fn sorted_orphans(c: CanonModel, orphan_order: Seq<usize>) -> bool {
    &&& orphan_order.len() == orphan_positions(c, c.lineage.len() as int).len()
    &&& orphan_order.to_set() == orphan_positions(c, c.lineage.len() as int).to_set()
    &&& sorted_by(orphan_keys(c), orphan_order)
}

fn orphan_list(canon: &Canon) -> (res: Vec<usize>)
    ensures
        res@ == orphan_positions(canon@, canon@.lineage.len() as int),
        forall|a: int, b: int| 0 <= a < b < res@.len() ==> res@[a] < res@[b],
        forall|a: int| 0 <= a < res@.len() ==> res@[a] < canon@.lineage.len(),
{
    let ghost c = canon@;
    let n = canon.lineage.len();
    let mut out: Vec<usize> = Vec::new();
    let mut p: usize = 0;
    while p < n
        invariant
            p <= n,
            n == c.lineage.len(),
            c == canon@,
            out@ == orphan_positions(c, p as int),
            forall|a: int, b: int| 0 <= a < b < out@.len() ==> out@[a] < out@[b],
            forall|a: int| 0 <= a < out@.len() ==> out@[a] < p,
        decreases n - p,
    {
        let (key, _) = canon.lineage.entry(p);
        let found = find_card(&canon.cards, key.as_str());
        if found.is_none() {
            out.push(p);
        }
        p = p + 1;
    }
    out
}

fn orphan_sort_keys(canon: &Canon) -> (keys: Vec<SortKey>)
    ensures
        keys@.map_values(|k: SortKey| k@) == orphan_keys(canon@),
{
    let ghost c = canon@;
    let n = canon.lineage.len();
    let mut keys: Vec<SortKey> = Vec::new();
    let mut p: usize = 0;
    while p < n
        invariant
            p <= n,
            n == c.lineage.len(),
            c == canon@,
            keys@.map_values(|k: SortKey| k@) == orphan_keys(c).take(p as int),
        decreases n - p,
    {
        let (key, _) = canon.lineage.entry(p);
        let k = SortKey { year: 0, primary: Vec::new(), raw: weights_of(key.as_str()) };
        let ghost before = keys@;
        keys.push(k);
        assert(keys@.map_values(|k: SortKey| k@) =~= before.map_values(|k: SortKey| k@).push(k@));
        assert(orphan_keys(c).take(p + 1) =~= orphan_keys(c).take(p as int).push(orphan_keys(c)[p as int]));
        p = p + 1;
    }
    assert(orphan_keys(c).take(n as int) =~= orphan_keys(c));
    keys
}


/// `misses` is the misses diagnostic of the canon for some sorted order of
/// its orphan keys.
pub open spec fn lineage_misses_are(c: CanonModel, misses: Seq<Seq<char>>) -> bool {
    exists|o: Seq<usize>| #![trigger misses_with(c, o)] sorted_orphans(c, o) && misses == misses_with(c, o)
}

/// Per-card year and resolved predecessors, plus the misses diagnostic:
/// `key:<orphan>` for each lineage key that names no card, sorted, then
/// `<card> -> <missing predecessor>` (any `!` prefix stripped), in card
/// order then predecessor order.
pub fn lineage_graph(canon: &Canon) -> (res: (Vec<Option<i64>>, Vec<Vec<(usize, bool)>>, Vec<String>))
    ensures
        res.0@.len() == canon@.cards.len(),
        res.1@.len() == canon@.cards.len(),
        forall|i: int| 0 <= i < canon@.cards.len() ==> #[trigger] res.0@[i] == year_of(canon@, i),
        forall|i: int| 0 <= i < canon@.cards.len() ==> pairs_view(#[trigger] res.1@[i]@) == preds_of(canon@, i),
        lineage_misses_are(canon@, texts(res.2@)),
{
    let ghost c = canon@;
    let (years, preds, edge_miss) = resolve_lineage(canon);
    let orphans = orphan_list(canon);
    let okeys = orphan_sort_keys(canon);
    assert(okeys@.map_values(|k: SortKey| k@).len() == okeys@.len());
    let order = sort_rows(&okeys, &orphans);
    let mut misses: Vec<String> = Vec::new();
    let mut q: usize = 0;
    while q < order.len()
        invariant
            q <= order@.len(),
            c == canon@,
            order@.len() == orphans@.len(),
            order@.to_set() == orphans@.to_set(),
            forall|a: int| 0 <= a < orphans@.len() ==> orphans@[a] < c.lineage.len(),
            texts(misses@) == order@.take(q as int).map_values(|p: usize| "key:"@ + c.lineage[p as int].0),
        decreases order@.len() - q,
    {
        let p = order[q];
        proof {
            assert(order@.to_set().contains(p));
            assert(orphans@.to_set().contains(p));
            let w = choose|w: int| 0 <= w < orphans@.len() && orphans@[w] == p;
            assert(orphans@[w] < c.lineage.len());
        }
        let (key, _) = canon.lineage.entry(p);
        let m = concat2("key:", key.as_str());
        let ghost before = misses@;
        misses.push(m);
        assert(texts(misses@) =~= texts(before).push(m@));
        assert(order@.take(q + 1).map_values(|p: usize| "key:"@ + c.lineage[p as int].0) =~= order@.take(q as int).map_values(|p: usize| "key:"@ + c.lineage[p as int].0).push("key:"@ + c.lineage[p as int].0));
        q = q + 1;
    }
    assert(order@.take(order@.len() as int) == order@);
    let ghost orphan_part = texts(misses@);
    let mut e: usize = 0;
    while e < edge_miss.len()
        invariant
            e <= edge_miss@.len(),
            texts(misses@) == orphan_part + texts(edge_miss@).take(e as int),
        decreases edge_miss@.len() - e,
    {
        let ghost before = misses@;
        misses.push(edge_miss[e].clone());
        assert(texts(misses@) =~= texts(before).push(edge_miss@[e as int]@));
        assert(texts(edge_miss@).take(e + 1) =~= texts(edge_miss@).take(e as int).push(edge_miss@[e as int]@));
        e = e + 1;
    }
    assert(texts(edge_miss@).take(edge_miss@.len() as int) == texts(edge_miss@));
    assert(texts(misses@) == misses_with(c, order@));
    assert(sorted_orphans(c, order@));
    (years, preds, misses)
}

} // verus!
