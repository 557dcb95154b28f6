//! The order in which the chronology lists its rows: by year, then by the
//! collation weights of the name, then by the name's code points, with the
//! card position breaking full ties (a stable sort).

use vstd::prelude::*;

verus! {

/// Weights compare by class first, then by code point.
pub open spec fn weight_lt(a: (u8, char), b: (u8, char)) -> bool {
    a.0 < b.0 || (a.0 == b.0 && a.1 < b.1)
}

/// Lexicographic order on weight sequences (a proper prefix comes first).
pub open spec fn lex_lt(a: Seq<(u8, char)>, b: Seq<(u8, char)>) -> bool
    decreases a.len(),
{
    if a.len() == 0 {
        b.len() > 0
    } else if b.len() == 0 {
        false
    } else if weight_lt(a[0], b[0]) {
        true
    } else if a[0] == b[0] {
        lex_lt(a.drop_first(), b.drop_first())
    } else {
        false
    }
}

/// What the weight order compares: `a` sorts before `b` exactly when `a`
/// is a proper prefix of `b`, or at the first position where they differ
/// `a` has the lower class, or the same class and the lower code point.
pub proof fn lemma_lex_lt_meaning(a: Seq<(u8, char)>, b: Seq<(u8, char)>)
    ensures
        lex_lt(a, b) <==> ((a.len() < b.len() && b.take(a.len() as int) == a) || exists|k: int|
            0 <= k < a.len() && k < b.len() && #[trigger] a.take(k) == b.take(k)
                && (a[k].0 < b[k].0 || (a[k].0 == b[k].0 && a[k].1 < b[k].1))),
    decreases a.len(),
{
    if a.len() == 0 {
        if b.len() > 0 {
            assert(b.take(0) =~= a);
        }
    } else if b.len() == 0 {
    } else {
        lemma_lex_lt_meaning(a.drop_first(), b.drop_first());
        let a1 = a.drop_first();
        let b1 = b.drop_first();
        let first_lt = a[0].0 < b[0].0 || (a[0].0 == b[0].0 && a[0].1 < b[0].1);
        if first_lt {
            assert(a.take(0) =~= b.take(0));
        }
        if a[0] == b[0] {
            // The tail comparison carries over, shifted by one.
            if a1.len() < b1.len() && b1.take(a1.len() as int) == a1 {
                assert forall|i: int| 0 <= i < a.len() implies b.take(a.len() as int)[i] == a[i] by {
                    if i > 0 {
                        assert(b1.take(a1.len() as int)[i - 1] == a1[i - 1]);
                    }
                }
                assert(b.take(a.len() as int) =~= a);
            }
            if a.len() < b.len() && b.take(a.len() as int) == a {
                assert(b1.take(a1.len() as int) =~= a1);
            }
            if exists|k: int| 0 <= k < a1.len() && k < b1.len() && #[trigger] a1.take(k) == b1.take(k)
                && (a1[k].0 < b1[k].0 || (a1[k].0 == b1[k].0 && a1[k].1 < b1[k].1)) {
                let k = choose|k: int| 0 <= k < a1.len() && k < b1.len() && #[trigger] a1.take(k) == b1.take(k)
                    && (a1[k].0 < b1[k].0 || (a1[k].0 == b1[k].0 && a1[k].1 < b1[k].1));
                assert(a.take(k + 1) =~= seq![a[0]] + a1.take(k));
                assert(b.take(k + 1) =~= seq![b[0]] + b1.take(k));
                assert(a.take(k + 1) == b.take(k + 1));
                assert(a[k + 1] == a1[k] && b[k + 1] == b1[k]);
            }
            if exists|k: int| 0 <= k < a.len() && k < b.len() && #[trigger] a.take(k) == b.take(k)
                && (a[k].0 < b[k].0 || (a[k].0 == b[k].0 && a[k].1 < b[k].1)) {
                let k = choose|k: int| 0 <= k < a.len() && k < b.len() && #[trigger] a.take(k) == b.take(k)
                    && (a[k].0 < b[k].0 || (a[k].0 == b[k].0 && a[k].1 < b[k].1));
                assert(k > 0);
                assert(a1.take(k - 1) =~= a.take(k).drop_first());
                assert(b1.take(k - 1) =~= b.take(k).drop_first());
                assert(a1[k - 1] == a[k] && b1[k - 1] == b[k]);
            }
        } else {
            if a.len() < b.len() && b.take(a.len() as int) == a {
                assert(b.take(a.len() as int)[0] == b[0]);
            }
            if exists|k: int| 0 <= k < a.len() && k < b.len() && #[trigger] a.take(k) == b.take(k)
                && (a[k].0 < b[k].0 || (a[k].0 == b[k].0 && a[k].1 < b[k].1)) {
                let k = choose|k: int| 0 <= k < a.len() && k < b.len() && #[trigger] a.take(k) == b.take(k)
                    && (a[k].0 < b[k].0 || (a[k].0 == b[k].0 && a[k].1 < b[k].1));
                if k > 0 {
                    assert(a.take(k)[0] == a[0] && b.take(k)[0] == b[0]);
                }
            }
        }
    }
}

proof fn lemma_weight_total(a: (u8, char), b: (u8, char))
    ensures
        a == b || weight_lt(a, b) || weight_lt(b, a),
        !(weight_lt(a, b) && weight_lt(b, a)),
        !weight_lt(a, a),
{
}

/// `lex_lt` is a strict total order.
pub proof fn lemma_lex_order(a: Seq<(u8, char)>, b: Seq<(u8, char)>, c: Seq<(u8, char)>)
    ensures
        !lex_lt(a, a),
        a == b || lex_lt(a, b) || lex_lt(b, a),
        !(lex_lt(a, b) && lex_lt(b, a)),
        lex_lt(a, b) && lex_lt(b, c) ==> lex_lt(a, c),
    decreases a.len(),
{
    if a.len() > 0 {
        lemma_weight_total(a[0], a[0]);
        lemma_lex_order(a.drop_first(), a.drop_first(), a.drop_first());
        if b.len() > 0 {
            lemma_weight_total(a[0], b[0]);
            if c.len() > 0 {
                lemma_weight_total(b[0], c[0]);
                lemma_weight_total(a[0], c[0]);
                lemma_lex_order(a.drop_first(), b.drop_first(), c.drop_first());
            } else {
                lemma_lex_order(a.drop_first(), b.drop_first(), b.drop_first());
            }
            if a[0] == b[0] && a.drop_first() == b.drop_first() {
                assert(a =~= seq![a[0]] + a.drop_first());
                assert(b =~= seq![b[0]] + b.drop_first());
            }
        }
    } else {
        if b.len() == 0 {
            assert(a =~= b);
        }
    }
}

/// A name's chars as class-0 weights (code-point order).
pub open spec fn raw_weights(s: Seq<char>) -> Seq<(u8, char)> {
    s.map_values(|ch: char| (0u8, ch))
}

/// The class-0 weights of a name's chars.
pub fn weights_of(s: &str) -> (res: Vec<(u8, char)>)
    ensures
        res@ == raw_weights(s@),
{
    let mut out: Vec<(u8, char)> = Vec::new();
    for ch in it: s.chars()
        invariant
            it.seq() == s@,
            out@ == raw_weights(s@.take(it.index() as int)),
    {
        proof {
            assert(s@.take(it.index() + 1) == s@.take(it.index() as int).push(ch));
        }
        out.push((0u8, ch));
        assert(out@ =~= raw_weights(s@.take(it.index() + 1)));
    }
    assert(s@.take(s@.len() as int) == s@);
    out
}

/// A row's sort key: year, collation weights, raw name as class-0 weights.
pub struct SortKey {
    pub year: i64,
    pub primary: Vec<(u8, char)>,
    pub raw: Vec<(u8, char)>,
}

impl View for SortKey {
    type V = (i64, Seq<(u8, char)>, Seq<(u8, char)>);

    open spec fn view(&self) -> (i64, Seq<(u8, char)>, Seq<(u8, char)>) {
        (self.year, self.primary@, self.raw@)
    }
}

/// The key order: year, then weights, then raw name.
pub open spec fn key_lt(
    a: (i64, Seq<(u8, char)>, Seq<(u8, char)>),
    b: (i64, Seq<(u8, char)>, Seq<(u8, char)>),
) -> bool {
    a.0 < b.0 || (a.0 == b.0 && (lex_lt(a.1, b.1) || (a.1 == b.1 && lex_lt(a.2, b.2))))
}

proof fn lemma_key_order(
    a: (i64, Seq<(u8, char)>, Seq<(u8, char)>),
    b: (i64, Seq<(u8, char)>, Seq<(u8, char)>),
    c: (i64, Seq<(u8, char)>, Seq<(u8, char)>),
)
    ensures
        !key_lt(a, a),
        a == b || key_lt(a, b) || key_lt(b, a),
        !(key_lt(a, b) && key_lt(b, a)),
        key_lt(a, b) && key_lt(b, c) ==> key_lt(a, c),
{
    lemma_lex_order(a.1, b.1, c.1);
    lemma_lex_order(a.2, b.2, c.2);
    lemma_lex_order(a.1, a.1, a.1);
    lemma_lex_order(a.2, a.2, a.2);
    lemma_lex_order(b.1, b.1, b.1);
    lemma_lex_order(b.2, b.2, b.2);
}

/// Row `i` comes before row `j`: a smaller key, or an equal key and an
/// earlier card.
pub open spec fn before(keys: Seq<(i64, Seq<(u8, char)>, Seq<(u8, char)>)>, i: usize, j: usize) -> bool {
    key_lt(keys[i as int], keys[j as int]) || (keys[i as int] == keys[j as int] && i < j)
}

/// `rows` lists its rows in strictly increasing order.
pub open spec fn sorted_by(keys: Seq<(i64, Seq<(u8, char)>, Seq<(u8, char)>)>, rows: Seq<usize>) -> bool {
    forall|a: int, b: int| 0 <= a < b < rows.len() ==> before(keys, #[trigger] rows[a], #[trigger] rows[b])
}

proof fn lemma_before_trans(
    keys: Seq<(i64, Seq<(u8, char)>, Seq<(u8, char)>)>,
    i: usize,
    j: usize,
    k: usize,
)
    requires
        before(keys, i, j),
        before(keys, j, k),
    ensures
        before(keys, i, k),
{
    lemma_key_order(keys[i as int], keys[j as int], keys[k as int]);
    lemma_key_order(keys[j as int], keys[k as int], keys[i as int]);
    lemma_key_order(keys[k as int], keys[i as int], keys[j as int]);
}

proof fn lemma_before_strict(keys: Seq<(i64, Seq<(u8, char)>, Seq<(u8, char)>)>, i: usize, j: usize)
    ensures
        !before(keys, i, i),
        !(before(keys, i, j) && before(keys, j, i)),
{
    lemma_key_order(keys[i as int], keys[j as int], keys[i as int]);
    lemma_key_order(keys[i as int], keys[i as int], keys[i as int]);
}

/// A sorted arrangement lists no row twice.
pub proof fn lemma_sorted_distinct(keys: Seq<(i64, Seq<(u8, char)>, Seq<(u8, char)>)>, s: Seq<usize>)
    requires
        sorted_by(keys, s),
    ensures
        forall|a: int, b: int| 0 <= a < b < s.len() ==> s[a] != s[b],
{
    assert forall|a: int, b: int| 0 <= a < b < s.len() implies s[a] != s[b] by {
        assert(before(keys, s[a], s[b]));
        lemma_before_strict(keys, s[a], s[b]);
    }
}

proof fn lemma_sorted_tail_set(keys: Seq<(i64, Seq<(u8, char)>, Seq<(u8, char)>)>, s: Seq<usize>)
    requires
        s.len() > 0,
        sorted_by(keys, s),
    ensures
        sorted_by(keys, s.drop_first()),
        s.drop_first().to_set() == s.to_set().remove(s[0]),
{
    let t = s.drop_first();
    assert forall|a: int, b: int| 0 <= a < b < t.len() implies before(keys, #[trigger] t[a], #[trigger] t[b]) by {
        assert(t[a] == s[a + 1] && t[b] == s[b + 1]);
    }
    assert forall|v: usize| t.to_set().contains(v) implies s.to_set().remove(s[0]).contains(v) by {
        let w = choose|w: int| 0 <= w < t.len() && t[w] == v;
        assert(s[w + 1] == v);
        assert(before(keys, s[0], s[w + 1]));
        lemma_before_strict(keys, s[0], v);
    }
    assert forall|v: usize| s.to_set().remove(s[0]).contains(v) implies t.to_set().contains(v) by {
        let w = choose|w: int| 0 <= w < s.len() && s[w] == v;
        assert(t[w - 1] == v);
    }
    assert(t.to_set() =~= s.to_set().remove(s[0]));
}

/// Sorting is deterministic: two arrangements of the same rows that are
/// both sorted are one and the same arrangement.
pub proof fn lemma_sorted_unique(
    keys: Seq<(i64, Seq<(u8, char)>, Seq<(u8, char)>)>,
    s1: Seq<usize>,
    s2: Seq<usize>,
)
    requires
        sorted_by(keys, s1),
        sorted_by(keys, s2),
        s1.len() == s2.len(),
        s1.to_set() == s2.to_set(),
    ensures
        s1 == s2,
    decreases s1.len(),
{
    if s1.len() == 0 {
        assert(s1 =~= s2);
    } else {
        let x = s1[0];
        let y = s2[0];
        assert(s1.to_set().contains(x));
        assert(s2.to_set().contains(y));
        let j = choose|j: int| 0 <= j < s2.len() && s2[j] == x;
        let i = choose|i: int| 0 <= i < s1.len() && s1[i] == y;
        if x != y {
            assert(before(keys, s2[0], s2[j]));
            assert(before(keys, s1[0], s1[i]));
            lemma_before_strict(keys, x, y);
        }
        lemma_sorted_tail_set(keys, s1);
        lemma_sorted_tail_set(keys, s2);
        lemma_sorted_unique(keys, s1.drop_first(), s2.drop_first());
        assert forall|k: int| 0 <= k < s1.len() implies s1[k] == s2[k] by {
            if k > 0 {
                assert(s1[k] == s1.drop_first()[k - 1]);
                assert(s2[k] == s2.drop_first()[k - 1]);
            }
        }
        assert(s1 =~= s2);
    }
}

fn lex_less(a: &Vec<(u8, char)>, b: &Vec<(u8, char)>) -> (r: bool)
    ensures
        r == lex_lt(a@, b@),
{
    let mut i: usize = 0;
    assert(a@.skip(0) == a@ && b@.skip(0) == b@);
    while i < a.len() && i < b.len()
        invariant
            i <= a@.len(),
            i <= b@.len(),
            lex_lt(a@, b@) == lex_lt(a@.skip(i as int), b@.skip(i as int)),
        decreases a@.len() - i,
    {
        let x = a[i];
        let y = b[i];
        assert(a@.skip(i as int)[0] == x);
        assert(b@.skip(i as int)[0] == y);
        assert(a@.skip(i as int).drop_first() == a@.skip(i + 1));
        assert(b@.skip(i as int).drop_first() == b@.skip(i + 1));
        if x.0 < y.0 || (x.0 == y.0 && x.1 < y.1) {
            return true;
        }
        if x.0 != y.0 || x.1 != y.1 {
            return false;
        }
        i = i + 1;
    }
    i < b.len()
}

fn lex_equal(a: &Vec<(u8, char)>, b: &Vec<(u8, char)>) -> (r: bool)
    ensures
        r == (a@ == b@),
{
    proof {
        lemma_lex_order(a@, b@, b@);
    }
    !lex_less(a, b) && !lex_less(b, a)
}

/// Whether key `a` sorts strictly before key `b`.
pub fn key_less(a: &SortKey, b: &SortKey) -> (r: bool)
    ensures
        r == key_lt(a@, b@),
{
    if a.year != b.year {
        a.year < b.year
    } else if lex_less(&a.primary, &b.primary) {
        true
    } else if !lex_equal(&a.primary, &b.primary) {
        false
    } else {
        lex_less(&a.raw, &b.raw)
    }
}

proof fn lemma_push_to_set(s: Seq<usize>, x: usize)
    ensures
        s.push(x).to_set() == s.to_set().insert(x),
{
    assert forall|v: usize| s.push(x).to_set().contains(v) implies s.to_set().insert(x).contains(v) by {
        let w = choose|w: int| 0 <= w < s.push(x).len() && s.push(x)[w] == v;
        if w < s.len() {
            assert(s[w] == v);
        }
    }
    assert forall|v: usize| s.to_set().insert(x).contains(v) implies s.push(x).to_set().contains(v) by {
        if v == x {
            assert(s.push(x)[s.len() as int] == x);
        } else {
            let w = choose|w: int| 0 <= w < s.len() && s[w] == v;
            assert(s.push(x)[w] == v);
        }
    }
    assert(s.push(x).to_set() =~= s.to_set().insert(x));
}

/// Sort `rows` (given in increasing position order) by their keys; rows
/// with equal keys keep their relative order.
pub fn sort_rows(keys: &Vec<SortKey>, rows: &Vec<usize>) -> (res: Vec<usize>)
    requires
        forall|a: int, b: int| 0 <= a < b < rows@.len() ==> rows@[a] < rows@[b],
        forall|a: int| 0 <= a < rows@.len() ==> rows@[a] < keys@.len(),
    ensures
        res@.len() == rows@.len(),
        res@.to_set() == rows@.to_set(),
        sorted_by(keys@.map_values(|k: SortKey| k@), res@),
{
    let ghost ks = keys@.map_values(|k: SortKey| k@);
    let mut res: Vec<usize> = Vec::new();
    let mut n: usize = 0;
    while n < rows.len()
        invariant
            n <= rows@.len(),
            ks == keys@.map_values(|k: SortKey| k@),
            forall|a: int, b: int| 0 <= a < b < rows@.len() ==> rows@[a] < rows@[b],
            forall|a: int| 0 <= a < rows@.len() ==> rows@[a] < keys@.len(),
            res@.len() == n,
            res@.to_set() == rows@.take(n as int).to_set(),
            forall|q: int| 0 <= q < res@.len() ==> res@[q] < keys@.len(),
            sorted_by(ks, res@),
        decreases rows@.len() - n,
    {
        let x = rows[n];
        let mut p = res.len();
        while p > 0 && key_less(&keys[x], &keys[res[p - 1]])
            invariant
                p <= res@.len(),
                x < keys@.len(),
                ks == keys@.map_values(|k: SortKey| k@),
                forall|q: int| 0 <= q < res@.len() ==> res@[q] < keys@.len(),
                forall|q: int| p <= q < res@.len() ==> key_lt(ks[x as int], ks[res@[q] as int]),
            decreases p,
        {
            p = p - 1;
        }
        proof {
            // every row already placed is an earlier card than x
            assert forall|q: int| 0 <= q < res@.len() implies res@[q] < x by {
                assert(res@.to_set().contains(res@[q]));
                assert(rows@.take(n as int).to_set().contains(res@[q]));
                let w = choose|w: int| 0 <= w < n && rows@.take(n as int)[w] == res@[q];
                assert(rows@[w] < rows@[n as int]);
            }
            if p > 0 {
                lemma_key_order(ks[x as int], ks[res@[p - 1] as int], ks[x as int]);
                assert(before(ks, res@[p - 1], x));
            }
        }
        let ghost old_res = res@;
        res.insert(p, x);
        proof {
            assert forall|a: int, b: int| 0 <= a < b < res@.len() implies before(
                ks,
                #[trigger] res@[a],
                #[trigger] res@[b],
            ) by {
                if b < p {
                    assert(res@[a] == old_res[a] && res@[b] == old_res[b]);
                } else if b == p {
                    assert(res@[a] == old_res[a]);
                    if a < p - 1 {
                        assert(before(ks, old_res[a], old_res[p - 1]));
                        lemma_before_trans(ks, old_res[a], old_res[p - 1], x);
                    }
                } else if a == p {
                    assert(res@[b] == old_res[b - 1]);
                } else if a > p {
                    assert(res@[a] == old_res[a - 1] && res@[b] == old_res[b - 1]);
                } else {
                    assert(res@[a] == old_res[a] && res@[b] == old_res[b - 1]);
                    assert(key_lt(ks[x as int], ks[old_res[b - 1] as int]));
                    if a < p - 1 {
                        lemma_before_trans(ks, old_res[a], old_res[p - 1], x);
                    }
                    assert(before(ks, x, old_res[b - 1]));
                    lemma_before_trans(ks, old_res[a], x, old_res[b - 1]);
                }
            }
            assert(rows@.take(n + 1) == rows@.take(n as int).push(x));
            lemma_push_to_set(rows@.take(n as int), x);
            assert forall|q: int| 0 <= q < res@.len() implies res@[q] < keys@.len() by {
                if q < p {
                    assert(res@[q] == old_res[q]);
                } else if q > p {
                    assert(res@[q] == old_res[q - 1]);
                }
            }
            assert(res@.to_set() =~= old_res.to_set().insert(x)) by {
                assert forall|v: usize| res@.to_set().contains(v) implies old_res.to_set().insert(
                    x,
                ).contains(v) by {
                    let w = choose|w: int| 0 <= w < res@.len() && res@[w] == v;
                    if w < p {
                        assert(old_res[w] == v);
                    } else if w > p {
                        assert(old_res[w - 1] == v);
                    }
                }
                assert forall|v: usize| old_res.to_set().insert(x).contains(v) implies res@.to_set().contains(
                    v,
                ) by {
                    if v == x {
                        assert(res@[p as int] == x);
                    } else {
                        let w = choose|w: int| 0 <= w < old_res.len() && old_res[w] == v;
                        if w < p {
                            assert(res@[w] == v);
                        } else {
                            assert(res@[w + 1] == v);
                        }
                    }
                }
            }
        }
        n = n + 1;
    }
    assert(rows@.take(rows@.len() as int) == rows@);
    res
}

} // verus!
