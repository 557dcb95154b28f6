//! Keeping inline blobs inside their `<script>` elements: the page script
//! is guarded against `</script` in any casing, and the edge-data JSON gets
//! every `<` escaped.

use vstd::prelude::*;
use crate::util::{push_char, chars_of};

verus! {

broadcast use vstd::string::group_string_axioms;

/// `</script` in lowercase.
pub open spec fn end_tag_lower() -> Seq<char> {
    seq!['<', '/', 's', 'c', 'r', 'i', 'p', 't']
}

/// `</script` in uppercase.
pub open spec fn end_tag_upper() -> Seq<char> {
    seq!['<', '/', 'S', 'C', 'R', 'I', 'P', 'T']
}

/// `c` is the `j`-th char of `</script`, in either case.
pub open spec fn tag_char(c: char, j: int) -> bool {
    c == end_tag_lower()[j] || c == end_tag_upper()[j]
}

/// `s` holds `</script` at position `k`, in any ASCII casing.
pub open spec fn end_tag_at(s: Seq<char>, k: int) -> bool {
    0 <= k && k + 8 <= s.len() && forall|p: int| k <= p < k + 8 ==> tag_char(#[trigger] s[p], p - k)
}

/// `<\/`, which is the same text as `</` to a JavaScript engine.
pub open spec fn guarded_open() -> Seq<char> {
    seq!['<', '\\', '/']
}

/// The guarded script: at each `</script` (any casing) the `</` becomes
/// `<\/`; everything else is kept, its casing included.
pub open spec fn guard_of(s: Seq<char>) -> Seq<char>
    decreases s.len(),
{
    if s.len() == 0 {
        Seq::empty()
    } else if end_tag_at(s, 0) {
        guarded_open() + guard_of(s.skip(2))
    } else {
        seq![s[0]] + guard_of(s.skip(1))
    }
}

fn end_tag_at_exec(s: &Vec<char>, k: usize) -> (r: bool)
    ensures
        r == end_tag_at(s@, k as int),
{
    if k > s.len() || s.len() - k < 8 {
        return false;
    }
    let lower = ['<', '/', 's', 'c', 'r', 'i', 'p', 't'];
    let upper = ['<', '/', 'S', 'C', 'R', 'I', 'P', 'T'];
    assert(lower@ == end_tag_lower());
    assert(upper@ == end_tag_upper());
    let mut j: usize = 0;
    while j < 8
        invariant
            j <= 8,
            k + 8 <= s@.len(),
            k + 8 <= s.len(),
            lower@ == end_tag_lower(),
            upper@ == end_tag_upper(),
            forall|p: int| k <= p < k + j ==> tag_char(#[trigger] s@[p], p - k),
        decreases 8 - j,
    {
        let c = s[k + j];
        if c != lower[j] && c != upper[j] {
            return false;
        }
        j = j + 1;
    }
    true
}

/// Make arbitrary JS safe inside an inline `<script>`: `</script` in any
/// casing would end the element early (the HTML parser is
/// case-insensitive); `<\/script` is the same text to JS.
pub fn guard_inline_script(script: String) -> (res: String)
    ensures
        res@ == guard_of(script@),
{
    let s = chars_of(script.as_str());
    let mut out = String::new();
    let mut i: usize = 0;
    assert(s@.skip(0) == s@);
    while i < s.len()
        invariant
            i <= s@.len(),
            s@ == script@,
            guard_of(s@) == out@ + guard_of(s@.skip(i as int)),
        decreases s@.len() - i,
    {
        let ghost rest = s@.skip(i as int);
        if end_tag_at_exec(&s, i) {
            assert forall|p: int| 0 <= p < 8 implies tag_char(#[trigger] rest[p], p) by {
                assert(rest[p] == s@[i + p]);
            }
            assert(end_tag_at(rest, 0));
            assert(rest.skip(2) == s@.skip(i + 2));
            push_char(&mut out, '<');
            push_char(&mut out, '\\');
            push_char(&mut out, '/');
            assert(out@ + guard_of(s@.skip(i + 2)) =~= out@.drop_last().drop_last().drop_last()
                + guard_of(rest));
            i = i + 2;
        } else {
            proof {
                if end_tag_at(rest, 0) {
                    assert forall|p: int| i <= p < i + 8 implies tag_char(#[trigger] s@[p], p - i) by {
                        assert(rest[p - i] == s@[p]);
                    }
                }
            }
            assert(rest.skip(1) == s@.skip(i + 1));
            assert(rest[0] == s[i as int]);
            push_char(&mut out, s[i]);
            assert(out@ + guard_of(s@.skip(i + 1)) =~= out@.drop_last() + guard_of(rest));
            i = i + 1;
        }
    }
    out
}

proof fn lemma_guard_keeps_plain_prefix(t: Seq<char>, m: int)
    requires
        0 <= m <= guard_of(t).len(),
        forall|j: int| 0 <= j < m ==> #[trigger] guard_of(t)[j] != '<',
    ensures
        m <= t.len(),
        t.take(m) == guard_of(t).take(m),
    decreases t.len(),
{
    if m > 0 {
        if t.len() == 0 {
        } else if end_tag_at(t, 0) {
            assert(guard_of(t)[0] == '<');
        } else {
            let g1 = guard_of(t.skip(1));
            assert(guard_of(t) == seq![t[0]] + g1);
            assert forall|j: int| 0 <= j < m - 1 implies #[trigger] g1[j] != '<' by {
                assert(guard_of(t)[j + 1] == g1[j]);
            }
            lemma_guard_keeps_plain_prefix(t.skip(1), m - 1);
            assert(t.take(m) =~= seq![t[0]] + t.skip(1).take(m - 1));
            assert(guard_of(t).take(m) =~= seq![t[0]] + g1.take(m - 1));
        }
    }
}

/// A guarded script never holds `</script`, in any casing, so it cannot end
/// its element early.
pub proof fn lemma_guard_has_no_end_tag(s: Seq<char>, k: int)
    ensures
        !end_tag_at(guard_of(s), k),
    decreases s.len(),
{
    let g = guard_of(s);
    if s.len() == 0 {
    } else if end_tag_at(s, 0) {
        let g2 = guard_of(s.skip(2));
        assert(g == guarded_open() + g2);
        if k >= 3 {
            lemma_guard_has_no_end_tag(s.skip(2), k - 3);
            if end_tag_at(g, k) {
                assert forall|p: int| k - 3 <= p < k - 3 + 8 implies tag_char(#[trigger] g2[p], p - (k - 3)) by {
                    assert(g[p + 3] == g2[p]);
                }
            }
        } else if end_tag_at(g, k) {
            assert(g[0] == '<' && g[1] == '\\' && g[2] == '/');
            let a = g[k];
            let b = g[k + 1];
            assert(tag_char(a, 0));
            assert(tag_char(b, 1));
        }
    } else {
        let g1 = guard_of(s.skip(1));
        assert(g == seq![s[0]] + g1);
        if k >= 1 {
            lemma_guard_has_no_end_tag(s.skip(1), k - 1);
            if end_tag_at(g, k) {
                assert forall|p: int| k - 1 <= p < k - 1 + 8 implies tag_char(#[trigger] g1[p], p - (k - 1)) by {
                    assert(g[p + 1] == g1[p]);
                }
            }
        } else if k == 0 && end_tag_at(g, 0) {
            assert forall|j: int| 0 <= j < 7 implies #[trigger] g1[j] != '<' by {
                assert(g[j + 1] == g1[j]);
                let c = g[j + 1];
                assert(tag_char(c, j + 1));
            }
            lemma_guard_keeps_plain_prefix(s.skip(1), 7);
            assert forall|p: int| 0 <= p < 8 implies tag_char(#[trigger] s[p], p) by {
                let c = g[p];
                assert(tag_char(c, p));
                if p > 0 {
                    assert(s[p] == s.skip(1).take(7)[p - 1]);
                    assert(g1.take(7)[p - 1] == g[p]);
                } else {
                    assert(g[0] == s[0]);
                }
            }
            assert(end_tag_at(s, 0));
        }
    }
}

/// How many times `</script` (any casing) occurs in `s`.
pub open spec fn end_tag_count(s: Seq<char>) -> nat
    decreases s.len(),
{
    if s.len() == 0 {
        0
    } else {
        (if end_tag_at(s, 0) { 1nat } else { 0nat }) + end_tag_count(s.skip(1))
    }
}

/// `g` holds a guarded end tag `<\/script` (any casing) at position `k`.
pub open spec fn guarded_tag_at(g: Seq<char>, k: int) -> bool {
    0 <= k && k + 9 <= g.len() && g[k] == '<' && g[k + 1] == '\\' && forall|p: int|
        1 <= p < 8 ==> tag_char(#[trigger] g[k + 1 + p], p)
}

/// `g` with the backslash of every guarded end tag `<\/script` removed.
pub open spec fn unguard(g: Seq<char>) -> Seq<char>
    decreases g.len(),
{
    if g.len() == 0 {
        Seq::empty()
    } else if guarded_tag_at(g, 0) {
        seq!['<'] + unguard(g.skip(2))
    } else {
        seq![g[0]] + unguard(g.skip(1))
    }
}

proof fn lemma_guard_plain_input(t: Seq<char>, m: int)
    requires
        0 <= m <= t.len(),
        forall|j: int| 0 <= j < m ==> #[trigger] t[j] != '<',
    ensures
        m <= guard_of(t).len(),
        guard_of(t).take(m) == t.take(m),
    decreases t.len(),
{
    if m > 0 {
        assert(!end_tag_at(t, 0)) by {
            if end_tag_at(t, 0) {
                assert(tag_char(t[0], 0));
            }
        }
        let g1 = guard_of(t.skip(1));
        assert(guard_of(t) == seq![t[0]] + g1);
        assert forall|j: int| 0 <= j < m - 1 implies #[trigger] t.skip(1)[j] != '<' by {
            assert(t.skip(1)[j] == t[j + 1]);
        }
        lemma_guard_plain_input(t.skip(1), m - 1);
        assert(t.take(m) =~= seq![t[0]] + t.skip(1).take(m - 1));
        assert(guard_of(t).take(m) =~= seq![t[0]] + g1.take(m - 1));
    }
}

/// Guarding adds one char per end tag: the guarded script is as long as
/// the script plus the number of `</script` (any casing) in it.
pub proof fn lemma_guard_length(s: Seq<char>)
    ensures
        guard_of(s).len() == s.len() + end_tag_count(s),
    decreases s.len(),
{
    if s.len() > 0 {
        if end_tag_at(s, 0) {
            lemma_guard_length(s.skip(2));
            assert(s.skip(1).skip(1) == s.skip(2));
            assert(!end_tag_at(s.skip(1), 0)) by {
                assert(s.skip(1)[0] == s[1]);
                assert(tag_char(s[1], 1));
            }
            assert(end_tag_count(s.skip(1)) == end_tag_count(s.skip(2)));
        } else {
            lemma_guard_length(s.skip(1));
        }
    }
}

/// Guarding can be undone: removing the backslash it put into each end tag
/// gives the script back, casing included, whenever the script did not
/// already hold a guarded end tag `<\/script` of its own.
pub proof fn lemma_unguard_guard(s: Seq<char>)
    requires
        forall|k: int| !guarded_tag_at(s, k),
    ensures
        unguard(guard_of(s)) == s,
    decreases s.len(),
{
    if s.len() == 0 {
        assert(unguard(guard_of(s)) =~= s);
    } else {
        let g = guard_of(s);
        assert forall|k: int| !guarded_tag_at(s.skip(1), k) by {
            if guarded_tag_at(s.skip(1), k) {
                assert forall|p: int| 1 <= p < 8 implies tag_char(#[trigger] s[k + 1 + 1 + p], p) by {
                    assert(s.skip(1)[k + 1 + p] == s[k + 1 + 1 + p]);
                }
                assert(s.skip(1)[k] == s[k + 1] && s.skip(1)[k + 1] == s[k + 2]);
                assert(guarded_tag_at(s, k + 1));
            }
        }
        lemma_unguard_guard(s.skip(1));
        if end_tag_at(s, 0) {
            let t = s.skip(2);
            assert forall|j: int| 0 <= j < 6 implies #[trigger] t[j] != '<' by {
                assert(t[j] == s[j + 2]);
                assert(tag_char(s[j + 2], j + 2));
            }
            lemma_guard_plain_input(t, 6);
            assert(g == guarded_open() + guard_of(t));
            assert(s.skip(1).skip(1) == t);
            assert(!end_tag_at(s.skip(1), 0)) by {
                assert(s.skip(1)[0] == s[1]);
                assert(tag_char(s[1], 1));
            }
            assert(guard_of(s.skip(1)) == seq![s[1]] + guard_of(t));
            assert forall|p: int| 1 <= p < 8 implies tag_char(#[trigger] g[1 + p], p) by {
                if p == 1 {
                    assert(g[2] == '/');
                } else {
                    assert(g[1 + p] == guard_of(t)[p - 2]);
                    assert(guard_of(t).take(6)[p - 2] == t.take(6)[p - 2]);
                    assert(t[p - 2] == s[p]);
                    assert(tag_char(s[p], p));
                }
            }
            assert(guarded_tag_at(g, 0));
            assert(g.skip(2) =~= guard_of(s.skip(1)));
            assert(unguard(g) =~= seq!['<'] + s.skip(1));
            assert(s[0] == '<') by {
                assert(tag_char(s[0], 0));
            }
            assert(unguard(g) =~= s);
        } else {
            let g1 = guard_of(s.skip(1));
            assert(g == seq![s[0]] + g1);
            assert(g.skip(1) =~= g1);
            assert(!guarded_tag_at(g, 0)) by {
                if guarded_tag_at(g, 0) {
                    let t1 = s.skip(1);
                    assert(g1[0] == '\\');
                    if end_tag_at(t1, 0) {
                        assert(guard_of(t1) == guarded_open() + guard_of(t1.skip(2)));
                    }
                    assert(!end_tag_at(t1, 0));
                    assert(g1 == seq![t1[0]] + guard_of(t1.skip(1)));
                    let t2 = t1.skip(1);
                    assert forall|j: int| 0 <= j < 7 implies #[trigger] guard_of(t2)[j] != '<' by {
                        assert(guard_of(t2)[j] == g[j + 2]);
                        assert(tag_char(g[1 + (j + 1)], j + 1));
                    }
                    lemma_guard_keeps_plain_prefix(t2, 7);
                    assert forall|p: int| 1 <= p < 8 implies tag_char(#[trigger] s[0 + 1 + p], p) by {
                        assert(s[1 + p] == t2[p - 1]);
                        assert(t2.take(7)[p - 1] == guard_of(t2).take(7)[p - 1]);
                        assert(guard_of(t2)[p - 1] == g[1 + p]);
                    }
                    assert(s[1] == t1[0]);
                    assert(s[0] == g[0]);
                    assert(guarded_tag_at(s, 0));
                }
            }
            assert(unguard(g) =~= seq![s[0]] + s.skip(1));
            assert(unguard(g) =~= s);
        }
    }
}

/// `\u003c`, the JSON escape of `<`.
pub open spec fn escaped_lt() -> Seq<char> {
    seq!['\\', 'u', '0', '0', '3', 'c']
}

/// Every `<` replaced by its JSON escape `\u003c`.
pub open spec fn escape_lt_of(s: Seq<char>) -> Seq<char>
    decreases s.len(),
{
    if s.len() == 0 {
        Seq::empty()
    } else if s.last() == '<' {
        escape_lt_of(s.drop_last()) + escaped_lt()
    } else {
        escape_lt_of(s.drop_last()).push(s.last())
    }
}

/// Escape every `<` of a JSON text, so the blob can never terminate its
/// `<script>` element.
pub fn escape_lt(json: &str) -> (res: String)
    ensures
        res@ == escape_lt_of(json@),
{
    let mut out = String::new();
    let ghost s = json@;
    for ch in it: json.chars()
        invariant
            it.seq() == s,
            out@ == escape_lt_of(s.take(it.index() as int)),
    {
        proof {
            assert(s.take(it.index() + 1).drop_last() == s.take(it.index() as int));
        }
        if ch == '<' {
            push_char(&mut out, '\\');
            push_char(&mut out, 'u');
            push_char(&mut out, '0');
            push_char(&mut out, '0');
            push_char(&mut out, '3');
            push_char(&mut out, 'c');
            assert(out@ =~= escape_lt_of(s.take(it.index() as int)) + escaped_lt());
        } else {
            push_char(&mut out, ch);
        }
    }
    assert(s.take(s.len() as int) == s);
    out
}

/// The escaped JSON holds no `<` at all.
pub proof fn lemma_escape_lt_has_no_lt(s: Seq<char>)
    ensures
        forall|k: int| 0 <= k < escape_lt_of(s).len() ==> #[trigger] escape_lt_of(s)[k] != '<',
    decreases s.len(),
{
    if s.len() > 0 {
        lemma_escape_lt_has_no_lt(s.drop_last());
        let r = escape_lt_of(s.drop_last());
        assert forall|k: int| 0 <= k < escape_lt_of(s).len() implies #[trigger] escape_lt_of(s)[k]
            != '<' by {
            if k < r.len() {
                assert(escape_lt_of(s)[k] == r[k]);
            }
        }
    }
}

} // verus!
