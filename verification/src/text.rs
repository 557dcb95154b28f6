//! Text derivations that must stay stable: card slugs (public anchors) and
//! the collation used to order same-year rows in the chronological view.

use vstd::prelude::*;
use unicode_normalization::UnicodeNormalization;
use crate::util::push_char;

verus! {

broadcast use vstd::string::group_string_axioms;

/// Characters that slugification drops without leaving a separator.
pub open spec fn is_stripped(c: char) -> bool {
    c == '\u{2019}' || c == '\'' || c == '\u{201c}' || c == '\u{201d}' || c == '"'
        || c == '(' || c == ')' || c == '.' || c == ',' || c == ':' || c == '&'
        || c == '!' || c == '?' || c == '\u{00b7}' || c == '/'
}

/// ASCII `[a-z0-9]`: the characters a slug keeps.
pub open spec fn is_slug_char(c: char) -> bool {
    ('a' <= c && c <= 'z') || ('0' <= c && c <= '9')
}

/// The slugifier's state after reading `s`: the text emitted so far and
/// whether a separator is pending before the next kept character.
pub open spec fn slug_state(s: Seq<char>) -> (Seq<char>, bool)
    decreases s.len(),
{
    if s.len() == 0 {
        (Seq::empty(), false)
    } else {
        let (out, pending) = slug_state(s.drop_last());
        let c = s.last();
        if is_stripped(c) {
            (out, pending)
        } else if is_slug_char(c) {
            let sep = if pending && out.len() > 0 { out.push('-') } else { out };
            (sep.push(c), false)
        } else {
            (out, true)
        }
    }
}

/// Slug of an already-lowercased name.
pub open spec fn slug_of(lower: Seq<char>) -> Seq<char> {
    slug_state(lower).0
}

fn is_stripped_exec(c: char) -> (r: bool)
    ensures
        r == is_stripped(c),
{
    c == '\u{2019}' || c == '\'' || c == '\u{201c}' || c == '\u{201d}' || c == '"' || c == '('
        || c == ')' || c == '.' || c == ',' || c == ':' || c == '&' || c == '!' || c == '?'
        || c == '\u{00b7}' || c == '/'
}

/// Slug of a name that is already lowercase: strip quotes and punctuation,
/// collapse every run of other characters outside `[a-z0-9]` to one dash,
/// and trim dashes at both ends.
pub fn slugify_lowercased(lower: &str) -> (res: String)
    ensures
        res@ == slug_of(lower@),
{
    let mut out = String::new();
    let mut pending = false;
    let ghost s = lower@;
    for ch in it: lower.chars()
        invariant
            it.seq() == s,
            (out@, pending) == slug_state(s.take(it.index() as int)),
    {
        proof {
            assert(s.take(it.index() + 1).drop_last() == s.take(it.index() as int));
        }
        if is_stripped_exec(ch) {
        } else if ('a' <= ch && ch <= 'z') || ('0' <= ch && ch <= '9') {
            if pending && !out.as_str().is_empty() {
                push_char(&mut out, '-');
            }
            pending = false;
            push_char(&mut out, ch);
        } else {
            pending = true;
        }
    }
    proof {
        assert(s.take(s.len() as int) == s);
    }
    out
}

/// What `str::to_lowercase` gives for a string: its Unicode lowercase
/// mapping (per char, except that a final capital sigma becomes `ς`).
pub uninterp spec fn lowercase(s: Seq<char>) -> Seq<char>;

/// `str::to_lowercase`.
#[verifier::external_body]
fn to_lowercase(s: &str) -> (r: String)
    ensures
        r@ == lowercase(s@),
{
    s.to_lowercase()
}

/// Mirror of the page's historical JS slugify, so every `#card-<slug>`
/// anchor stays stable: lowercase, strip `’'“”"().,:&!?·/`, collapse
/// everything outside ASCII `[a-z0-9]` to single dashes, trim dashes.
pub fn slugify(name: &str) -> (res: String)
    ensures
        res@ == slug_of(lowercase(name@)),
{
    let lower = to_lowercase(name);
    slugify_lowercased(lower.as_str())
}

/// A slug in canonical shape: only `[a-z0-9]` and dashes, no dash at either
/// end, never two dashes in a row.
pub open spec fn slug_shaped(t: Seq<char>) -> bool {
    &&& forall|i: int| 0 <= i < t.len() ==> is_slug_char(#[trigger] t[i]) || t[i] == '-'
    &&& t.len() > 0 ==> t[0] != '-' && t.last() != '-'
    &&& forall|i: int| 0 <= i < t.len() - 1 ==> !(#[trigger] t[i] == '-' && t[i + 1] == '-')
}

proof fn lemma_slug_state_shaped(s: Seq<char>)
    ensures
        slug_shaped(slug_state(s).0),
    decreases s.len(),
{
    if s.len() > 0 {
        lemma_slug_state_shaped(s.drop_last());
        let (out, pending) = slug_state(s.drop_last());
        let c = s.last();
        if !is_stripped(c) && is_slug_char(c) {
            let sep = if pending && out.len() > 0 { out.push('-') } else { out };
            let t = sep.push(c);
            assert forall|i: int| 0 <= i < t.len() - 1 implies !(#[trigger] t[i] == '-' && t[i + 1]
                == '-') by {
                if i < out.len() - 1 {
                    assert(t[i] == out[i] && t[i + 1] == out[i + 1]);
                }
            }
            assert forall|i: int| 0 <= i < t.len() implies is_slug_char(#[trigger] t[i]) || t[i]
                == '-' by {
                if i < out.len() {
                    assert(t[i] == out[i]);
                }
            }
        }
    }
}

proof fn lemma_slug_state_of_shaped(t: Seq<char>, n: int)
    requires
        slug_shaped(t),
        0 <= n <= t.len(),
    ensures
        slug_state(t.take(n)) == (if n > 0 && t[n - 1] == '-' {
            (t.take(n - 1), true)
        } else {
            (t.take(n), false)
        }),
    decreases n,
{
    if n > 0 {
        lemma_slug_state_of_shaped(t, n - 1);
        assert(t.take(n).drop_last() == t.take(n - 1));
        assert(t.take(n).last() == t[n - 1]);
        let c = t[n - 1];
        assert(is_slug_char(c) || c == '-');
        if c == '-' {
            assert(n - 1 > 0);
            assert(t[n - 2] != '-');
        } else if n >= 2 && t[n - 2] == '-' {
            assert(t.take(n - 2).push('-').push(c) == t.take(n));
            assert(t[0] != '-');
        } else {
            assert(t.take(n - 1).push(c) == t.take(n));
        }
    }
}

/// Slugs are canonical: every slug has the slug shape, and slugifying a
/// slug again changes nothing.
pub proof fn lemma_slug_is_canonical(lower: Seq<char>)
    ensures
        slug_shaped(slug_of(lower)),
        slug_of(slug_of(lower)) == slug_of(lower),
{
    lemma_slug_state_shaped(lower);
    let t = slug_of(lower);
    lemma_slug_state_of_shaped(t, t.len() as int);
    assert(t.take(t.len() as int) == t);
}

/// `s` with the stripped characters left out.
pub open spec fn unstripped(s: Seq<char>) -> Seq<char>
    decreases s.len(),
{
    if s.len() == 0 {
        Seq::empty()
    } else if is_stripped(s.last()) {
        unstripped(s.drop_last())
    } else {
        unstripped(s.drop_last()).push(s.last())
    }
}

proof fn lemma_slug_state_unstripped(s: Seq<char>)
    ensures
        slug_state(unstripped(s)) == slug_state(s),
    decreases s.len(),
{
    if s.len() > 0 {
        lemma_slug_state_unstripped(s.drop_last());
        if !is_stripped(s.last()) {
            let u = unstripped(s);
            assert(u.drop_last() == unstripped(s.drop_last()));
            assert(u.last() == s.last());
        }
    }
}

proof fn lemma_slug_state_nonempty(s: Seq<char>)
    ensures
        slug_state(s).0.len() > 0 <==> exists|i: int| 0 <= i < s.len() && is_slug_char(#[trigger] s[i]),
    decreases s.len(),
{
    if s.len() > 0 {
        lemma_slug_state_nonempty(s.drop_last());
        let p = s.drop_last();
        if exists|i: int| 0 <= i < p.len() && is_slug_char(#[trigger] p[i]) {
            let i = choose|i: int| 0 <= i < p.len() && is_slug_char(#[trigger] p[i]);
            assert(s[i] == p[i]);
        }
        if exists|i: int| 0 <= i < s.len() && is_slug_char(#[trigger] s[i]) {
            let i = choose|i: int| 0 <= i < s.len() && is_slug_char(#[trigger] s[i]);
            if i < p.len() {
                assert(p[i] == s[i]);
            } else {
                assert(!is_stripped(s.last()));
            }
        }
    }
}

/// What a slug keeps of the lowercased name: the slug is empty exactly when
/// the name has no ASCII `[a-z0-9]` at all, and the quotes and punctuation
/// that are stripped never split a word ("don’t" gives "dont"): leaving
/// them out first gives the same slug.
pub proof fn lemma_slug_words(lower: Seq<char>)
    ensures
        slug_of(lower).len() == 0 <==> forall|i: int| 0 <= i < lower.len() ==> !is_slug_char(#[trigger] lower[i]),
        slug_of(unstripped(lower)) == slug_of(lower),
{
    lemma_slug_state_nonempty(lower);
    lemma_slug_state_unstripped(lower);
}

proof fn lemma_slug_state_skip_stripped(a: Seq<char>, c: char, b: Seq<char>)
    requires
        is_stripped(c),
    ensures
        slug_state(a.push(c) + b) == slug_state(a + b),
    decreases b.len(),
{
    if b.len() == 0 {
        assert(a.push(c) + b == a.push(c));
        assert(a + b == a);
        assert(a.push(c).drop_last() == a);
    } else {
        lemma_slug_state_skip_stripped(a, c, b.drop_last());
        assert((a.push(c) + b).drop_last() == a.push(c) + b.drop_last());
        assert((a + b).drop_last() == a + b.drop_last());
        assert((a.push(c) + b).last() == b.last());
        assert((a + b).last() == b.last());
    }
}

/// The documented strip set `’'“”"().,:&!?·/` (the ASCII apostrophe
/// included) is dropped without leaving a separator: taking such a
/// character out of the lowercased name anywhere leaves the slug as it
/// was, so "conway's law" and "conways law" share the slug "conways-law".
pub proof fn lemma_strip_set_dropped(a: Seq<char>, c: char, b: Seq<char>)
    requires
        c == '\u{2019}' || c == '\'' || c == '\u{201c}' || c == '\u{201d}' || c == '"' || c == '('
            || c == ')' || c == '.' || c == ',' || c == ':' || c == '&' || c == '!' || c == '?'
            || c == '\u{00b7}' || c == '/',
    ensures
        slug_of(a.push(c) + b) == slug_of(a + b),
{
    lemma_slug_state_skip_stripped(a, c, b);
}

/// Every other character outside `[a-z0-9]` separates words: a space (or
/// any such character) between two kept characters puts exactly one dash
/// between them.
pub proof fn lemma_separator_splits(a: Seq<char>, x: char, c: char, y: char)
    requires
        is_slug_char(x),
        is_slug_char(y),
        !is_slug_char(c),
        !(c == '\u{2019}' || c == '\'' || c == '\u{201c}' || c == '\u{201d}' || c == '"' || c == '('
            || c == ')' || c == '.' || c == ',' || c == ':' || c == '&' || c == '!' || c == '?'
            || c == '\u{00b7}' || c == '/'),
    ensures
        slug_of(a.push(x).push(c).push(y)) == slug_of(a.push(x)).push('-').push(y),
{
    assert(a.push(x).push(c).push(y).drop_last() == a.push(x).push(c));
    assert(a.push(x).push(c).drop_last() == a.push(x));
    assert(a.push(x).drop_last() == a);
    let s1 = a.push(x);
    let s2 = s1.push(c);
    let s3 = s2.push(y);
    assert(!is_stripped(x) && !is_stripped(y));
    assert(s1.last() == x && s2.last() == c && s3.last() == y);
    assert(slug_state(s1).1 == false && slug_state(s1).0.len() > 0);
    assert(slug_state(s2) == (slug_state(s1).0, true));
    assert(slug_state(s3) == (slug_state(s1).0.push('-').push(y), false));
}

// ---------------------------------------------------------------------------
// Collation

/// The Unicode White_Space property, which `char::is_whitespace` answers:
/// U+0009..U+000D, U+0020, U+0085, U+00A0, U+1680, U+2000..U+200A, U+2028,
/// U+2029, U+202F, U+205F and U+3000.
pub open spec fn char_is_whitespace(c: char) -> bool {
    ('\u{9}' <= c && c <= '\u{d}') || c == ' ' || c == '\u{85}' || c == '\u{a0}' || c == '\u{1680}'
        || ('\u{2000}' <= c && c <= '\u{200a}') || c == '\u{2028}' || c == '\u{2029}'
        || c == '\u{202f}' || c == '\u{205f}' || c == '\u{3000}'
}

/// What `char::is_numeric` answers (general categories Nd, Nl, No).
pub uninterp spec fn char_is_numeric(c: char) -> bool;

/// What `char::is_alphabetic` answers (the Unicode Alphabetic property).
pub uninterp spec fn char_is_alphabetic(c: char) -> bool;

/// Whether `c` has the White_Space property.
fn is_whitespace(c: char) -> (r: bool)
    ensures
        r == char_is_whitespace(c),
{
    ('\u{9}' <= c && c <= '\u{d}') || c == ' ' || c == '\u{85}' || c == '\u{a0}' || c == '\u{1680}'
        || ('\u{2000}' <= c && c <= '\u{200a}') || c == '\u{2028}' || c == '\u{2029}'
        || c == '\u{202f}' || c == '\u{205f}' || c == '\u{3000}'
}

/// `char::is_numeric`.
#[verifier::external_body]
fn is_numeric(c: char) -> (r: bool)
    ensures
        r == char_is_numeric(c),
{
    c.is_numeric()
}

/// `char::is_alphabetic`.
#[verifier::external_body]
fn is_alphabetic(c: char) -> (r: bool)
    ensures
        r == char_is_alphabetic(c),
{
    c.is_alphabetic()
}

/// Collation class, mirroring ICU root primary-weight order:
/// whitespace < punctuation/symbols < digits < letters.
pub open spec fn class_of(c: char) -> u8 {
    if char_is_whitespace(c) {
        1
    } else if char_is_numeric(c) {
        3
    } else if char_is_alphabetic(c) {
        4
    } else {
        2
    }
}

/// Character class for collation.
pub fn char_class(c: char) -> (r: u8)
    ensures
        r == class_of(c),
{
    if is_whitespace(c) {
        1
    } else if is_numeric(c) {
        3
    } else if is_alphabetic(c) {
        4
    } else {
        2
    }
}

/// The NFKD decomposition of a string, as `unicode_normalization`'s
/// `nfkd()` yields it.
pub uninterp spec fn nfkd(s: Seq<char>) -> Seq<char>;

/// Whether `unicode_normalization::char::is_combining_mark` holds of `c`.
pub uninterp spec fn is_combining_mark(c: char) -> bool;

/// `UnicodeNormalization::nfkd` on a string, collected.
#[verifier::external_body]
fn nfkd_chars(s: &str) -> (r: Vec<char>)
    ensures
        r@ == nfkd(s@),
{
    s.nfkd().collect()
}

/// `unicode_normalization::char::is_combining_mark`.
#[verifier::external_body]
fn combining_mark(c: char) -> (r: bool)
    ensures
        r == is_combining_mark(c),
{
    unicode_normalization::char::is_combining_mark(c)
}

/// Primary collation weights of a decomposed string: combining marks are
/// dropped, every other char is paired with its class.
pub open spec fn primary_of(decomposed: Seq<char>) -> Seq<(u8, char)>
    decreases decomposed.len(),
{
    if decomposed.len() == 0 {
        Seq::empty()
    } else {
        let rest = primary_of(decomposed.drop_last());
        let c = decomposed.last();
        if is_combining_mark(c) {
            rest
        } else {
            rest.push((class_of(c), c))
        }
    }
}

/// Primary weights of an already lowercased, NFKD-decomposed name.
pub fn primary_weights(decomposed: &Vec<char>) -> (res: Vec<(u8, char)>)
    ensures
        res@ == primary_of(decomposed@),
{
    let mut out: Vec<(u8, char)> = Vec::new();
    let mut i: usize = 0;
    while i < decomposed.len()
        invariant
            i <= decomposed@.len(),
            out@ == primary_of(decomposed@.take(i as int)),
        decreases decomposed@.len() - i,
    {
        let c = decomposed[i];
        proof {
            assert(decomposed@.take(i + 1).drop_last() == decomposed@.take(i as int));
        }
        if !combining_mark(c) {
            out.push((char_class(c), c));
        }
        i = i + 1;
    }
    assert(decomposed@.take(decomposed@.len() as int) == decomposed@);
    out
}

/// Deterministic stand-in for the browser's locale-aware `localeCompare`:
/// the name is lowercased and NFKD-decomposed, combining marks dropped (so
/// `É` collates with `E`), each remaining char paired with its class; the
/// raw name is the tiebreak.
pub fn collate_key(name: &str) -> (res: (Vec<(u8, char)>, String))
    ensures
        res.0@ == primary_of(nfkd(lowercase(name@))),
        res.1@ == name@,
{
    let lower = to_lowercase(name);
    let decomposed = nfkd_chars(lower.as_str());
    (primary_weights(&decomposed), name.to_owned())
}

} // verus!
