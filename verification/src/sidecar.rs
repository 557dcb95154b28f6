//! Sidecar scripts (`app.<hash>.js`) and the manifest that records their
//! deploy order, oldest first: the name shape, the retention window, the
//! manifest text, and the checks a manifest's entries must pass.

use vstd::prelude::*;
use vstd::string::StringSliceAdditionalSpecFns;

use crate::util::{push_char, str_equal, owned};
use crate::freshness::{fnv, hex_fixed, FNV_OFFSET};
use crate::model::texts;

verus! {

broadcast use vstd::string::group_string_axioms;

/// How many sidecars stay on disk, the current build's own included.
pub const SIDECAR_RETENTION: usize = 3;

/// The manifest's file name.
pub const SIDECAR_MANIFEST: &'static str = "sidecars.manifest";

/// `names` without any entry equal to `current`, order kept.
pub open spec fn without(names: Seq<Seq<char>>, current: Seq<char>) -> Seq<Seq<char>>
    decreases names.len(),
{
    if names.len() == 0 {
        Seq::empty()
    } else if names.last() == current {
        without(names.drop_last(), current)
    } else {
        without(names.drop_last(), current).push(names.last())
    }
}

/// The manifest after a build whose sidecar is `current`: any earlier
/// occurrence of it dropped, it appended, then only the newest
/// `SIDECAR_RETENTION` entries kept.
pub open spec fn advanced(names: Seq<Seq<char>>, current: Seq<char>) -> Seq<Seq<char>> {
    let kept = without(names, current).push(current);
    if kept.len() > SIDECAR_RETENTION {
        kept.skip(kept.len() - SIDECAR_RETENTION)
    } else {
        kept
    }
}

/// Advance `names` (oldest first) to end with `current`, capped at the
/// retention window. Order comes from list position, never from a clock.
pub fn advance_manifest(names: Vec<String>, current: &str) -> (res: Vec<String>)
    ensures
        texts(res@) == advanced(texts(names@), current@),
{
    let ghost ns = texts(names@);
    let mut kept: Vec<String> = Vec::new();
    let mut i: usize = 0;
    while i < names.len()
        invariant
            i <= names@.len(),
            ns == texts(names@),
            texts(kept@) == without(ns.take(i as int), current@),
        decreases names@.len() - i,
    {
        assert(ns.take(i + 1).drop_last() == ns.take(i as int));
        assert(ns.take(i + 1).last() == names@[i as int]@);
        if !str_equal(names[i].as_str(), current) {
            let ghost before = kept@;
            kept.push(names[i].clone());
            assert(texts(kept@) =~= texts(before).push(names@[i as int]@));
        }
        i = i + 1;
    }
    assert(ns.take(names@.len() as int) == ns);
    let ghost before = kept@;
    kept.push(owned(current));
    assert(texts(kept@) =~= texts(before).push(current@));
    if kept.len() > SIDECAR_RETENTION {
        let overflow = kept.len() - SIDECAR_RETENTION;
        let tail = kept.split_off(overflow);
        assert(texts(tail@) =~= texts(kept@ + tail@).skip(overflow as int));
        tail
    } else {
        kept
    }
}

proof fn lemma_without(names: Seq<Seq<char>>, current: Seq<char>)
    ensures
        forall|i: int| 0 <= i < without(names, current).len() ==> #[trigger] without(names, current)[i] != current
            && names.contains(without(names, current)[i]),
        without(names, current).len() <= names.len(),
        (forall|a: int, b: int| 0 <= a < b < names.len() ==> names[a] != names[b]) ==> (forall|a: int, b: int|
            0 <= a < b < without(names, current).len() ==> without(names, current)[a] != without(names, current)[b]),
        !names.contains(current) ==> without(names, current) == names,
    decreases names.len(),
{
    if names.len() > 0 {
        let p = names.drop_last();
        lemma_without(p, current);
        let w = without(names, current);
        let wp = without(p, current);
        assert forall|i: int| 0 <= i < w.len() implies #[trigger] w[i] != current && names.contains(w[i]) by {
            if i < wp.len() {
                assert(w[i] == wp[i]);
                let k = choose|k: int| 0 <= k < p.len() && p[k] == wp[i];
                assert(names[k] == p[k]);
            } else {
                assert(names[names.len() - 1] == w[i]);
            }
        }
        if forall|a: int, b: int| 0 <= a < b < names.len() ==> names[a] != names[b] {
            assert forall|a: int, b: int| 0 <= a < b < p.len() implies p[a] != p[b] by {
                assert(p[a] == names[a] && p[b] == names[b]);
            }
            assert forall|a: int, b: int| 0 <= a < b < w.len() implies w[a] != w[b] by {
                if b < wp.len() {
                    assert(w[a] == wp[a] && w[b] == wp[b]);
                } else {
                    assert(w[a] == wp[a]);
                    assert(p.contains(wp[a]));
                    let k = choose|k: int| 0 <= k < p.len() && p[k] == wp[a];
                    assert(names[k] == p[k]);
                    assert(names[names.len() - 1] != names[k]);
                }
            }
        }
        if !names.contains(current) {
            assert(names.last() != current);
            assert(!p.contains(current)) by {
                if p.contains(current) {
                    let k = choose|k: int| 0 <= k < p.len() && p[k] == current;
                    assert(names[k] == current);
                }
            }
            assert(names == p.push(names.last()));
        }
    }
}

/// The retention window's promises: the manifest ends with the current
/// sidecar, holds it once, never exceeds `SIDECAR_RETENTION` entries, keeps
/// the surviving older entries in their order, holds no entry twice if the
/// old one held none, and below the cap only appends a new sidecar.
pub proof fn lemma_advance_retention(names: Seq<Seq<char>>, current: Seq<char>)
    ensures
        advanced(names, current).len() > 0,
        advanced(names, current).last() == current,
        advanced(names, current).len() <= SIDECAR_RETENTION,
        forall|i: int| 0 <= i < advanced(names, current).len() - 1 ==> #[trigger] advanced(names, current)[i] != current,
        exists|k: int| 0 <= k <= without(names, current).len() && advanced(names, current) == without(names, current).skip(k).push(current),
        (forall|a: int, b: int| 0 <= a < b < names.len() ==> names[a] != names[b]) ==> (forall|a: int, b: int|
            0 <= a < b < advanced(names, current).len() ==> advanced(names, current)[a] != advanced(names, current)[b]),
        !names.contains(current) && names.len() < SIDECAR_RETENTION ==> advanced(names, current) == names.push(current),
{
    lemma_without(names, current);
    let w = without(names, current);
    let kept = w.push(current);
    let a = advanced(names, current);
    if kept.len() > SIDECAR_RETENTION {
        let k = kept.len() - SIDECAR_RETENTION;
        assert(a =~= w.skip(k).push(current));
        assert(forall|i: int| 0 <= i < a.len() ==> #[trigger] a[i] == kept[i + k]);
    } else {
        assert(a =~= w.skip(0).push(current));
    }
    assert forall|i: int| 0 <= i < a.len() - 1 implies #[trigger] a[i] != current by {
        let k = kept.len() - a.len();
        assert(a[i] == kept[i + k]);
        assert(kept[i + k] == w[i + k]);
    }
    if forall|x: int, y: int| 0 <= x < y < names.len() ==> names[x] != names[y] {
        assert forall|x: int, y: int| 0 <= x < y < a.len() implies a[x] != a[y] by {
            let k = kept.len() - a.len();
            assert(a[x] == kept[x + k] && a[y] == kept[y + k]);
            if y + k < w.len() {
                assert(kept[x + k] == w[x + k] && kept[y + k] == w[y + k]);
            } else {
                assert(kept[x + k] == w[x + k]);
            }
        }
    }
}

/// Rebuilding with unchanged content leaves the manifest as it is:
/// advancing an advanced manifest by the same sidecar again changes nothing.
pub proof fn lemma_advance_idempotent(names: Seq<Seq<char>>, current: Seq<char>)
    ensures
        advanced(advanced(names, current), current) == advanced(names, current),
{
    lemma_advance_retention(names, current);
    let a = advanced(names, current);
    let p = a.drop_last();
    assert(!p.contains(current)) by {
        if p.contains(current) {
            let k = choose|k: int| 0 <= k < p.len() && p[k] == current;
            assert(a[k] != current);
        }
    }
    lemma_without(p, current);
    assert(a == p.push(current));
    assert(without(a, current) == without(p, current));
    assert(without(a, current).push(current) == a);
}

/// A lowercase hex digit.
pub open spec fn is_hex_digit(c: char) -> bool {
    ('0' <= c && c <= '9') || ('a' <= c && c <= 'f')
}

/// `app.<hash>.js` with a hash of one or more lowercase hex digits: the
/// only names a manifest may list, which rules out any path.
pub open spec fn sidecar_shaped(name: Seq<char>) -> bool {
    name.len() > 7 && name.take(4) == "app."@ && name.skip(name.len() - 3) == ".js"@ && forall|i: int|
        4 <= i < name.len() - 3 ==> is_hex_digit(#[trigger] name[i])
}

/// Whether `name` is a sidecar file name.
pub fn is_app_sidecar(name: &str) -> (r: bool)
    ensures
        r == sidecar_shaped(name@),
{
    proof {
        reveal_strlit("app.");
        reveal_strlit(".js");
    }
    let n = name.unicode_len();
    if n <= 7 {
        return false;
    }
    if !(name.get_char(0) == 'a' && name.get_char(1) == 'p' && name.get_char(2) == 'p'
        && name.get_char(3) == '.') {
        assert(name@.take(4) != "app."@) by {
            if name@.take(4) == "app."@ {
                assert(name@.take(4)[0] == 'a' && name@.take(4)[1] == 'p' && name@.take(4)[2] == 'p' && name@.take(4)[3] == '.');
            }
        }
        return false;
    }
    if !(name.get_char(n - 3) == '.' && name.get_char(n - 2) == 'j' && name.get_char(n - 1) == 's') {
        assert(name@.skip(n - 3) != ".js"@) by {
            if name@.skip(n - 3) == ".js"@ {
                assert(name@.skip(n - 3)[0] == '.' && name@.skip(n - 3)[1] == 'j' && name@.skip(n - 3)[2] == 's');
            }
        }
        return false;
    }
    assert(name@.take(4) =~= "app."@);
    assert(name@.skip(n - 3) =~= ".js"@);
    let mut i: usize = 4;
    while i < n - 3
        invariant
            4 <= i <= n - 3,
            n == name@.len(),
            n > 7,
            forall|k: int| 4 <= k < i ==> is_hex_digit(#[trigger] name@[k]),
        decreases n - 3 - i,
    {
        let c = name.get_char(i);
        if !(('0' <= c && c <= '9') || ('a' <= c && c <= 'f')) {
            return false;
        }
        i = i + 1;
    }
    true
}

/// The hash part of a sidecar name (`app.<hash>.js`).
pub fn sidecar_hash(name: &str) -> (r: String)
    requires
        sidecar_shaped(name@),
    ensures
        r@ == name@.subrange(4, name@.len() - 3),
{
    let n = name.unicode_len();
    owned(name.substring_char(4, n - 3))
}

/// The hash a sidecar's content is named by: the first 12 hex digits of
/// its FNV-1a 64 hash.
pub open spec fn content_hash_of(bytes: Seq<u8>) -> Seq<char> {
    hex_fixed(fnv(FNV_OFFSET, bytes) as nat / 0x10000, 12)
}

proof fn lemma_hex_fixed_digits(h: nat, n: nat)
    ensures
        hex_fixed(h, n).len() == n,
        forall|i: int| 0 <= i < n ==> is_hex_digit(#[trigger] hex_fixed(h, n)[i]),
    decreases n,
{
    if n > 0 {
        lemma_hex_fixed_digits(h / 16, (n - 1) as nat);
        let prev = hex_fixed(h / 16, (n - 1) as nat);
        assert(hex_fixed(h, n) == prev.push(crate::freshness::hex_char((h % 16) as int)));
        assert forall|i: int| 0 <= i < n implies is_hex_digit(#[trigger] hex_fixed(h, n)[i]) by {
            if i < n - 1 {
                assert(hex_fixed(h, n)[i] == prev[i]);
            }
        }
    }
}

/// A sidecar is named by its own content: the name built from a content's
/// hash is sidecar-shaped, and its hash part is that content's hash, so a
/// freshly written sidecar always passes the retained-sidecar check.
pub proof fn lemma_sidecar_named_by_content(bytes: Seq<u8>)
    ensures
        sidecar_shaped("app."@ + content_hash_of(bytes) + ".js"@),
        ("app."@ + content_hash_of(bytes) + ".js"@).subrange(4, 16) == content_hash_of(bytes),
{
    reveal_strlit("app.");
    reveal_strlit(".js");
    let h = content_hash_of(bytes);
    lemma_hex_fixed_digits(fnv(FNV_OFFSET, bytes) as nat / 0x10000, 12);
    let name = "app."@ + h + ".js"@;
    assert(name.len() == 19);
    assert(name.take(4) =~= "app."@);
    assert(name.skip(16) =~= ".js"@);
    assert forall|i: int| 4 <= i < name.len() - 3 implies is_hex_digit(#[trigger] name[i]) by {
        assert(name[i] == h[i - 4]);
    }
    assert(name.subrange(4, 16) =~= h);
}

/// The hash a sidecar with these bytes is named by.
pub fn content_hash(bytes: &[u8]) -> (r: String)
    ensures
        r@ == content_hash_of(bytes@),
{
    let h = crate::freshness::fnv_bytes(bytes);
    crate::freshness::hex_string(h / 0x10000, 12)
}

/// A retained sidecar is intact: its name is sidecar-shaped and the hash
/// in it is the hash of the bytes the file holds.
pub open spec fn retained_ok(name: Seq<char>, bytes: Seq<u8>) -> bool {
    sidecar_shaped(name) && name.subrange(4, name.len() - 3) == content_hash_of(bytes)
}

/// Whether a retained sidecar named `name` holding `bytes` is intact. A
/// mismatch means the file was corrupted or edited after it was written.
pub fn retained_sidecar_ok(name: &str, bytes: &[u8]) -> (r: bool)
    ensures
        r == retained_ok(name@, bytes@),
{
    is_app_sidecar(name) && str_equal(sidecar_hash(name).as_str(), content_hash(bytes).as_str())
}

/// The manifest file's text: one name per line, each line ended by `\n`.
pub open spec fn manifest_text_of(names: Seq<Seq<char>>) -> Seq<char>
    decreases names.len(),
{
    if names.len() == 0 {
        Seq::empty()
    } else {
        manifest_text_of(names.drop_last()) + names.last() + seq!['\n']
    }
}

/// The manifest file's text for `names`.
pub fn manifest_text(names: &Vec<String>) -> (r: String)
    ensures
        r@ == manifest_text_of(texts(names@)),
{
    let ghost ns = texts(names@);
    let mut out = String::new();
    let mut i: usize = 0;
    while i < names.len()
        invariant
            i <= names@.len(),
            ns == texts(names@),
            out@ == manifest_text_of(ns.take(i as int)),
        decreases names@.len() - i,
    {
        assert(ns.take(i + 1).drop_last() == ns.take(i as int));
        assert(ns.take(i + 1).last() == names@[i as int]@);
        out.append(names[i].as_str());
        push_char(&mut out, '\n');
        i = i + 1;
    }
    assert(ns.take(names@.len() as int) == ns);
    out
}

/// A line with the `\r` of a `\r\n` ending removed.
pub open spec fn strip_cr(line: Seq<char>) -> Seq<char> {
    if line.len() > 0 && line.last() == '\r' {
        line.drop_last()
    } else {
        line
    }
}

/// The line splitter's state after reading `s`: the finished lines and the
/// text of the line still open.
pub open spec fn lines_state(s: Seq<char>) -> (Seq<Seq<char>>, Seq<char>)
    decreases s.len(),
{
    if s.len() == 0 {
        (Seq::empty(), Seq::empty())
    } else {
        let (done, cur) = lines_state(s.drop_last());
        if s.last() == '\n' {
            (done.push(strip_cr(cur)), Seq::empty())
        } else {
            (done, cur.push(s.last()))
        }
    }
}

/// The lines of a text: split at `\n` or `\r\n`, line endings dropped, the
/// last line ending optional (a text that ends with one has no empty last
/// line).
pub open spec fn lines_of(s: Seq<char>) -> Seq<Seq<char>> {
    let (done, cur) = lines_state(s);
    if cur.len() > 0 {
        done.push(cur)
    } else {
        done
    }
}

/// The lines of a manifest file's text.
pub fn manifest_lines(text: &str) -> (res: Vec<String>)
    ensures
        texts(res@) == lines_of(text@),
{
    let ghost s = text@;
    let mut done: Vec<String> = Vec::new();
    let mut cur = String::new();
    // A `\r` just read, held back until the next char shows whether it ends
    // the line.
    let mut cr = false;
    for ch in it: text.chars()
        invariant
            it.seq() == s,
            (texts(done@), cur@ + if cr { seq!['\r'] } else { Seq::empty() }) == lines_state(
                s.take(it.index() as int),
            ),
            !cr && cur@.len() > 0 ==> cur@.last() != '\r',
    {
        let ghost open = cur@ + if cr { seq!['\r'] } else { Seq::<char>::empty() };
        proof {
            assert(s.take(it.index() + 1).drop_last() == s.take(it.index() as int));
        }
        if ch == '\n' {
            let ghost before = done@;
            proof {
                if cr {
                    assert(open.drop_last() == cur@);
                }
            }
            done.push(cur);
            assert(texts(done@) =~= texts(before).push(strip_cr(open)));
            cur = String::new();
            cr = false;
        } else if ch == '\r' {
            if cr {
                push_char(&mut cur, '\r');
            }
            cr = true;
        } else {
            if cr {
                push_char(&mut cur, '\r');
            }
            cr = false;
            push_char(&mut cur, ch);
        }
    }
    proof {
        assert(s.take(s.len() as int) == s);
    }
    if cr {
        push_char(&mut cur, '\r');
    }
    assert(lines_state(s) == (texts(done@), cur@));
    if cur.unicode_len() > 0 {
        let ghost before = done@;
        done.push(cur);
        assert(texts(done@) =~= texts(before).push(cur@));
    }
    done
}

proof fn lemma_lines_append_plain(t: Seq<char>, w: Seq<char>)
    requires
        forall|i: int| 0 <= i < w.len() ==> w[i] != '\n',
    ensures
        lines_state(t + w) == (lines_state(t).0, lines_state(t).1 + w),
    decreases w.len(),
{
    if w.len() == 0 {
        assert(t + w == t);
        assert(lines_state(t).1 + w == lines_state(t).1);
    } else {
        lemma_lines_append_plain(t, w.drop_last());
        assert((t + w).drop_last() == t + w.drop_last());
        assert((t + w).last() == w.last());
        assert(lines_state(t).1 + w.drop_last() + seq![w.last()] == lines_state(t).1 + w);
    }
}

proof fn lemma_manifest_text_state(names: Seq<Seq<char>>)
    requires
        forall|i: int| 0 <= i < names.len() ==> sidecar_shaped(#[trigger] names[i]),
    ensures
        lines_state(manifest_text_of(names)) == (names, Seq::<char>::empty()),
    decreases names.len(),
{
    reveal_strlit("app.");
    reveal_strlit(".js");
    if names.len() > 0 {
        let init = names.drop_last();
        let w = names.last();
        assert(sidecar_shaped(names[names.len() - 1]));
        lemma_manifest_text_state(init);
        let t = manifest_text_of(init);
        assert forall|i: int| 0 <= i < w.len() implies w[i] != '\n' by {
            if i < 4 {
                assert(w.take(4)[i] == w[i]);
            } else if i >= w.len() - 3 {
                assert(w.skip(w.len() - 3)[i - (w.len() - 3)] == w[i]);
            }
        }
        lemma_lines_append_plain(t, w);
        assert(Seq::<char>::empty() + w == w);
        assert(w.skip(w.len() - 3)[2] == w.last());
        assert(manifest_text_of(names) == (t + w) + seq!['\n']);
        assert((t + w + seq!['\n']).drop_last() == t + w);
        assert(init.push(w) == names);
    }
}

/// A manifest reads back as the names it was written from: the lines of
/// `manifest_text_of(names)` are `names`, whenever every name is
/// sidecar-shaped.
pub proof fn lemma_manifest_round_trip(names: Seq<Seq<char>>)
    requires
        forall|i: int| 0 <= i < names.len() ==> sidecar_shaped(#[trigger] names[i]),
    ensures
        lines_of(manifest_text_of(names)) == names,
{
    lemma_manifest_text_state(names);
}

/// A manifest line that may not stand in a manifest.
#[derive(Debug, PartialEq, Eq)]
pub enum ManifestIssue {
    /// The line at this position is not a sidecar name.
    InvalidEntry { line: usize },
    /// The line at this position repeats an earlier one.
    Duplicate { line: usize },
}

/// The first manifest line (among the first `n`) that is not sidecar-shaped
/// or repeats an earlier line.
pub open spec fn first_bad_line(lines: Seq<Seq<char>>, n: int) -> Option<(int, bool)>
    decreases n,
{
    if n <= 0 {
        None
    } else {
        match first_bad_line(lines, n - 1) {
            Some(e) => Some(e),
            None => if !sidecar_shaped(lines[n - 1]) {
                Some((n - 1, true))
            } else if exists|j: int| 0 <= j < n - 1 && #[trigger] lines[j] == lines[n - 1] {
                Some((n - 1, false))
            } else {
                None
            },
        }
    }
}

proof fn lemma_first_bad_line_stable(lines: Seq<Seq<char>>, a: int, b: int)
    requires
        0 <= a <= b,
        first_bad_line(lines, a) is Some,
    ensures
        first_bad_line(lines, b) == first_bad_line(lines, a),
    decreases b - a,
{
    if a < b {
        lemma_first_bad_line_stable(lines, a, b - 1);
    }
}

/// Check a manifest's lines: every line must be sidecar-shaped and appear
/// once. Reports the first offending line.
pub fn check_manifest_lines(lines: &Vec<String>) -> (res: Result<(), ManifestIssue>)
    ensures
        first_bad_line(texts(lines@), lines@.len() as int) is None <==> res is Ok,
        res matches Err(ManifestIssue::InvalidEntry { line }) ==> first_bad_line(texts(lines@), lines@.len() as int)
            == Some((line as int, true)),
        res matches Err(ManifestIssue::Duplicate { line }) ==> first_bad_line(texts(lines@), lines@.len() as int)
            == Some((line as int, false)),
{
    let ghost ls = texts(lines@);
    let mut i: usize = 0;
    while i < lines.len()
        invariant
            i <= lines@.len(),
            ls == texts(lines@),
            first_bad_line(ls, i as int) is None,
        decreases lines@.len() - i,
    {
        assert(ls[i as int] == lines@[i as int]@);
        if !is_app_sidecar(lines[i].as_str()) {
            proof {
                lemma_first_bad_line_stable(ls, i + 1, lines@.len() as int);
            }
            return Err(ManifestIssue::InvalidEntry { line: i });
        }
        let mut j: usize = 0;
        while j < i
            invariant
                j <= i < lines@.len(),
                ls == texts(lines@),
                sidecar_shaped(ls[i as int]),
                first_bad_line(ls, i as int) is None,
                forall|q: int| 0 <= q < j ==> ls[q] != ls[i as int],
            decreases i - j,
        {
            assert(ls[j as int] == lines@[j as int]@);
            if str_equal(lines[j].as_str(), lines[i].as_str()) {
                assert(first_bad_line(ls, i + 1) == Some((i as int, false)));
                proof {
                    lemma_first_bad_line_stable(ls, i + 1, lines@.len() as int);
                }
                return Err(ManifestIssue::Duplicate { line: i });
            }
            j = j + 1;
        }
        i = i + 1;
    }
    Ok(())
}

/// The names in `on_disk` that `listed` does not hold, in order: drift for
/// a check, and what a build deletes.
pub open spec fn unlisted_of(on_disk: Seq<Seq<char>>, listed: Seq<Seq<char>>) -> Seq<Seq<char>>
    decreases on_disk.len(),
{
    if on_disk.len() == 0 {
        Seq::empty()
    } else if listed.contains(on_disk.last()) {
        unlisted_of(on_disk.drop_last(), listed)
    } else {
        unlisted_of(on_disk.drop_last(), listed).push(on_disk.last())
    }
}

/// The cleanup and the check agree: the unlisted sidecars are exactly the
/// files on disk that the manifest does not list, so once a build has
/// removed them, a check of the same manifest finds none.
pub proof fn lemma_unlisted_is_difference(on_disk: Seq<Seq<char>>, listed: Seq<Seq<char>>)
    ensures
        forall|x: Seq<char>| #[trigger] unlisted_of(on_disk, listed).contains(x) <==> on_disk.contains(x) && !listed.contains(x),
    decreases on_disk.len(),
{
    if on_disk.len() > 0 {
        let p = on_disk.drop_last();
        lemma_unlisted_is_difference(p, listed);
        let u = unlisted_of(on_disk, listed);
        let up = unlisted_of(p, listed);
        assert forall|x: Seq<char>| #[trigger] u.contains(x) <==> on_disk.contains(x) && !listed.contains(x) by {
            if u.contains(x) {
                let k = choose|k: int| 0 <= k < u.len() && u[k] == x;
                if k < up.len() {
                    assert(up[k] == x);
                    assert(up.contains(x));
                    let j = choose|j: int| 0 <= j < p.len() && p[j] == x;
                    assert(on_disk[j] == x);
                } else {
                    assert(on_disk[on_disk.len() - 1] == x);
                }
            }
            if on_disk.contains(x) && !listed.contains(x) {
                let j = choose|j: int| 0 <= j < on_disk.len() && on_disk[j] == x;
                if j < p.len() {
                    assert(p[j] == x);
                    assert(p.contains(x));
                    assert(up.contains(x));
                    let k = choose|k: int| 0 <= k < up.len() && up[k] == x;
                    assert(u[k] == x);
                } else {
                    assert(u[u.len() - 1] == x);
                }
            }
        }
    }
}

/// The sidecar files on disk that the manifest does not list.
pub fn unlisted_sidecars(on_disk: &Vec<String>, listed: &Vec<String>) -> (res: Vec<String>)
    ensures
        texts(res@) == unlisted_of(texts(on_disk@), texts(listed@)),
{
    let ghost ds = texts(on_disk@);
    let ghost ls = texts(listed@);
    let mut out: Vec<String> = Vec::new();
    let mut i: usize = 0;
    while i < on_disk.len()
        invariant
            i <= on_disk@.len(),
            ds == texts(on_disk@),
            ls == texts(listed@),
            texts(out@) == unlisted_of(ds.take(i as int), ls),
        decreases on_disk@.len() - i,
    {
        assert(ds.take(i + 1).drop_last() == ds.take(i as int));
        assert(ds.take(i + 1).last() == on_disk@[i as int]@);
        let mut found = false;
        let mut j: usize = 0;
        while j < listed.len()
            invariant
                j <= listed@.len(),
                i < on_disk@.len(),
                ls == texts(listed@),
                found <==> exists|q: int| 0 <= q < j && #[trigger] ls[q] == on_disk@[i as int]@,
            decreases listed@.len() - j,
        {
            assert(ls[j as int] == listed@[j as int]@);
            if str_equal(listed[j].as_str(), on_disk[i].as_str()) {
                found = true;
            }
            j = j + 1;
        }
        if !found {
            let ghost before = out@;
            out.push(on_disk[i].clone());
            assert(texts(out@) =~= texts(before).push(on_disk@[i as int]@));
        }
        i = i + 1;
    }
    assert(ds.take(on_disk@.len() as int) == ds);
    out
}

/// What a check finds wrong with the manifest itself: whether it fails to
/// end with the current sidecar, and whether it lists more sidecars than the
/// retention window holds.
pub struct ManifestDrift {
    pub not_current: bool,
    pub over_cap: bool,
}

/// Judge a committed manifest against the current build's sidecar name.
pub fn manifest_drift(manifest: &Vec<String>, current: &str) -> (d: ManifestDrift)
    ensures
        d.not_current == !(manifest@.len() > 0 && manifest@.last()@ == current@),
        d.over_cap == (manifest@.len() > SIDECAR_RETENTION),
{
    let n = manifest.len();
    let not_current = !(n > 0 && str_equal(manifest[n - 1].as_str(), current));
    ManifestDrift { not_current, over_cap: n > SIDECAR_RETENTION }
}

/// The byte position where two texts first differ, or the shorter length
/// when one is a prefix of the other.
pub open spec fn first_difference_of(a: Seq<u8>, b: Seq<u8>) -> int
    decreases a.len(),
{
    if a.len() == 0 || b.len() == 0 || a[0] != b[0] {
        0
    } else {
        1 + first_difference_of(a.drop_first(), b.drop_first())
    }
}

/// Where a committed page first differs from the fresh build, in bytes.
pub fn first_difference(committed: &str, built: &str) -> (r: usize)
    ensures
        r == first_difference_of(committed.spec_bytes(), built.spec_bytes()),
{
    let a = committed.as_bytes();
    let b = built.as_bytes();
    let mut i: usize = 0;
    assert(a@.skip(0) == a@ && b@.skip(0) == b@);
    while i < a.len() && i < b.len() && a[i] == b[i]
        invariant
            i <= a@.len(),
            i <= b@.len(),
            first_difference_of(a@, b@) == i + first_difference_of(a@.skip(i as int), b@.skip(i as int)),
        decreases a@.len() - i,
    {
        assert(a@.skip(i as int).drop_first() == a@.skip(i + 1));
        assert(b@.skip(i as int).drop_first() == b@.skip(i + 1));
        assert(a@.skip(i as int)[0] == a@[i as int]);
        assert(b@.skip(i as int)[0] == b@[i as int]);
        i = i + 1;
    }
    proof {
        if i < a@.len() && i < b@.len() {
            assert(a@.skip(i as int)[0] == a@[i as int]);
            assert(b@.skip(i as int)[0] == b@[i as int]);
        }
    }
    i
}

} // verus!
