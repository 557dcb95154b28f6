//! The source hash that ties a builder binary to the checkout it was built
//! from: FNV-1a 64 over (relative path, content) of every compiled-in
//! source file, written as 16 lowercase hex digits, and the freshness check
//! that compares the hash a binary carries with the checkout's.

use vstd::prelude::*;
use vstd::string::StrSliceExecFns;
use crate::util::{push_char, str_equal, owned, concat3};
use crate::order::{SortKey, sort_rows, sorted_by, raw_weights, weights_of, lemma_sorted_unique};
use crate::model::texts;

verus! {

broadcast use vstd::string::group_string_axioms;

pub const FNV_OFFSET: u64 = 0xcbf2_9ce4_8422_2325;

pub const FNV_PRIME: u64 = 0x0000_0100_0000_01b3;

/// One FNV-1a step: xor the byte in, multiply by the prime modulo 2^64.
pub open spec fn fnv_step(h: u64, b: u8) -> u64 {
    (((h ^ (b as u64)) as nat * FNV_PRIME as nat) % 0x1_0000_0000_0000_0000) as u64
}

/// FNV-1a over `bytes`, starting from state `h`.
pub open spec fn fnv(h: u64, bytes: Seq<u8>) -> u64
    decreases bytes.len(),
{
    if bytes.len() == 0 {
        h
    } else {
        fnv_step(fnv(h, bytes.drop_last()), bytes.last())
    }
}

/// The bytes one file contributes: its relative path, a 0 byte, its
/// content, a 0xFF byte.
pub open spec fn file_record(path: Seq<u8>, content: Seq<u8>) -> Seq<u8> {
    path + seq![0u8] + content + seq![0xFFu8]
}

/// All files' records, in order.
pub open spec fn records(files: Seq<(Seq<u8>, Seq<u8>)>) -> Seq<u8>
    decreases files.len(),
{
    if files.len() == 0 {
        Seq::empty()
    } else {
        records(files.drop_last()) + file_record(files.last().0, files.last().1)
    }
}

/// The lowercase hex digit of `d < 16`.
pub open spec fn hex_char(d: int) -> char {
    if d < 10 {
        crate::util::digit_char(d)
    } else if d == 10 {
        'a'
    } else if d == 11 {
        'b'
    } else if d == 12 {
        'c'
    } else if d == 13 {
        'd'
    } else if d == 14 {
        'e'
    } else {
        'f'
    }
}

/// The last `n` hex digits of `h`, zero-padded (`{h:016x}` for n = 16).
pub open spec fn hex_fixed(h: nat, n: nat) -> Seq<char>
    decreases n,
{
    if n == 0 {
        Seq::empty()
    } else {
        hex_fixed(h / 16, (n - 1) as nat).push(hex_char((h % 16) as int))
    }
}

/// The value of a lowercase hex digit.
pub open spec fn hex_digit_value(c: char) -> int {
    if '0' <= c && c <= '9' {
        (c as int) - ('0' as int)
    } else {
        (c as int) - ('a' as int) + 10
    }
}

/// The number a string of hex digits reads as, most significant first.
pub open spec fn hex_value(s: Seq<char>) -> int
    decreases s.len(),
{
    if s.len() == 0 {
        0
    } else {
        hex_value(s.drop_last()) * 16 + hex_digit_value(s.last())
    }
}

/// `16` to the power `n`.
pub open spec fn pow16(n: nat) -> nat
    decreases n,
{
    if n == 0 {
        1
    } else {
        16 * pow16((n - 1) as nat)
    }
}

proof fn lemma_hex_char(d: int)
    requires
        0 <= d < 16,
    ensures
        hex_digit_value(hex_char(d)) == d,
        ('0' <= hex_char(d) && hex_char(d) <= '9') || ('a' <= hex_char(d) && hex_char(d) <= 'f'),
{
}

/// The fixed-width hex rendering reads back: `hex_fixed(h, n)` is `n`
/// lowercase hex digits whose value is `h` modulo `16^n` (the low `n`
/// digits of `h`, zero-padded).
pub proof fn lemma_hex_reads_back(h: nat, n: nat)
    ensures
        hex_fixed(h, n).len() == n,
        forall|i: int| 0 <= i < n ==> ('0' <= #[trigger] hex_fixed(h, n)[i] && hex_fixed(h, n)[i] <= '9')
            || ('a' <= hex_fixed(h, n)[i] && hex_fixed(h, n)[i] <= 'f'),
        hex_value(hex_fixed(h, n)) == h % pow16(n),
    decreases n,
{
    if n == 0 {
        assert(h % 1 == 0);
    } else {
        let p = pow16((n - 1) as nat) as int;
        lemma_hex_reads_back(h / 16, (n - 1) as nat);
        lemma_hex_char((h % 16) as int);
        let prev = hex_fixed(h / 16, (n - 1) as nat);
        let cur = hex_fixed(h, n);
        assert(cur == prev.push(hex_char((h % 16) as int)));
        assert(cur.drop_last() == prev);
        assert forall|i: int| 0 <= i < n implies ('0' <= #[trigger] cur[i] && cur[i] <= '9') || ('a' <= cur[i] && cur[i] <= 'f') by {
            if i < n - 1 {
                assert(cur[i] == prev[i]);
            }
        }
        let q = (h / 16) as int;
        let r = (h % 16) as int;
        let k = q / p;
        let m = q % p;
        assert(p > 0) by {
            lemma_pow16_positive((n - 1) as nat);
        }
        vstd::arithmetic::div_mod::lemma_fundamental_div_mod(q, p);
        assert(h as int == 16 * q + r);
        assert(0 <= m < p);
        assert(h as int == k * (16 * p) + (16 * m + r)) by (nonlinear_arith)
            requires
                h as int == 16 * q + r,
                q == p * (q / p) + q % p,
                k == q / p,
                m == q % p,
        ;
        assert(0 <= 16 * m + r < 16 * p) by (nonlinear_arith)
            requires
                0 <= m < p,
                0 <= r < 16,
        ;
        vstd::arithmetic::div_mod::lemma_fundamental_div_mod_converse(h as int, 16 * p, k, 16 * m + r);
        assert(hex_value(cur) == hex_value(prev) * 16 + r);
    }
}

proof fn lemma_pow16_positive(n: nat)
    ensures
        pow16(n) > 0,
    decreases n,
{
    if n > 0 {
        lemma_pow16_positive((n - 1) as nat);
    }
}

/// The source hash of the given (relative path, content) files.
pub open spec fn source_hash_of(files: Seq<(Seq<u8>, Seq<u8>)>) -> Seq<char> {
    hex_fixed(fnv(FNV_OFFSET, records(files)) as nat, 16)
}

fn hex_exec(d: u64) -> (c: char)
    requires
        d < 16,
    ensures
        c == hex_char(d as int),
{
    if d == 0 { '0' }
    else if d == 1 { '1' }
    else if d == 2 { '2' }
    else if d == 3 { '3' }
    else if d == 4 { '4' }
    else if d == 5 { '5' }
    else if d == 6 { '6' }
    else if d == 7 { '7' }
    else if d == 8 { '8' }
    else if d == 9 { '9' }
    else if d == 10 { 'a' }
    else if d == 11 { 'b' }
    else if d == 12 { 'c' }
    else if d == 13 { 'd' }
    else if d == 14 { 'e' }
    else { 'f' }
}

fn push_hex(out: &mut String, h: u64, n: usize)
    ensures
        final(out)@ == old(out)@ + hex_fixed(h as nat, n as nat),
    decreases n,
{
    if n > 0 {
        push_hex(out, h / 16, n - 1);
        push_char(out, hex_exec(h % 16));
        assert(old(out)@ + hex_fixed(h as nat, n as nat) =~= old(out)@ + hex_fixed((h / 16) as nat, (n - 1) as nat) + seq![hex_char((h % 16) as int)]);
    } else {
        assert(old(out)@ + hex_fixed(h as nat, n as nat) =~= old(out)@);
    }
}

fn eat(h: u64, bytes: &[u8]) -> (r: u64)
    ensures
        r == fnv(h, bytes@),
{
    let mut state = h;
    let mut i: usize = 0;
    while i < bytes.len()
        invariant
            i <= bytes@.len(),
            state == fnv(h, bytes@.take(i as int)),
        decreases bytes@.len() - i,
    {
        assert(bytes@.take(i + 1).drop_last() == bytes@.take(i as int));
        state = (state ^ (bytes[i] as u64)).wrapping_mul(FNV_PRIME);
        i = i + 1;
    }
    assert(bytes@.take(bytes@.len() as int) == bytes@);
    state
}

proof fn lemma_fnv_concat(h: u64, a: Seq<u8>, b: Seq<u8>)
    ensures
        fnv(h, a + b) == fnv(fnv(h, a), b),
    decreases b.len(),
{
    if b.len() == 0 {
        assert(a + b == a);
    } else {
        lemma_fnv_concat(h, a, b.drop_last());
        assert((a + b).drop_last() == a + b.drop_last());
    }
}

/// FNV-1a 64 over (relative path, 0, content, 0xFF) of every file, in the
/// order given, as 16 lowercase hex digits.
pub fn source_hash(files: &Vec<(Vec<u8>, Vec<u8>)>) -> (res: String)
    ensures
        res@ == source_hash_of(files@.map_values(|f: (Vec<u8>, Vec<u8>)| (f.0@, f.1@))),
{
    let ghost fs = files@.map_values(|f: (Vec<u8>, Vec<u8>)| (f.0@, f.1@));
    let mut h: u64 = FNV_OFFSET;
    let mut i: usize = 0;
    let zero: [u8; 1] = [0u8];
    let ff: [u8; 1] = [0xFFu8];
    while i < files.len()
        invariant
            i <= files@.len(),
            fs == files@.map_values(|f: (Vec<u8>, Vec<u8>)| (f.0@, f.1@)),
            zero@ == seq![0u8],
            ff@ == seq![0xFFu8],
            h == fnv(FNV_OFFSET, records(fs.take(i as int))),
        decreases files@.len() - i,
    {
        let (path, content) = &files[i];
        assert(fs.take(i + 1).drop_last() == fs.take(i as int));
        assert(fs.take(i + 1).last() == (path@, content@));
        let ghost before = records(fs.take(i as int));
        h = eat(h, path.as_slice());
        h = eat(h, zero.as_slice());
        h = eat(h, content.as_slice());
        h = eat(h, ff.as_slice());
        proof {
            lemma_fnv_concat(FNV_OFFSET, before, path@);
            lemma_fnv_concat(FNV_OFFSET, before + path@, seq![0u8]);
            lemma_fnv_concat(FNV_OFFSET, before + path@ + seq![0u8], content@);
            lemma_fnv_concat(FNV_OFFSET, before + path@ + seq![0u8] + content@, seq![0xFFu8]);
            assert(records(fs.take(i + 1)) =~= before + path@ + seq![0u8] + content@ + seq![0xFFu8]);
        }
        i = i + 1;
    }
    assert(fs.take(files@.len() as int) == fs);
    let mut out = String::new();
    push_hex(&mut out, h, 16);
    assert(out@ =~= hex_fixed(h as nat, 16));
    out
}

/// The hashed byte stream, file by file: no files give no bytes, and each
/// further file adds its relative path, a 0 byte, its content and a 0xFF
/// byte, so no file's path runs into its content or into the next file.
pub proof fn lemma_records_layout(files: Seq<(Seq<u8>, Seq<u8>)>, path: Seq<u8>, content: Seq<u8>)
    ensures
        records(Seq::empty()) == Seq::<u8>::empty(),
        records(files.push((path, content))) == records(files) + path + seq![0u8] + content + seq![0xFFu8],
        records(files.push((path, content))).len() == records(files).len() + path.len() + content.len() + 2,
        records(files.push((path, content)))[(records(files).len() + path.len()) as int] == 0u8,
        records(files.push((path, content))).last() == 0xFFu8,
{
    assert(files.push((path, content)).drop_last() == files);
    let r = records(files.push((path, content)));
    assert(r == records(files) + path + seq![0u8] + content + seq![0xFFu8]);
    assert(r[(records(files).len() + path.len()) as int] == 0u8);
}

/// The source hash is FNV-1a 64 (offset basis 0xcbf29ce484222325, prime
/// 0x100000001b3: xor each byte in, then multiply modulo 2^64) over that
/// stream, continued file by file, as 16 lowercase hex digits.
pub proof fn lemma_source_hash_is_fnv(files: Seq<(Seq<u8>, Seq<u8>)>, path: Seq<u8>, content: Seq<u8>)
    ensures
        source_hash_of(files) == hex_fixed(fnv(0xcbf2_9ce4_8422_2325u64, records(files)) as nat, 16),
        fnv(0xcbf2_9ce4_8422_2325u64, records(files.push((path, content)))) == fnv(
            fnv(0xcbf2_9ce4_8422_2325u64, records(files)),
            path + seq![0u8] + content + seq![0xFFu8],
        ),
        forall|h: u64, bytes: Seq<u8>, b: u8| #[trigger] fnv(h, bytes.push(b))
            == (((fnv(h, bytes) ^ (b as u64)) as nat * 0x100000001b3nat) % 0x1_0000_0000_0000_0000) as u64,
        forall|h: u64| #[trigger] fnv(h, Seq::<u8>::empty()) == h,
{
    lemma_records_layout(files, path, content);
    lemma_fnv_concat(FNV_OFFSET, records(files), path + seq![0u8] + content + seq![0xFFu8]);
    assert(records(files) + path + seq![0u8] + content + seq![0xFFu8] == records(files) + (path + seq![0u8] + content + seq![0xFFu8]));
    assert forall|h: u64, bytes: Seq<u8>, b: u8| #[trigger] fnv(h, bytes.push(b))
        == (((fnv(h, bytes) ^ (b as u64)) as nat * 0x100000001b3nat) % 0x1_0000_0000_0000_0000) as u64 by {
        assert(bytes.push(b).drop_last() == bytes);
    }
}

/// FNV-1a 64 of `bytes` from the offset basis.
pub(crate) fn fnv_bytes(bytes: &[u8]) -> (r: u64)
    ensures
        r == fnv(FNV_OFFSET, bytes@),
{
    eat(FNV_OFFSET, bytes)
}

/// The last `n` hex digits of `h`, zero-padded.
pub(crate) fn hex_string(h: u64, n: usize) -> (r: String)
    ensures
        r@ == hex_fixed(h as nat, n as nat),
{
    let mut out = String::new();
    push_hex(&mut out, h, n);
    assert(out@ =~= hex_fixed(h as nat, n as nat));
    out
}

// ---------------------------------------------------------------------------
// Which files the source hash covers

/// Whether `name` ends with `suffix`.
pub open spec fn ends_with(name: Seq<char>, suffix: Seq<char>) -> bool {
    name.len() >= suffix.len() && name.skip(name.len() - suffix.len()) == suffix
}

/// Whether the file `name` in the checkout directory `dir` is compiled into
/// the builder: the Rust sources in `src` and the HTML templates in
/// `templates`.
pub open spec fn compiled_in(dir: Seq<char>, name: Seq<char>) -> bool {
    (dir == "src"@ && ends_with(name, ".rs"@)) || (dir == "templates"@ && ends_with(name, ".html"@))
}

fn ends_with_exec(name: &str, suffix: &str) -> (r: bool)
    ensures
        r == ends_with(name@, suffix@),
{
    let n = name.unicode_len();
    let k = suffix.unicode_len();
    n >= k && str_equal(name.substring_char(n - k, n), suffix)
}

/// Whether the file `name` in directory `dir` is compiled into the builder.
pub fn is_compiled_in(dir: &str, name: &str) -> (r: bool)
    ensures
        r == compiled_in(dir@, name@),
{
    proof {
        reveal_strlit("src");
        reveal_strlit("templates");
    }
    (str_equal(dir, "src") && ends_with_exec(name, ".rs"))
        || (str_equal(dir, "templates") && ends_with_exec(name, ".html"))
}

/// The positions, among the first `n` names of a listing of `dir`, of the
/// compiled-in files, in listing order.
pub open spec fn compiled_positions(dir: Seq<char>, names: Seq<Seq<char>>, n: int) -> Seq<usize>
    decreases n,
{
    if n <= 0 {
        Seq::empty()
    } else if compiled_in(dir, names[n - 1]) {
        compiled_positions(dir, names, n - 1).push((n - 1) as usize)
    } else {
        compiled_positions(dir, names, n - 1)
    }
}

/// A listing's sort keys: by the code points of the name.
pub open spec fn name_keys(names: Seq<Seq<char>>) -> Seq<(i64, Seq<(u8, char)>, Seq<(u8, char)>)> {
    Seq::new(names.len(), |p: int| (0i64, Seq::<(u8, char)>::empty(), raw_weights(names[p])))
}

/// `order` lists the compiled-in files of a listing of `dir`, each once,
/// sorted by name.
pub open spec fn sorted_listing(dir: Seq<char>, names: Seq<Seq<char>>, order: Seq<usize>) -> bool {
    &&& order.len() == compiled_positions(dir, names, names.len() as int).len()
    &&& order.to_set() == compiled_positions(dir, names, names.len() as int).to_set()
    &&& sorted_by(name_keys(names), order)
}

/// The files the hash covers whatever the directories hold, in path order.
pub open spec fn fixed_inputs() -> Seq<Seq<char>> {
    seq!["Cargo.lock"@, "Cargo.toml"@, "build.rs"@]
}

/// The relative paths `<dir>/<name>` of the listed files, in `order`.
pub open spec fn in_dir(dir: Seq<char>, names: Seq<Seq<char>>, order: Seq<usize>) -> Seq<Seq<char>> {
    order.map_values(|p: usize| dir + "/"@ + names[p as int])
}

/// The relative paths of every file the source hash covers, in path order,
/// for the given listings of `src` and `templates`.
pub open spec fn hash_inputs_are(src: Seq<Seq<char>>, templates: Seq<Seq<char>>, paths: Seq<Seq<char>>) -> bool {
    exists|s: Seq<usize>, t: Seq<usize>|
        #![trigger in_dir("src"@, src, s), in_dir("templates"@, templates, t)]
        sorted_listing("src"@, src, s) && sorted_listing("templates"@, templates, t)
            && paths == fixed_inputs() + in_dir("src"@, src, s) + in_dir("templates"@, templates, t)
}

/// The covered files are determined by the listings: for the same listings
/// there is exactly one list of inputs, so every run hashes the same files
/// in the same order.
pub proof fn lemma_hash_inputs_unique(src: Seq<Seq<char>>, templates: Seq<Seq<char>>, p1: Seq<Seq<char>>, p2: Seq<Seq<char>>)
    requires
        hash_inputs_are(src, templates, p1),
        hash_inputs_are(src, templates, p2),
    ensures
        p1 == p2,
{
    let (s1, t1) = choose|s: Seq<usize>, t: Seq<usize>|
        #![trigger in_dir("src"@, src, s), in_dir("templates"@, templates, t)]
        sorted_listing("src"@, src, s) && sorted_listing("templates"@, templates, t)
            && p1 == fixed_inputs() + in_dir("src"@, src, s) + in_dir("templates"@, templates, t);
    let (s2, t2) = choose|s: Seq<usize>, t: Seq<usize>|
        #![trigger in_dir("src"@, src, s), in_dir("templates"@, templates, t)]
        sorted_listing("src"@, src, s) && sorted_listing("templates"@, templates, t)
            && p2 == fixed_inputs() + in_dir("src"@, src, s) + in_dir("templates"@, templates, t);
    lemma_sorted_unique(name_keys(src), s1, s2);
    lemma_sorted_unique(name_keys(templates), t1, t2);
}

fn compiled_list(dir: &str, names: &Vec<String>) -> (res: Vec<usize>)
    ensures
        res@ == compiled_positions(dir@, texts(names@), names@.len() as int),
{
    let ghost ns = texts(names@);
    let mut out: Vec<usize> = Vec::new();
    let mut i: usize = 0;
    while i < names.len()
        invariant
            i <= names@.len(),
            ns == texts(names@),
            out@ == compiled_positions(dir@, ns, i as int),
        decreases names@.len() - i,
    {
        assert(ns[i as int] == names@[i as int]@);
        if is_compiled_in(dir, names[i].as_str()) {
            out.push(i);
        }
        i = i + 1;
    }
    out
}

proof fn lemma_compiled_positions(dir: Seq<char>, names: Seq<Seq<char>>, n: int)
    requires
        0 <= n <= names.len() <= usize::MAX,
    ensures
        forall|a: int, b: int| 0 <= a < b < compiled_positions(dir, names, n).len()
            ==> compiled_positions(dir, names, n)[a] < compiled_positions(dir, names, n)[b],
        forall|a: int| 0 <= a < compiled_positions(dir, names, n).len() ==> compiled_positions(dir, names, n)[a] < n,
    decreases n,
{
    if n > 0 {
        lemma_compiled_positions(dir, names, n - 1);
        let prev = compiled_positions(dir, names, n - 1);
        let cur = compiled_positions(dir, names, n);
        if compiled_in(dir, names[n - 1]) {
            assert(cur == prev.push((n - 1) as usize));
            assert forall|a: int| 0 <= a < cur.len() implies cur[a] < n by {
                if a < prev.len() {
                    assert(cur[a] == prev[a]);
                }
            }
            assert forall|a: int, b: int| 0 <= a < b < cur.len() implies cur[a] < cur[b] by {
                assert(cur[a] == prev[a]);
                if b < prev.len() {
                    assert(cur[b] == prev[b]);
                } else {
                    assert(prev[a] < n - 1);
                    assert(cur[b] == n - 1);
                }
            }
        }
    }
}

fn name_sort_keys(names: &Vec<String>) -> (keys: Vec<SortKey>)
    ensures
        keys@.map_values(|k: SortKey| k@) == name_keys(texts(names@)),
{
    let ghost ns = texts(names@);
    let mut keys: Vec<SortKey> = Vec::new();
    let mut p: usize = 0;
    while p < names.len()
        invariant
            p <= names@.len(),
            ns == texts(names@),
            keys@.map_values(|k: SortKey| k@) == name_keys(ns).take(p as int),
        decreases names@.len() - p,
    {
        let k = SortKey { year: 0, primary: Vec::new(), raw: weights_of(names[p].as_str()) };
        let ghost before = keys@;
        keys.push(k);
        assert(keys@.map_values(|k: SortKey| k@) =~= before.map_values(|k: SortKey| k@).push(k@));
        assert(name_keys(ns).take(p + 1) =~= name_keys(ns).take(p as int).push(name_keys(ns)[p as int]));
        p = p + 1;
    }
    assert(name_keys(ns).take(names@.len() as int) =~= name_keys(ns));
    keys
}

/// The listed files of `dir` that are compiled in, sorted by name, as
/// relative paths appended to `out`.
fn push_listing(out: &mut Vec<String>, dir: &str, names: &Vec<String>) -> (order: Ghost<Seq<usize>>)
    ensures
        sorted_listing(dir@, texts(names@), order@),
        texts(final(out)@) == texts(old(out)@) + in_dir(dir@, texts(names@), order@),
{
    let ghost ns = texts(names@);
    let rows = compiled_list(dir, names);
    let n = names.len();
    proof {
        assert(ns.len() == n);
        lemma_compiled_positions(dir@, ns, n as int);
    }
    let keys = name_sort_keys(names);
    assert(keys@.map_values(|k: SortKey| k@).len() == keys@.len());
    let order = sort_rows(&keys, &rows);
    let ghost start = texts(out@);
    let mut q: usize = 0;
    while q < order.len()
        invariant
            q <= order@.len(),
            ns == texts(names@),
            order@.len() == rows@.len(),
            order@.to_set() == rows@.to_set(),
            forall|a: int| 0 <= a < rows@.len() ==> rows@[a] < names@.len(),
            texts(out@) == start + in_dir(dir@, ns, order@.take(q as int)),
        decreases order@.len() - q,
    {
        let p = order[q];
        proof {
            assert(order@.to_set().contains(p));
            assert(rows@.to_set().contains(p));
            let w = choose|w: int| 0 <= w < rows@.len() && rows@[w] == p;
        }
        let path = concat3(dir, "/", names[p].as_str());
        let ghost before = out@;
        out.push(path);
        assert(texts(out@) =~= texts(before).push(path@));
        assert(in_dir(dir@, ns, order@.take(q + 1)) =~= in_dir(dir@, ns, order@.take(q as int)).push(dir@ + "/"@ + ns[p as int]));
        q = q + 1;
    }
    assert(order@.take(order@.len() as int) == order@);
    Ghost(order@)
}

/// The relative paths of the files the source hash covers, in path order:
/// the manifests and build script, then the compiled-in files of the
/// `src` and `templates` listings, each sorted by name.
pub fn hash_input_paths(src: &Vec<String>, templates: &Vec<String>) -> (res: Vec<String>)
    ensures
        hash_inputs_are(texts(src@), texts(templates@), texts(res@)),
{
    let mut out: Vec<String> = Vec::new();
    out.push(owned("Cargo.lock"));
    out.push(owned("Cargo.toml"));
    out.push(owned("build.rs"));
    assert(texts(out@) =~= fixed_inputs());
    let Ghost(s) = push_listing(&mut out, "src", src);
    let Ghost(t) = push_listing(&mut out, "templates", templates);
    assert(texts(out@) == fixed_inputs() + in_dir("src"@, texts(src@), s) + in_dir("templates"@, texts(templates@), t));
    out
}

/// A builder binary whose embedded source hash differs from the checkout's.
#[derive(Debug)]
pub struct StaleBinary {
    /// The hash the binary was built from.
    pub built_from: String,
    /// The hash of the checkout it runs on.
    pub checkout: String,
}

/// The stale-binary message.
pub open spec fn stale_message(built_from: Seq<char>, checkout: Seq<char>) -> Seq<char> {
    "this canon-builder binary is stale: it was built from sources hashing "@ + built_from
        + ", but the checkout hashes "@ + checkout + ". Rebuild and re-ship it:\n  cargo build --profile dist --target x86_64-unknown-linux-musl\n  cp target/x86_64-unknown-linux-musl/dist/canon-builder bin/canon-builder"@
}

impl StaleBinary {
    /// The human-readable message.
    pub fn message(&self) -> (r: String)
        ensures
            r@ == stale_message(self.built_from@, self.checkout@),
    {
        let mut r = owned("this canon-builder binary is stale: it was built from sources hashing ");
        r.append(self.built_from.as_str());
        r.append(", but the checkout hashes ");
        r.append(self.checkout.as_str());
        r.append(". Rebuild and re-ship it:\n  cargo build --profile dist --target x86_64-unknown-linux-musl\n  cp target/x86_64-unknown-linux-musl/dist/canon-builder bin/canon-builder");
        r
    }
}

/// Refuse to run from a binary that no longer matches the checkout's
/// sources: `actual` is the checkout's source hash, `embedded` the one the
/// binary was built from.
pub fn verify_freshness(actual: &str, embedded: &str) -> (res: Result<(), StaleBinary>)
    ensures
        actual@ == embedded@ <==> res is Ok,
        res matches Err(e) ==> e.built_from@ == embedded@ && e.checkout@ == actual@,
{
    if str_equal(actual, embedded) {
        Ok(())
    } else {
        Err(StaleBinary { built_from: owned(embedded), checkout: owned(actual) })
    }
}

} // verus!
