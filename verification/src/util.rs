//! Small string helpers shared by the modules: char pushing, text equality
//! and decimal rendering of years.

use vstd::prelude::*;

verus! {

broadcast use vstd::string::group_string_axioms;

/// `String::push`: appends one char to the end of the string.
#[verifier::external_body]
pub(crate) fn push_char(s: &mut String, c: char)
    ensures
        final(s)@ == old(s)@.push(c),
{
    s.push(c)
}

/// `str == str`: two string slices are equal exactly when they hold the
/// same chars (UTF-8 encodes each char sequence one way only).
#[verifier::external_body]
pub(crate) fn str_equal(a: &str, b: &str) -> (r: bool)
    ensures
        r == (a@ == b@),
{
    a == b
}

/// A copy of `s` as a `String`.
pub(crate) fn owned(s: &str) -> (r: String)
    ensures
        r@ == s@,
{
    s.to_owned()
}

/// `a` followed by `b`.
pub(crate) fn concat2(a: &str, b: &str) -> (r: String)
    ensures
        r@ == a@ + b@,
{
    let mut r = owned(a);
    r.append(b);
    r
}

/// `a`, `b`, `c` in a row.
pub(crate) fn concat3(a: &str, b: &str, c: &str) -> (r: String)
    ensures
        r@ == a@ + b@ + c@,
{
    let mut r = owned(a);
    r.append(b);
    r.append(c);
    r
}

/// The ASCII digit for `d < 10`.
pub open spec fn digit_char(d: int) -> char {
    if d == 0 { '0' }
    else if d == 1 { '1' }
    else if d == 2 { '2' }
    else if d == 3 { '3' }
    else if d == 4 { '4' }
    else if d == 5 { '5' }
    else if d == 6 { '6' }
    else if d == 7 { '7' }
    else if d == 8 { '8' }
    else { '9' }
}

/// Decimal digits of a natural number, most significant first, no leading
/// zeros (`0` is `"0"`).
pub open spec fn digits_of(m: nat) -> Seq<char>
    decreases m,
{
    if m < 10 {
        seq![digit_char(m as int)]
    } else {
        digits_of(m / 10).push(digit_char((m % 10) as int))
    }
}

/// Decimal rendering of an integer: a `-` before the digits of its
/// magnitude when negative.
pub open spec fn decimal_of(n: int) -> Seq<char> {
    if n < 0 {
        seq!['-'] + digits_of((-n) as nat)
    } else {
        digits_of(n as nat)
    }
}

/// The number a string of decimal digits reads as, most significant first.
pub open spec fn digits_value(s: Seq<char>) -> int
    decreases s.len(),
{
    if s.len() == 0 {
        0
    } else {
        digits_value(s.drop_last()) * 10 + ((s.last() as int) - ('0' as int))
    }
}

proof fn lemma_digit_char_value(d: int)
    requires
        0 <= d < 10,
    ensures
        (digit_char(d) as int) - ('0' as int) == d,
        '0' <= digit_char(d) && digit_char(d) <= '9',
{
}

proof fn lemma_digits_read_back(m: nat)
    ensures
        digits_of(m).len() > 0,
        forall|i: int| 0 <= i < digits_of(m).len() ==> '0' <= #[trigger] digits_of(m)[i] && digits_of(m)[i] <= '9',
        digits_value(digits_of(m)) == m,
        digits_of(m).len() > 1 ==> digits_of(m)[0] != '0',
    decreases m,
{
    if m < 10 {
        lemma_digit_char_value(m as int);
        assert(digits_of(m).drop_last() =~= Seq::<char>::empty());
        assert(digits_value(digits_of(m).drop_last()) == 0);
    } else {
        lemma_digit_char_value((m % 10) as int);
        lemma_digits_read_back(m / 10);
        let p = digits_of(m / 10);
        let d = digits_of(m);
        assert(d == p.push(digit_char((m % 10) as int)));
        assert(d.drop_last() == p);
        assert forall|i: int| 0 <= i < d.len() implies '0' <= #[trigger] d[i] && d[i] <= '9' by {
            if i < p.len() {
                assert(d[i] == p[i]);
            }
        }
        assert(d[0] == p[0]);
        assert(d.last() == digit_char((m % 10) as int));
        assert(digits_value(d) == digits_value(p) * 10 + (m % 10));
        assert((m / 10) * 10 + m % 10 == m);
        if p.len() == 1 {
            assert(p.drop_last() =~= Seq::<char>::empty());
            assert(digits_value(p.drop_last()) == 0);
            assert(p.last() == p[0]);
            assert(digits_value(p) == (p[0] as int) - ('0' as int));
            assert(p[0] != '0');
        }
    }
}

/// The decimal rendering reads back as the number: for `n >= 0` it is a
/// non-empty run of digits, without a leading zero unless it is "0",
/// whose value is `n`; for `n < 0` it is "-" before the rendering of `-n`.
pub proof fn lemma_decimal_reads_back(n: int)
    ensures
        n >= 0 ==> decimal_of(n).len() > 0 && digits_value(decimal_of(n)) == n
            && (forall|i: int| 0 <= i < decimal_of(n).len() ==> '0' <= #[trigger] decimal_of(n)[i] && decimal_of(n)[i] <= '9')
            && (decimal_of(n).len() > 1 ==> decimal_of(n)[0] != '0'),
        n < 0 ==> decimal_of(n)[0] == '-' && decimal_of(n).drop_first() == decimal_of(-n),
{
    if n >= 0 {
        lemma_digits_read_back(n as nat);
    } else {
        assert((seq!['-'] + digits_of((-n) as nat)).drop_first() == digits_of((-n) as nat));
    }
}

fn digit_exec(d: u64) -> (c: char)
    requires
        d < 10,
    ensures
        c == digit_char(d as int),
{
    if d == 0 { '0' }
    else if d == 1 { '1' }
    else if d == 2 { '2' }
    else if d == 3 { '3' }
    else if d == 4 { '4' }
    else if d == 5 { '5' }
    else if d == 6 { '6' }
    else if d == 7 { '7' }
    else if d == 8 { '8' }
    else { '9' }
}

fn push_digits(out: &mut String, m: u64)
    ensures
        final(out)@ == old(out)@ + digits_of(m as nat),
    decreases m,
{
    if m < 10 {
        push_char(out, digit_exec(m));
        assert(digits_of(m as nat) == seq![digit_char(m as int)]);
    } else {
        push_digits(out, m / 10);
        push_char(out, digit_exec(m % 10));
        assert(old(out)@ + digits_of(m as nat) == old(out)@ + digits_of((m / 10) as nat) + seq![
            digit_char((m % 10) as int),
        ]);
    }
}

/// The year as `i64::to_string` writes it.
pub fn decimal(n: i64) -> (r: String)
    ensures
        r@ == decimal_of(n as int),
{
    let mut out = String::new();
    if n < 0 {
        push_char(&mut out, '-');
        let m: u64 = (0i128 - (n as i128)) as u64;
        push_digits(&mut out, m);
    } else {
        push_digits(&mut out, n as u64);
    }
    out
}

/// Whether `pat` occurs in `s` at position `k`.
pub open spec fn occurs_at(s: Seq<char>, pat: Seq<char>, k: int) -> bool {
    0 <= k && k + pat.len() <= s.len() && s.subrange(k, k + pat.len()) == pat
}

/// Whether `pat` occurs anywhere in `s`.
pub open spec fn contains_seq(s: Seq<char>, pat: Seq<char>) -> bool {
    exists|k: int| occurs_at(s, pat, k)
}

/// The chars of `s`, in order.
pub(crate) fn chars_of(s: &str) -> (v: Vec<char>)
    ensures
        v@ == s@,
{
    let mut v: Vec<char> = Vec::new();
    for ch in it: s.chars()
        invariant
            it.seq() == s@,
            v@ == s@.take(it.index() as int),
    {
        proof {
            assert(s@.take(it.index() + 1) == s@.take(it.index() as int).push(ch));
        }
        v.push(ch);
    }
    assert(s@.take(s@.len() as int) == s@);
    v
}

fn occurs_at_exec(s: &Vec<char>, pat: &Vec<char>, k: usize) -> (r: bool)
    requires
        k + pat@.len() <= s@.len(),
    ensures
        r == occurs_at(s@, pat@, k as int),
{
    let mut j: usize = 0;
    while j < pat.len()
        invariant
            j <= pat@.len(),
            k + pat@.len() <= s@.len(),
            s@.len() == s.len(),
            forall|q: int| 0 <= q < j ==> s@[k + q] == pat@[q],
        decreases pat@.len() - j,
    {
        if s[k + j] != pat[j] {
            assert(s@.subrange(k as int, k + pat@.len())[j as int] != pat@[j as int]);
            return false;
        }
        j = j + 1;
    }
    assert(s@.subrange(k as int, k + pat@.len()) =~= pat@);
    true
}

/// `str::contains` for a string pattern.
pub fn contains_text(s: &str, pat: &str) -> (r: bool)
    ensures
        r == contains_seq(s@, pat@),
{
    let sv = chars_of(s);
    let pv = chars_of(pat);
    if pv.len() > sv.len() {
        return false;
    }
    let last = sv.len() - pv.len();
    let mut k: usize = 0;
    loop
        invariant
            k <= last,
            last == sv@.len() - pv@.len(),
            sv@ == s@,
            pv@ == pat@,
            forall|q: int| 0 <= q < k ==> !occurs_at(s@, pat@, q),
        decreases last - k,
    {
        if occurs_at_exec(&sv, &pv, k) {
            return true;
        }
        if k == last {
            assert forall|q: int| !occurs_at(s@, pat@, q) by {
                if 0 <= q < k {
                }
            }
            return false;
        }
        k = k + 1;
    }
}

} // verus!
