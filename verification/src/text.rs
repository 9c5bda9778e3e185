//! Trimming white space and reading a decimal `i64`, as `str::trim` and
//! `<i64 as FromStr>::from_str` do.

use vstd::prelude::*;

verus! {

/// The characters with the Unicode `White_Space` property, those that
/// `char::is_whitespace` accepts.
pub open spec fn is_white(c: char) -> bool {
    ('\u{9}' <= c <= '\u{d}') || c == ' ' || c == '\u{85}' || c == '\u{a0}' || c == '\u{1680}'
        || ('\u{2000}' <= c <= '\u{200a}') || c == '\u{2028}' || c == '\u{2029}' || c == '\u{202f}'
        || c == '\u{205f}' || c == '\u{3000}'
}

/// The characters less their leading white space.
pub open spec fn trim_start(s: Seq<char>) -> Seq<char>
    decreases s.len(),
{
    if s.len() > 0 && is_white(s[0]) {
        trim_start(s.drop_first())
    } else {
        s
    }
}

/// The characters less their trailing white space.
pub open spec fn trim_end(s: Seq<char>) -> Seq<char>
    decreases s.len(),
{
    if s.len() > 0 && is_white(s.last()) {
        trim_end(s.drop_last())
    } else {
        s
    }
}

/// The characters less leading and trailing white space.
pub open spec fn trim(s: Seq<char>) -> Seq<char> {
    trim_end(trim_start(s))
}

pub open spec fn is_digit(c: char) -> bool {
    '0' <= c <= '9'
}

/// The value of a sequence of decimal digits.
pub open spec fn digits_value(d: Seq<char>) -> int
    decreases d.len(),
{
    if d.len() == 0 {
        0
    } else {
        digits_value(d.drop_last()) * 10 + (d.last() as int - '0' as int)
    }
}

/// Whether every character is a decimal digit.
pub open spec fn all_digits(d: Seq<char>) -> bool {
    forall|i: int| 0 <= i < d.len() ==> is_digit(#[trigger] d[i])
}

/// The characters after a leading `+` or `-`, if there is one.
pub open spec fn unsigned_part(s: Seq<char>) -> Seq<char> {
    if s.len() > 0 && (s[0] == '-' || s[0] == '+') {
        s.drop_first()
    } else {
        s
    }
}

/// What `i64::from_str` gives for the characters: an optional `+` or `-`,
/// then one or more decimal digits whose value fits in an `i64`.
pub open spec fn parse_i64(s: Seq<char>) -> Option<i64> {
    let d = unsigned_part(s);
    let v = if s.len() > 0 && s[0] == '-' {
        -digits_value(d)
    } else {
        digits_value(d)
    };
    if s.len() == 0 || d.len() == 0 || !all_digits(d) {
        None
    } else if i64::MIN <= v <= i64::MAX {
        Some(v as i64)
    } else {
        None
    }
}

fn is_white_char(c: char) -> (b: bool)
    ensures
        b == is_white(c),
{
    ('\u{9}' <= c && c <= '\u{d}') || c == ' ' || c == '\u{85}' || c == '\u{a0}' || c == '\u{1680}'
        || ('\u{2000}' <= c && c <= '\u{200a}') || c == '\u{2028}' || c == '\u{2029}' || c
        == '\u{202f}' || c == '\u{205f}' || c == '\u{3000}'
}

/// The characters of a string.
pub fn chars_of(s: &str) -> (r: Vec<char>)
    ensures
        r@ == s@,
{
    let n = s.unicode_len();
    let mut r: Vec<char> = Vec::new();
    for i in 0..n
        invariant
            n == s@.len(),
            r@ == s@.take(i as int),
    {
        r.push(s.get_char(i));
        proof {
            assert(s@.take(i + 1) =~= s@.take(i as int).push(s@[i as int]));
        }
    }
    proof {
        assert(s@.take(n as int) =~= s@);
    }
    r
}

proof fn lemma_trim_start_skip(s: Seq<char>, a: int)
    requires
        0 <= a <= s.len(),
        forall|k: int| 0 <= k < a ==> is_white(#[trigger] s[k]),
    ensures
        trim_start(s) == trim_start(s.skip(a)),
    decreases a,
{
    if a > 0 {
        assert(s.drop_first().skip(a - 1) =~= s.skip(a));
        assert forall|k: int| 0 <= k < a - 1 implies is_white(#[trigger] s.drop_first()[k]) by {
            assert(s.drop_first()[k] == s[k + 1]);
        }
        lemma_trim_start_skip(s.drop_first(), a - 1);
    } else {
        assert(s.skip(0) =~= s);
    }
}

proof fn lemma_trim_end_take(s: Seq<char>, b: int)
    requires
        0 <= b <= s.len(),
        forall|k: int| b <= k < s.len() ==> is_white(#[trigger] s[k]),
    ensures
        trim_end(s) == trim_end(s.take(b)),
    decreases s.len() - b,
{
    if b < s.len() {
        assert(s.drop_last().take(b) =~= s.take(b));
        lemma_trim_end_take(s.drop_last(), b);
    } else {
        assert(s.take(b) =~= s);
    }
}

proof fn lemma_digits_monotone(d: Seq<char>, k: int)
    requires
        0 <= k <= d.len(),
        forall|i: int| 0 <= i < d.len() ==> is_digit(#[trigger] d[i]),
    ensures
        digits_value(d.take(k)) <= digits_value(d),
        0 <= digits_value(d.take(k)),
    decreases d.len() - k,
{
    if k < d.len() {
        lemma_digits_monotone(d.drop_last(), k);
        assert(d.drop_last().take(k) =~= d.take(k));
        assert(is_digit(d.last()));
        assert(0 <= digits_value(d.drop_last()));
    } else {
        assert(d.take(k) =~= d);
        lemma_digits_nonneg(d);
    }
}

proof fn lemma_digits_nonneg(d: Seq<char>)
    requires
        forall|i: int| 0 <= i < d.len() ==> is_digit(#[trigger] d[i]),
    ensures
        0 <= digits_value(d),
    decreases d.len(),
{
    if d.len() > 0 {
        lemma_digits_nonneg(d.drop_last());
        assert(is_digit(d.last()));
    }
}

/// Reads the characters `c[a..b]` as `i64::from_str` does.
fn parse_i64_range(c: &Vec<char>, a: usize, b: usize) -> (r: Option<i64>)
    requires
        a <= b <= c.len(),
    ensures
        r == parse_i64(c@.subrange(a as int, b as int)),
{
    let ghost s = c@.subrange(a as int, b as int);
    if a == b {
        return None;
    }
    let neg = c[a] == '-';
    let first: usize = if c[a] == '-' || c[a] == '+' { a + 1 } else { a };
    let ghost d = c@.subrange(first as int, b as int);
    assert(d =~= unsigned_part(s));
    if first == b {
        return None;
    }
    let mut acc: u128 = 0;
    let mut i: usize = first;
    while i < b
        invariant
            first <= i <= b <= c.len(),
            d == c@.subrange(first as int, b as int),
            s == c@.subrange(a as int, b as int),
            s.len() > 0,
            d == unsigned_part(s),
            neg == (s[0] == '-'),
            d.len() > 0,
            acc == digits_value(d.take(i - first)),
            acc <= 0x8000_0000_0000_0000,
            forall|k: int| 0 <= k < i - first ==> is_digit(#[trigger] d[k]),
        decreases b - i,
    {
        let ch = c[i];
        if !('0' <= ch && ch <= '9') {
            assert(!is_digit(d[i - first]));
            assert(!all_digits(d));
            assert(parse_i64(s) is None);
            return None;
        }
        proof {
            assert(d.take(i - first + 1).drop_last() =~= d.take(i - first));
            assert(d.take(i - first + 1).last() == c@[i as int]);
        }
        acc = acc * 10 + (ch as u128 - '0' as u128);
        if acc > 0x8000_0000_0000_0000 {
            proof {
                assert(acc == digits_value(d.take(i - first + 1)));
                if all_digits(d) {
                    lemma_digits_monotone(d, i - first + 1);
                    assert(digits_value(d) > 0x8000_0000_0000_0000);
                }
                assert(parse_i64(s) is None);
            }
            return None;
        }
        i = i + 1;
    }
    assert(d.take(d.len() as int) =~= d);
    if neg {
        Some((-(acc as i128)) as i64)
    } else if acc <= 0x7fff_ffff_ffff_ffff {
        Some(acc as i64)
    } else {
        None
    }
}

/// Reads a key as `key.trim().parse::<i64>()` does.
pub fn parse_trimmed_i64(key: &str) -> (r: Option<i64>)
    ensures
        r == parse_i64(trim(key@)),
{
    let c = chars_of(key);
    let n = c.len();
    let mut a: usize = 0;
    while a < n && is_white_char(c[a])
        invariant
            a <= n == c.len(),
            forall|k: int| 0 <= k < a ==> is_white(#[trigger] c@[k]),
        decreases n - a,
    {
        a = a + 1;
    }
    proof {
        lemma_trim_start_skip(c@, a as int);
        if a < n {
            assert(trim_start(c@.skip(a as int)) == c@.skip(a as int));
        } else {
            assert(c@.skip(a as int) =~= Seq::<char>::empty());
        }
    }
    let mut b: usize = n;
    while b > a && is_white_char(c[b - 1])
        invariant
            a <= b <= n == c.len(),
            forall|k: int| b <= k < n ==> is_white(#[trigger] c@[k]),
        decreases b - a,
    {
        b = b - 1;
    }
    proof {
        let t = c@.skip(a as int);
        assert forall|k: int| b - a <= k < t.len() implies is_white(#[trigger] t[k]) by {
            assert(t[k] == c@[k + a]);
        }
        lemma_trim_end_take(t, b - a);
        assert(t.take(b - a) =~= c@.subrange(a as int, b as int));
        if b > a {
            assert(t.take(b - a).last() == c@[b - 1]);
        }
    }
    parse_i64_range(&c, a, b)
}

/// The character of a decimal digit.
pub open spec fn digit_char(d: int) -> char {
    if d == 0 {
        '0'
    } else if d == 1 {
        '1'
    } else if d == 2 {
        '2'
    } else if d == 3 {
        '3'
    } else if d == 4 {
        '4'
    } else if d == 5 {
        '5'
    } else if d == 6 {
        '6'
    } else if d == 7 {
        '7'
    } else if d == 8 {
        '8'
    } else {
        '9'
    }
}

/// The decimal digits of a natural number, without leading zeros.
pub open spec fn digits_of(n: nat) -> Seq<char>
    decreases n,
{
    if n < 10 {
        seq![digit_char(n as int)]
    } else {
        digits_of(n / 10).push(digit_char((n % 10) as int))
    }
}

/// An integer in decimal, as `i64::to_string` writes it.
pub open spec fn decimal(n: int) -> Seq<char> {
    if n < 0 {
        seq!['-'] + digits_of((-n) as nat)
    } else {
        digits_of(n as nat)
    }
}

fn digit(d: u64) -> (c: char)
    requires
        d < 10,
    ensures
        c == digit_char(d as int),
{
    if d == 0 {
        '0'
    } else if d == 1 {
        '1'
    } else if d == 2 {
        '2'
    } else if d == 3 {
        '3'
    } else if d == 4 {
        '4'
    } else if d == 5 {
        '5'
    } else if d == 6 {
        '6'
    } else if d == 7 {
        '7'
    } else if d == 8 {
        '8'
    } else {
        '9'
    }
}

fn push_digits(m: u64, out: &mut Vec<char>)
    ensures
        final(out)@ == old(out)@ + digits_of(m as nat),
    decreases m,
{
    if m >= 10 {
        push_digits(m / 10, out);
    }
    out.push(digit(m % 10));
    proof {
        if m >= 10 {
            assert(old(out)@ + digits_of((m / 10) as nat) + seq![digit_char((m % 10) as int)]
                =~= old(out)@ + digits_of(m as nat));
        } else {
            assert(old(out)@.push(digit_char(m as int)) =~= old(out)@ + digits_of(m as nat));
        }
    }
}

/// The characters of `n.to_string()`.
pub fn decimal_chars(n: i64) -> (r: Vec<char>)
    ensures
        r@ == decimal(n as int),
{
    let mut out: Vec<char> = Vec::new();
    if n < 0 {
        out.push('-');
        let m: u64 = (-(n + 1)) as u64 + 1;
        push_digits(m, &mut out);
    } else {
        push_digits(n as u64, &mut out);
        assert(Seq::<char>::empty() + digits_of(n as nat) =~= digits_of(n as nat));
    }
    out
}

/// Whether two character sequences are equal.
pub fn same_chars(a: &Vec<char>, b: &Vec<char>) -> (r: bool)
    ensures
        r == (a@ == b@),
{
    if a.len() != b.len() {
        return false;
    }
    let n = a.len();
    for i in 0..n
        invariant
            n == a.len() == b.len(),
            forall|k: int| 0 <= k < i ==> a@[k] == b@[k],
    {
        if a[i] != b[i] {
            return false;
        }
    }
    assert(a@ =~= b@);
    true
}

proof fn lemma_digit_char(k: int)
    requires
        0 <= k < 10,
    ensures
        digit_char(k) as int - '0' as int == k,
        is_digit(digit_char(k)),
{
}

proof fn lemma_digits_of(m: nat)
    ensures
        digits_of(m).len() >= 1,
        all_digits(digits_of(m)),
        digits_value(digits_of(m)) == m,
        is_digit(digits_of(m)[0]),
        is_digit(digits_of(m).last()),
    decreases m,
{
    lemma_digit_char((m % 10) as int);
    if m < 10 {
        assert(m % 10 == m);
        assert(digits_of(m).drop_last() =~= Seq::<char>::empty());
        assert(digits_value(Seq::<char>::empty()) == 0);
    }
    if m >= 10 {
        lemma_digits_of(m / 10);
        let d = digits_of(m / 10);
        let c = digit_char((m % 10) as int);
        assert(digits_of(m).drop_last() =~= d);
        assert(digits_of(m).last() == c);
        assert(digits_value(digits_of(m)) == (m / 10) * 10 + m % 10);
        assert(digits_of(m)[0] == d[0]);
        assert forall|i: int| 0 <= i < digits_of(m).len() implies is_digit(
            #[trigger] digits_of(m)[i],
        ) by {
            if i < d.len() {
                assert(digits_of(m)[i] == d[i]);
            }
        }
    }
}

/// Writing an `i64` in decimal and reading it back, trimmed, gives it again.
pub proof fn lemma_decimal_roundtrip(n: i64)
    ensures
        parse_i64(trim(decimal(n as int))) == Some(n),
{
    let s = decimal(n as int);
    let m: nat = if n < 0 { (-n) as nat } else { n as nat };
    lemma_digits_of(m);
    let d = digits_of(m);
    if n < 0 {
        assert(s.drop_first() =~= d);
        assert(s.last() == d.last());
    }
    assert(!is_white(s[0]));
    assert(!is_white(s.last()));
    assert(trim_start(s) == s);
    assert(trim_end(s) == s);
    assert(unsigned_part(s) == d);
}

} // verus!
