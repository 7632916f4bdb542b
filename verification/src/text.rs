//! Characters, decimal numerals and the bridges between `String`s and
//! sequences of characters.
use vstd::prelude::*;

verus! {

/// The character of a decimal digit.
pub open spec fn digit_char(d: nat) -> char {
    ((48 + d) as u8) as char
}

/// The decimal numeral of `n`, without leading zeros.
pub open spec fn decimal(n: nat) -> Seq<char>
    decreases n,
{
    if n < 10 {
        seq![digit_char(n)]
    } else {
        decimal(n / 10).push(digit_char(n % 10))
    }
}

/// `s` with a comma inserted before every group of three characters,
/// counting from the right.
pub open spec fn commas(s: Seq<char>) -> Seq<char>
    decreases s.len(),
{
    if s.len() <= 3 {
        s
    } else {
        commas(s.take(s.len() - 3)) + seq![','] + s.skip(s.len() - 3)
    }
}

/// The character of the digit `d`.
pub fn digit_to_char(d: u8) -> (c: char)
    requires
        d < 10,
    ensures
        c == digit_char(d as nat),
{
    (48u8 + d) as char
}

/// The decimal numeral of `n`.
pub fn decimal_chars(n: u128) -> (r: Vec<char>)
    ensures
        r@ == decimal(n as nat),
    decreases n,
{
    if n < 10 {
        let mut r = Vec::new();
        r.push(digit_to_char(n as u8));
        assert(r@ =~= decimal(n as nat));
        r
    } else {
        let mut r = decimal_chars(n / 10);
        r.push(digit_to_char((n % 10) as u8));
        r
    }
}

/// Inserting a character at the front of a grouped numeral.
pub proof fn lemma_commas_front(d: char, x: Seq<char>)
    ensures
        commas(seq![d] + x) == if x.len() > 0 && x.len() % 3 == 0 {
            seq![d, ','] + commas(x)
        } else {
            seq![d] + commas(x)
        },
    decreases x.len(),
{
    let s = seq![d] + x;
    if x.len() < 3 {
        assert(commas(x) == x);
        assert(commas(s) == s);
        if x.len() == 0 {
            assert(s =~= seq![d]);
        } else {
            assert(seq![d] + commas(x) == s);
        }
    } else if x.len() == 3 {
        assert(s.take(1) =~= seq![d]);
        assert(s.skip(1) =~= x);
        assert(commas(s.take(1)) == s.take(1));
        assert(commas(x) == x);
        assert(commas(s) == commas(s.take(1)) + seq![','] + s.skip(1));
        assert(seq![d] + seq![','] + x =~= seq![d, ','] + x);
    } else {
        let xp = x.take(x.len() - 3);
        let tail = x.skip(x.len() - 3);
        lemma_commas_front(d, xp);
        assert(s.take(s.len() - 3) =~= seq![d] + xp);
        assert(s.skip(s.len() - 3) =~= tail);
        assert(commas(s) == commas(seq![d] + xp) + seq![','] + tail);
        assert(commas(x) == commas(xp) + seq![','] + tail);
        assert(xp.len() % 3 == x.len() % 3);
        if x.len() % 3 == 0 {
            assert(commas(s) =~= seq![d, ','] + commas(x));
        } else {
            assert(commas(s) =~= seq![d] + commas(x));
        }
    }
}

/// Format a number with a comma between every group of three digits, like
/// `1,234,567`.
pub fn with_commas(number: u128) -> (r: String)
    ensures
        r@ == commas(decimal(number as nat)),
{
    if number == 0 {
        let mut r = String::new();
        push_char(&mut r, '0');
        proof {
            assert(r@ =~= seq!['0']);
            assert(decimal(0) =~= seq!['0']);
        }
        return r;
    }
    let mut ret: Vec<char> = Vec::new();
    let mut num = number;
    let mut digit_count: u32 = 0;
    let ghost mut suffix: Seq<char> = Seq::empty();
    while num > 0
        invariant
            num > 0 ==> decimal(number as nat) == decimal(num as nat) + suffix,
            num == 0 ==> decimal(number as nat) == suffix,
            ret@ == commas(suffix),
            digit_count == suffix.len(),
            digit_count <= 40,
        decreases num,
    {
        let d = (num % 10) as u8;
        let c = digit_to_char(d);
        proof {
            lemma_decimal_len(num as nat);
            lemma_commas_front(c, suffix);
            let rest = num / 10;
            if rest > 0 {
                assert(decimal(num as nat) == decimal(rest as nat).push(c));
                assert(decimal(rest as nat).push(c) + suffix =~= decimal(rest as nat) + (seq![c] + suffix));
            } else {
                assert(decimal(num as nat) =~= seq![c]);
            }
            lemma_decimal_len(number as nat);
        }
        if digit_count > 0 && digit_count % 3 == 0 {
            ret.insert(0, ',');
        }
        ret.insert(0, c);
        proof {
            assert(ret@ =~= commas(seq![c] + suffix));
            suffix = seq![c] + suffix;
        }
        num = num / 10;
        digit_count = digit_count + 1;
    }
    string_from_chars(&ret)
}

/// A numeral has at most 39 digits for a `u128`.
pub proof fn lemma_decimal_len(n: nat)
    ensures
        decimal(n).len() == 1 + digits_bound(n),
        decimal(n).len() >= 1,
        n <= u128::MAX ==> decimal(n).len() <= 39,
        n < 10 ==> decimal(n).len() == 1,
        10 <= n < 100 ==> decimal(n).len() == 2,
        100 <= n < 1000 ==> decimal(n).len() == 3,
    decreases n,
{
    if n >= 10 {
        lemma_decimal_len(n / 10);
    }
    if n <= u128::MAX {
        reveal_with_fuel(pow10, 39);
        assert(pow10(38) == 100000000000000000000000000000000000000);
        lemma_digits_bound_pow(n, 38);
    }
}

/// The number of digits of `n` after the first.
pub open spec fn digits_bound(n: nat) -> nat
    decreases n,
{
    if n < 10 {
        0
    } else {
        1 + digits_bound(n / 10)
    }
}

/// Ten to the power `k`.
pub open spec fn pow10(k: nat) -> nat
    decreases k,
{
    if k == 0 {
        1
    } else {
        10 * pow10((k - 1) as nat)
    }
}

proof fn lemma_digits_bound_pow(n: nat, k: nat)
    requires
        n < 10 * pow10(k),
    ensures
        digits_bound(n) <= k,
    decreases k,
{
    if n >= 10 && k > 0 {
        lemma_digits_bound_pow(n / 10, (k - 1) as nat);
    }
}

/// Append a character to a `String`.
#[verifier::external_body]
pub(crate) fn push_char(s: &mut String, c: char)
    ensures
        final(s)@ == old(s)@.push(c),
{
    s.push(c);
}

/// A `String` holding the given characters.
pub fn string_from_chars(v: &Vec<char>) -> (r: String)
    ensures
        r@ == v@,
{
    let mut r = String::new();
    let mut i: usize = 0;
    while i < v.len()
        invariant
            0 <= i <= v.len(),
            r@ == v@.take(i as int),
        decreases v.len() - i,
    {
        push_char(&mut r, v[i]);
        assert(v@.take(i + 1) =~= v@.take(i as int).push(v@[i as int]));
        i = i + 1;
    }
    assert(v@.take(v.len() as int) =~= v@);
    r
}

/// The characters of a string.
pub fn chars_of(s: &str) -> (r: Vec<char>)
    ensures
        r@ == s@,
{
    let mut r: Vec<char> = Vec::new();
    for c in it: s.chars()
        invariant
            r@ == it.seq().take(it.index() as int),
    {
        r.push(c);
    }
    r
}

/// Where the leading spaces of `s` from `i` on end.
pub open spec fn first_nonspace(s: Seq<char>, i: int) -> int
    decreases s.len() - i,
{
    if 0 <= i < s.len() && s[i] == ' ' {
        first_nonspace(s, i + 1)
    } else {
        i
    }
}

/// Where the trailing spaces of `s[..j]` start.
pub open spec fn last_nonspace_end(s: Seq<char>, j: int) -> int
    decreases j,
{
    if 0 < j <= s.len() && s[j - 1] == ' ' {
        last_nonspace_end(s, j - 1)
    } else {
        j
    }
}

/// `s` without its leading and trailing spaces.
pub open spec fn trim_spaces(s: Seq<char>) -> Seq<char> {
    let a = first_nonspace(s, 0);
    let b = last_nonspace_end(s, s.len() as int);
    if a < b {
        s.subrange(a, b)
    } else {
        Seq::empty()
    }
}

/// The text of a timestamp from its parts: the part before the day of the
/// month, the day (which the clock pads with spaces), and the rest.
pub fn timestamp_text(head: &str, day: &str, tail: &str) -> (r: String)
    ensures
        r@ == head@ + trim_spaces(day@) + tail@,
{
    let h = chars_of(head);
    let d = chars_of(day);
    let t = chars_of(tail);
    let ghost ds = d@;
    let n = d.len();
    let mut a: usize = 0;
    while a < n && d[a] == ' '
        invariant
            ds == d@,
            n == ds.len(),
            a <= n,
            first_nonspace(ds, a as int) == first_nonspace(ds, 0),
        decreases n - a,
    {
        a = a + 1;
    }
    let mut b: usize = n;
    while b > 0 && d[b - 1] == ' '
        invariant
            ds == d@,
            n == ds.len(),
            b <= n,
            last_nonspace_end(ds, b as int) == last_nonspace_end(ds, n as int),
        decreases b,
    {
        b = b - 1;
    }
    let mut out: Vec<char> = Vec::new();
    let mut i: usize = 0;
    while i < h.len()
        invariant
            i <= h.len(),
            out@ == h@.take(i as int),
        decreases h.len() - i,
    {
        out.push(h[i]);
        assert(h@.take(i + 1) =~= h@.take(i as int).push(h@[i as int]));
        i = i + 1;
    }
    assert(h@.take(h.len() as int) =~= h@);
    let ghost mid: Seq<char> = if a < b { ds.subrange(a as int, b as int) } else { Seq::empty() };
    let mut k: usize = a;
    while k < b
        invariant
            ds == d@,
            n == ds.len(),
            a <= k,
            a < b ==> k <= b,
            a >= b ==> k == a,
            a <= n,
            b <= n,
            out@ == h@ + ds.subrange(a as int, k as int),
        decreases b - k,
    {
        out.push(d[k]);
        assert(ds.subrange(a as int, k + 1) =~= ds.subrange(a as int, k as int).push(ds[k as int]));
        k = k + 1;
    }
    if a < b {
        assert(out@ == h@ + mid);
    } else {
        assert(ds.subrange(a as int, k as int) =~= Seq::<char>::empty());
        assert(out@ =~= h@ + mid);
    }
    let ghost base = out@;
    let mut j: usize = 0;
    while j < t.len()
        invariant
            j <= t.len(),
            out@ == base + t@.take(j as int),
        decreases t.len() - j,
    {
        out.push(t[j]);
        assert(t@.take(j + 1) =~= t@.take(j as int).push(t@[j as int]));
        assert(base + t@.take(j + 1) =~= (base + t@.take(j as int)).push(t@[j as int]));
        j = j + 1;
    }
    assert(t@.take(t.len() as int) =~= t@);
    assert(base + t@.take(t.len() as int) =~= base + t@);
    string_from_chars(&out)
}

} // verus!
