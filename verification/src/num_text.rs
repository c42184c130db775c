//! Decimal text for integers and durations.
//!
//! Result files store each duration as a decimal number of seconds.  A
//! duration of `n` nanoseconds is written as the integer part `n / 10^9`, a
//! dot, and the fraction `n % 10^9` padded to nine digits; reading accepts
//! one to nine fraction digits and is the exact inverse.

use vstd::arithmetic::mul::lemma_mul_inequality;
use vstd::prelude::*;
use vstd::string::StringExecFns;

use crate::statistics::MAX_DURATION_NANOS;

verus! {

/// The character for one decimal digit value.
pub open spec fn digit_char(d: int) -> char {
    if d == 0 {
        '0'
    } else if d == 1 {
        '1'
    } else if d == 2 {
        '2'
    } else if d == 3 {
        '3'
    } else if d == 4 {
        '4'
    } else if d == 5 {
        '5'
    } else if d == 6 {
        '6'
    } else if d == 7 {
        '7'
    } else if d == 8 {
        '8'
    } else {
        '9'
    }
}

/// Whether `c` is a decimal digit.
pub open spec fn is_digit(c: char) -> bool {
    '0' <= c && c <= '9'
}

/// The value of one digit character.
pub open spec fn digit_val(c: char) -> int {
    (c as u32) - ('0' as u32)
}

/// Every character of `s` is a decimal digit.
pub open spec fn all_digits(s: Seq<char>) -> bool {
    forall|i: int| 0 <= i < s.len() ==> is_digit(#[trigger] s[i])
}

/// The number a digit string denotes, most significant digit first.
pub open spec fn digits_val(s: Seq<char>) -> int
    decreases s.len(),
{
    if s.len() == 0 {
        0
    } else {
        digits_val(s.drop_last()) * 10 + digit_val(s.last())
    }
}

/// Ten to the `k`.
pub open spec fn pow10(k: nat) -> int
    decreases k,
{
    if k == 0 {
        1
    } else {
        10 * pow10((k - 1) as nat)
    }
}

/// The digits of `n` without leading zeros; empty for zero.
pub open spec fn spec_digits(n: int) -> Seq<char>
    decreases n,
{
    if n <= 0 {
        Seq::empty()
    } else {
        spec_digits(n / 10).push(digit_char(n % 10))
    }
}

/// The decimal text of a nonnegative number; `0` is written as one digit.
pub open spec fn spec_u64_str(n: int) -> Seq<char> {
    if n == 0 {
        seq!['0']
    } else {
        spec_digits(n)
    }
}

/// The decimal text of a signed number.
pub open spec fn spec_i64_str(n: int) -> Seq<char> {
    if n < 0 {
        seq!['-'] + spec_u64_str(-n)
    } else {
        spec_u64_str(n)
    }
}

/// Exactly `k` digits denoting `v mod 10^k`, zero-padded on the left.
pub open spec fn padded_digits(v: int, k: nat) -> Seq<char>
    decreases k,
{
    if k == 0 {
        Seq::empty()
    } else {
        padded_digits(v / 10, (k - 1) as nat).push(digit_char(v % 10))
    }
}

/// How a duration of `n` nanoseconds is written: seconds, a dot, and nine
/// fraction digits.
pub open spec fn spec_format_nanos(n: int) -> Seq<char> {
    spec_u64_str(n / 1000000000) + seq!['.'] + padded_digits(n % 1000000000, 9)
}

/// The position of the first dot, if any.
pub open spec fn find_dot(s: Seq<char>) -> Option<int>
    decreases s.len(),
{
    if s.len() == 0 {
        None
    } else if s[0] == '.' {
        Some(0)
    } else {
        match find_dot(s.skip(1)) {
            Some(i) => Some(i + 1),
            None => None,
        }
    }
}

/// What duration a piece of text denotes: digits, a dot, and one to nine
/// fraction digits, no larger than `MAX_DURATION_NANOS` nanoseconds.
pub open spec fn spec_parse_nanos(s: Seq<char>) -> Option<u64> {
    match find_dot(s) {
        None => None,
        Some(i) => {
            let ip = s.take(i);
            let fp = s.skip(i + 1);
            if ip.len() >= 1 && all_digits(ip) && 1 <= fp.len() <= 9 && all_digits(fp) {
                let v = digits_val(ip) * 1000000000 + digits_val(fp) * pow10(
                    (9 - fp.len()) as nat,
                );
                if v <= MAX_DURATION_NANOS {
                    Some(v as u64)
                } else {
                    None
                }
            } else {
                None
            }
        },
    }
}

/// A digit string denotes a nonnegative number.
pub proof fn lemma_digits_val_nonneg(s: Seq<char>)
    requires
        all_digits(s),
    ensures
        digits_val(s) >= 0,
    decreases s.len(),
{
    if s.len() > 0 {
        assert(forall|i: int|
            0 <= i < s.drop_last().len() ==> #[trigger] s.drop_last()[i] == s[i]);
        lemma_digits_val_nonneg(s.drop_last());
        assert(is_digit(s.last()));
    }
}

/// A string of `k` digits denotes less than `10^k`.
pub proof fn lemma_digits_val_upper(s: Seq<char>)
    requires
        all_digits(s),
    ensures
        digits_val(s) < pow10(s.len()),
    decreases s.len(),
{
    if s.len() > 0 {
        assert(forall|i: int|
            0 <= i < s.drop_last().len() ==> #[trigger] s.drop_last()[i] == s[i]);
        lemma_digits_val_upper(s.drop_last());
        assert(is_digit(s.last()));
        assert(digit_val(s.last()) <= 9);
        assert(pow10(s.len()) == 10 * pow10((s.len() - 1) as nat));
    }
}

/// A digit string that starts with a nonzero digit denotes at least
/// `10^(k-1)`.
pub proof fn lemma_digits_val_lower(s: Seq<char>)
    requires
        all_digits(s),
        s.len() >= 1,
        digit_val(s[0]) >= 1,
    ensures
        digits_val(s) >= pow10((s.len() - 1) as nat),
    decreases s.len(),
{
    if s.len() == 1 {
        assert(digits_val(s) == digits_val(s.drop_last()) * 10 + digit_val(s.last()));
        assert(s.drop_last().len() == 0);
    } else {
        assert(forall|i: int|
            0 <= i < s.drop_last().len() ==> #[trigger] s.drop_last()[i] == s[i]);
        lemma_digits_val_lower(s.drop_last());
        assert(is_digit(s.last()));
        assert(pow10((s.len() - 1) as nat) == 10 * pow10((s.len() - 2) as nat));
    }
}

/// The one-character string for a digit value.
fn digit_str(d: u64) -> (s: &'static str)
    requires
        d < 10,
    ensures
        s@ == seq![digit_char(d as int)],
{
    proof {
        reveal_strlit("0");
        reveal_strlit("1");
        reveal_strlit("2");
        reveal_strlit("3");
        reveal_strlit("4");
        reveal_strlit("5");
        reveal_strlit("6");
        reveal_strlit("7");
        reveal_strlit("8");
        reveal_strlit("9");
    }
    match d {
        0 => "0",
        1 => "1",
        2 => "2",
        3 => "3",
        4 => "4",
        5 => "5",
        6 => "6",
        7 => "7",
        8 => "8",
        _ => "9",
    }
}

/// Append the digits of `n`, most significant first; nothing for zero.
fn push_digits(n: u64, s: &mut String)
    ensures
        final(s)@ == old(s)@ + spec_digits(n as int),
    decreases n,
{
    if n == 0 {
        proof {
            assert(old(s)@ + spec_digits(0) =~= old(s)@);
        }
        return ;
    }
    push_digits(n / 10, s);
    let d = digit_str(n % 10);
    s.append(d);
    proof {
        assert(old(s)@ + spec_digits(n as int) =~= (old(s)@ + spec_digits(n as int / 10))
            + seq![digit_char(n as int % 10)]);
    }
}

/// The decimal text of `n`.
pub fn u64_to_string(n: u64) -> (s: String)
    ensures
        s@ == spec_u64_str(n as int),
{
    if n == 0 {
        let s = String::from_str("0");
        proof {
            reveal_strlit("0");
            assert(s@ =~= seq!['0']);
        }
        s
    } else {
        let mut s = String::new();
        push_digits(n, &mut s);
        proof {
            assert(s@ =~= spec_digits(n as int));
        }
        s
    }
}

/// The decimal text of `n`, with a leading minus sign when negative.
pub fn i64_to_string(n: i64) -> (s: String)
    ensures
        s@ == spec_i64_str(n as int),
{
    if n >= 0 {
        u64_to_string(n as u64)
    } else {
        let mag: u64 = (-(n as i128)) as u64;
        let mut s = String::from_str("-");
        push_digits(mag, &mut s);
        proof {
            reveal_strlit("-");
            assert(mag as int == -(n as int));
            assert(s@ =~= seq!['-'] + spec_u64_str(-(n as int)));
        }
        s
    }
}

/// Append exactly `k` digits of `v mod 10^k`, zero-padded.
fn push_padded(v: u64, k: u64, s: &mut String)
    ensures
        final(s)@ == old(s)@ + padded_digits(v as int, k as nat),
    decreases k,
{
    if k == 0 {
        proof {
            assert(old(s)@ + padded_digits(v as int, 0) =~= old(s)@);
        }
        return ;
    }
    push_padded(v / 10, k - 1, s);
    let d = digit_str(v % 10);
    s.append(d);
    proof {
        assert(old(s)@ + padded_digits(v as int, k as nat) =~= (old(s)@ + padded_digits(
            v as int / 10,
            (k - 1) as nat,
        )) + seq![digit_char(v as int % 10)]);
    }
}

/// Write a duration of `n` nanoseconds as decimal seconds: the whole
/// seconds, a dot, and nine fraction digits.
pub fn format_nanos(n: u64) -> (s: String)
    ensures
        s@ == spec_format_nanos(n as int),
{
    let mut s = u64_to_string(n / 1000000000);
    s.append(".");
    push_padded(n % 1000000000, 9, &mut s);
    proof {
        reveal_strlit(".");
        assert(s@ =~= spec_u64_str(n as int / 1000000000) + seq!['.'] + padded_digits(
            n as int % 1000000000,
            9,
        ));
    }
    s
}

/// A leading zero does not change a digit string's value.
pub proof fn lemma_leading_zero(s: Seq<char>)
    requires
        s.len() >= 1,
        s[0] == '0',
    ensures
        digits_val(s) == digits_val(s.skip(1)),
    decreases s.len(),
{
    if s.len() == 1 {
        assert(s.drop_last().len() == 0);
        assert(digits_val(s.drop_last()) == 0);
        assert(s.last() == '0');
        assert(digits_val(s) == digit_val('0'));
        assert(s.skip(1).len() == 0);
        assert(digits_val(s.skip(1)) == 0);
    } else {
        lemma_leading_zero(s.drop_last());
        assert(s.skip(1).drop_last() =~= s.drop_last().skip(1));
        assert(s.skip(1).last() == s.last());
        assert(digits_val(s.skip(1)) == digits_val(s.skip(1).drop_last()) * 10 + digit_val(
            s.skip(1).last(),
        ));
    }
}

/// Stripping leading zeros does not change a digit string's value.
proof fn lemma_strip_zeros(s: Seq<char>, k: int)
    requires
        0 <= k <= s.len(),
        forall|j: int| 0 <= j < k ==> s[j] == '0',
    ensures
        digits_val(s.skip(k)) == digits_val(s),
    decreases k,
{
    if k == 0 {
        assert(s.skip(0) =~= s);
    } else {
        lemma_leading_zero(s);
        assert(forall|j: int| 0 <= j < s.skip(1).len() ==> #[trigger] s.skip(1)[j] == s[j + 1]);
        lemma_strip_zeros(s.skip(1), k - 1);
        assert(s.skip(1).skip(k - 1) =~= s.skip(k));
        assert(digits_val(s.skip(k)) == digits_val(s.skip(1).skip(k - 1)));
    }
}

/// Where the first dot of a string stands.
proof fn lemma_find_dot_at(s: Seq<char>, i: int)
    requires
        0 <= i < s.len(),
        s[i] == '.',
        forall|j: int| 0 <= j < i ==> s[j] != '.',
    ensures
        find_dot(s) == Some(i),
    decreases i,
{
    if i > 0 {
        assert(forall|j: int| 0 <= j < s.skip(1).len() ==> #[trigger] s.skip(1)[j] == s[j + 1]);
        lemma_find_dot_at(s.skip(1), i - 1);
    }
}

/// A string without a dot has no first dot.
proof fn lemma_find_dot_none(s: Seq<char>)
    requires
        forall|j: int| 0 <= j < s.len() ==> s[j] != '.',
    ensures
        find_dot(s) is None,
    decreases s.len(),
{
    if s.len() > 0 {
        assert(forall|j: int| 0 <= j < s.skip(1).len() ==> #[trigger] s.skip(1)[j] == s[j + 1]);
        lemma_find_dot_none(s.skip(1));
    }
}

/// The digits of a nonnegative number are digits and denote the number.
proof fn lemma_spec_digits_ok(m: int)
    requires
        m >= 0,
    ensures
        all_digits(spec_digits(m)),
        digits_val(spec_digits(m)) == m,
        m >= 1 ==> spec_digits(m).len() >= 1,
    decreases m,
{
    if m > 0 {
        lemma_spec_digits_ok(m / 10);
        let t = spec_digits(m / 10);
        let c = digit_char(m % 10);
        assert(is_digit(c));
        assert(digit_val(c) == m % 10);
        assert(spec_digits(m) == t.push(c));
        assert(t.push(c).drop_last() =~= t);
        assert(t.push(c).last() == c);
        assert forall|i: int| 0 <= i < t.push(c).len() implies is_digit(#[trigger] t.push(c)[i]) by {
            if i < t.len() {
                assert(t.push(c)[i] == t[i]);
            }
        }
    }
}

/// The decimal text of a nonnegative number denotes the number.
proof fn lemma_u64_str_ok(m: int)
    requires
        m >= 0,
    ensures
        all_digits(spec_u64_str(m)),
        digits_val(spec_u64_str(m)) == m,
        spec_u64_str(m).len() >= 1,
    decreases m,
{
    lemma_spec_digits_ok(m);
    if m == 0 {
        let s = seq!['0'];
        assert(s.drop_last() =~= Seq::<char>::empty());
        assert(digits_val(s) == digits_val(s.drop_last()) * 10 + digit_val(s.last()));
    }
}

/// Zero-padded digits are digits, have the asked-for length, and denote the
/// number, provided it fits.
proof fn lemma_padded_ok(v: int, k: nat)
    requires
        0 <= v < pow10(k),
    ensures
        all_digits(padded_digits(v, k)),
        padded_digits(v, k).len() == k,
        digits_val(padded_digits(v, k)) == v,
    decreases k,
{
    if k > 0 {
        assert(pow10(k) == 10 * pow10((k - 1) as nat));
        assert(v / 10 < pow10((k - 1) as nat)) by (nonlinear_arith)
            requires 0 <= v < 10 * pow10((k - 1) as nat);
        lemma_padded_ok(v / 10, (k - 1) as nat);
        let t = padded_digits(v / 10, (k - 1) as nat);
        let c = digit_char(v % 10);
        assert(is_digit(c));
        assert(digit_val(c) == v % 10);
        assert(padded_digits(v, k) == t.push(c));
        assert(t.push(c).drop_last() =~= t);
        assert(t.push(c).last() == c);
        assert forall|i: int| 0 <= i < t.push(c).len() implies is_digit(#[trigger] t.push(c)[i]) by {
            if i < t.len() {
                assert(t.push(c)[i] == t[i]);
            }
        }
    }
}

/// The first dot of a digit string, a dot, and a tail is the written dot.
proof fn lemma_find_dot_concat(a: Seq<char>, b: Seq<char>)
    requires
        all_digits(a),
    ensures
        find_dot(a + seq!['.'] + b) == Some(a.len() as int),
{
    let s = a + seq!['.'] + b;
    assert(s[a.len() as int] == '.');
    assert forall|j: int| 0 <= j < a.len() implies s[j] != '.' by {
        assert(s[j] == a[j]);
        assert(is_digit(a[j]));
    }
    lemma_find_dot_at(s, a.len() as int);
}

/// Reading back a written duration yields the duration itself.
pub proof fn lemma_nanos_round_trip(n: u64)
    requires
        n <= MAX_DURATION_NANOS,
    ensures
        spec_parse_nanos(spec_format_nanos(n as int)) == Some(n),
{
    let ip = spec_u64_str(n as int / 1000000000);
    let fp = padded_digits(n as int % 1000000000, 9);
    let s = ip + seq!['.'] + fp;
    assert(spec_format_nanos(n as int) == s);
    lemma_u64_str_ok(n as int / 1000000000);
    reveal_with_fuel(pow10, 11);
    lemma_padded_ok(n as int % 1000000000, 9);
    lemma_find_dot_concat(ip, fp);
    let i = ip.len() as int;
    assert(s.take(i) =~= ip);
    assert(s.skip(i + 1) =~= fp);
    assert(digits_val(ip) == n as int / 1000000000);
    assert(fp.len() == 9);
    assert(digits_val(fp) == n as int % 1000000000);
    assert(pow10((9 - fp.len()) as nat) == 1);
    vstd::arithmetic::div_mod::lemma_fundamental_div_mod(n as int, 1000000000);
    assert(digits_val(ip) * 1000000000 + digits_val(fp) * pow10((9 - fp.len()) as nat) == n);
}

/// The digit value of a character, if it is a digit.
fn char_digit(c: char) -> (r: Option<u64>)
    ensures
        r is Some <==> is_digit(c),
        r is Some ==> r.unwrap() as int == digit_val(c),
{
    let u = c as u32;
    if 48 <= u && u <= 57 {
        proof {
            assert('0' <= c && c <= '9');
        }
        Some((u - 48) as u64)
    } else {
        proof {
            assert(!('0' <= c && c <= '9'));
        }
        None
    }
}

/// Ten to the `k`, for small `k`.
fn pow10_u64(k: u64) -> (r: u64)
    requires
        k <= 9,
    ensures
        r as int == pow10(k as nat),
{
    proof {
        reveal_with_fuel(pow10, 11);
    }
    match k {
        0 => 1,
        1 => 10,
        2 => 100,
        3 => 1000,
        4 => 10000,
        5 => 100000,
        6 => 1000000,
        7 => 10000000,
        8 => 100000000,
        _ => 1000000000,
    }
}

/// Read a duration written as decimal seconds: digits, a dot, and one to
/// nine fraction digits.  Yields nothing for any other shape, and for any
/// value above `MAX_DURATION_NANOS` nanoseconds.
pub fn parse_nanos(s: &str) -> (r: Option<u64>)
    ensures
        r == spec_parse_nanos(s@),
{
    let len = s.unicode_len();
    // find the first dot
    let mut dot: usize = 0;
    let mut found = false;
    while dot < len && !found
        invariant
            len == s@.len(),
            dot <= len,
            !found ==> forall|j: int| 0 <= j < dot ==> s@[j] != '.',
            found ==> dot < len && s@[dot as int] == '.' && forall|j: int|
                0 <= j < dot ==> s@[j] != '.',
        decreases len - dot + if found { 0int } else { 1int },
    {
        if s.get_char(dot) == '.' {
            found = true;
        } else {
            dot = dot + 1;
        }
    }
    if !found {
        proof {
            lemma_find_dot_none(s@);
        }
        return None;
    }
    proof {
        lemma_find_dot_at(s@, dot as int);
    }
    let ghost ip = s@.take(dot as int);
    let ghost fp = s@.skip(dot as int + 1);
    if dot < 1 {
        return None;
    }
    let frac_len = len - dot - 1;
    if frac_len < 1 || frac_len > 9 {
        return None;
    }
    // every character around the dot must be a digit
    let mut j: usize = 0;
    while j < dot
        invariant
            len == s@.len(),
            dot < len,
            j <= dot,
            ip == s@.take(dot as int),
            find_dot(s@) == Some(dot as int),
            forall|q: int| 0 <= q < j ==> is_digit(#[trigger] ip[q]),
        decreases dot - j,
    {
        if char_digit(s.get_char(j)).is_none() {
            proof {
                assert(ip[j as int] == s@[j as int]);
                assert(!is_digit(ip[j as int]));
                assert(!all_digits(ip));
            }
            return None;
        }
        proof {
            assert(ip[j as int] == s@[j as int]);
        }
        j = j + 1;
    }
    j = 0;
    while j < frac_len
        invariant
            len == s@.len(),
            dot < len,
            frac_len == len - dot - 1,
            j <= frac_len,
            fp == s@.skip(dot as int + 1),
            find_dot(s@) == Some(dot as int),
            forall|q: int| 0 <= q < j ==> is_digit(#[trigger] fp[q]),
        decreases frac_len - j,
    {
        if char_digit(s.get_char(dot + 1 + j)).is_none() {
            proof {
                assert(fp[j as int] == s@[dot + 1 + j]);
                assert(!is_digit(fp[j as int]));
                assert(!all_digits(fp));
            }
            return None;
        }
        proof {
            assert(fp[j as int] == s@[dot + 1 + j]);
        }
        j = j + 1;
    }
    proof {
        assert(all_digits(ip));
        assert(all_digits(fp));
        assert(fp.len() == frac_len);
    }
    // strip leading zeros of the integer part
    let mut z: usize = 0;
    while z < dot && s.get_char(z) == '0'
        invariant
            len == s@.len(),
            dot < len,
            z <= dot,
            ip == s@.take(dot as int),
            forall|q: int| 0 <= q < z ==> ip[q] == '0',
        decreases dot - z,
    {
        proof {
            assert(ip[z as int] == s@[z as int]);
        }
        z = z + 1;
    }
    let ghost st = ip.skip(z as int);
    proof {
        assert(forall|q: int| 0 <= q < st.len() ==> #[trigger] st[q] == ip[q + z]);
        lemma_strip_zeros(ip, z as int);
        lemma_digits_val_nonneg(fp);
        lemma_digits_val_upper(fp);
        reveal_with_fuel(pow10, 11);
    }
    if dot - z > 7 {
        // at least eight significant second digits: over thirteen days
        proof {
            assert(st.len() >= 8);
            assert(is_digit(st[0]) && st[0] != '0');
            assert(digit_val(st[0]) >= 1);
            lemma_digits_val_lower(st);
            assert(pow10((st.len() - 1) as nat) >= pow10(7)) by {
                lemma_pow10_mono((7) as nat, (st.len() - 1) as nat);
            }
            assert(digits_val(ip) >= 10000000);
            lemma_mul_inequality(10000000, digits_val(ip), 1000000000);
            assert(digits_val(fp) * pow10((9 - fp.len()) as nat) >= 0) by {
                vstd::arithmetic::mul::lemma_mul_nonnegative(
                    digits_val(fp),
                    pow10((9 - fp.len()) as nat),
                );
            }
            assert(digits_val(ip) * 1000000000 + digits_val(fp) * pow10((9 - fp.len()) as nat)
                > MAX_DURATION_NANOS);
        }
        return None;
    }
    // integer part value, at most seven significant digits
    let mut ipv: u64 = 0;
    j = z;
    while j < dot
        invariant
            len == s@.len(),
            dot < len,
            z <= j <= dot,
            dot - z <= 7,
            ip == s@.take(dot as int),
            all_digits(ip),
            st == ip.skip(z as int),
            ipv as int == digits_val(st.take(j - z as int)),
            (ipv as int) < pow10((j - z) as nat),
        decreases dot - j,
    {
        let c = s.get_char(j);
        proof {
            assert(ip[j as int] == s@[j as int]);
            assert(st[j - z] == ip[j as int]);
            assert(st.take(j - z as int + 1).drop_last() =~= st.take(j - z as int));
            assert(st.take(j - z as int + 1).last() == st[j - z]);
            reveal_with_fuel(pow10, 11);
            lemma_pow10_mono(((j - z) + 1) as nat, 7nat);
        }
        let d = match char_digit(c) {
            Some(d) => d,
            None => {
                proof {
                    assert(is_digit(ip[j as int]));
                }
                return None;
            },
        };
        ipv = ipv * 10 + d;
        j = j + 1;
    }
    proof {
        assert(st.take(dot - z as int) =~= st);
        reveal_with_fuel(pow10, 11);
        lemma_pow10_mono((dot - z) as nat, 7nat);
        assert(ipv as int == digits_val(ip));
    }
    // fraction value
    let mut fpv: u64 = 0;
    j = 0;
    while j < frac_len
        invariant
            len == s@.len(),
            dot < len,
            frac_len == len - dot - 1,
            frac_len <= 9,
            j <= frac_len,
            fp == s@.skip(dot as int + 1),
            all_digits(fp),
            fp.len() == frac_len,
            fpv as int == digits_val(fp.take(j as int)),
            (fpv as int) < pow10(j as nat),
        decreases frac_len - j,
    {
        let c = s.get_char(dot + 1 + j);
        proof {
            assert(fp[j as int] == s@[dot + 1 + j]);
            assert(fp.take(j as int + 1).drop_last() =~= fp.take(j as int));
            assert(fp.take(j as int + 1).last() == fp[j as int]);
            reveal_with_fuel(pow10, 11);
            lemma_pow10_mono((j + 1) as nat, 9nat);
        }
        let d = match char_digit(c) {
            Some(d) => d,
            None => {
                proof {
                    assert(is_digit(fp[j as int]));
                }
                return None;
            },
        };
        fpv = fpv * 10 + d;
        j = j + 1;
    }
    proof {
        assert(fp.take(frac_len as int) =~= fp);
        reveal_with_fuel(pow10, 11);
        lemma_pow10_mono(frac_len as nat, 9nat);
    }
    let scale = pow10_u64(9 - frac_len as u64);
    proof {
        reveal_with_fuel(pow10, 11);
        lemma_mul_inequality(ipv as int, 10000000, 1000000000);
        vstd::arithmetic::mul::lemma_mul_upper_bound(
            fpv as int,
            1000000000,
            scale as int,
            1000000000,
        );
        vstd::arithmetic::mul::lemma_mul_nonnegative(fpv as int, scale as int);
    }
    let v: u64 = ipv * 1000000000 + fpv * scale;
    if v > MAX_DURATION_NANOS {
        None
    } else {
        Some(v)
    }
}

/// A parsed duration is within the machine bound.
pub proof fn lemma_parse_nanos_bound(s: Seq<char>)
    ensures
        spec_parse_nanos(s) matches Some(v) ==> v <= MAX_DURATION_NANOS,
{
    if spec_parse_nanos(s) is Some {
        let i = find_dot(s)->Some_0;
        let ip = s.take(i);
        let fp = s.skip(i + 1);
        lemma_digits_val_nonneg(ip);
        lemma_digits_val_nonneg(fp);
        lemma_pow10_mono(0, (9 - fp.len()) as nat);
        vstd::arithmetic::mul::lemma_mul_nonnegative(digits_val(ip), 1000000000);
        vstd::arithmetic::mul::lemma_mul_nonnegative(
            digits_val(fp),
            pow10((9 - fp.len()) as nat),
        );
    }
}

/// Ten to the power is monotone.
proof fn lemma_pow10_mono(a: nat, b: nat)
    requires
        a <= b,
    ensures
        pow10(a) <= pow10(b),
        pow10(a) >= 1,
    decreases b,
{
    if b > 0 {
        if a == b {
            lemma_pow10_mono((b - 1) as nat, (b - 1) as nat);
        } else {
            lemma_pow10_mono(a, (b - 1) as nat);
        }
        assert(pow10(b) == 10 * pow10((b - 1) as nat));
    }
}

} // verus!
