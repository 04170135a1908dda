use vstd::prelude::*;
use crate::text::{decimal, digit_char, push_decimal, string_from_chars};

verus! {

/// `2` raised to `k`.
pub open spec fn two_to(k: nat) -> nat
    decreases k,
{
    if k == 0 {
        1
    } else {
        2 * two_to((k - 1) as nat)
    }
}

/// `n / d` rounded to the nearest integer, ties going to the even one.
pub open spec fn round_half_even(n: nat, d: nat) -> nat
    recommends
        d > 0,
{
    let q = n / d;
    let r = n % d;
    if 2 * r < d {
        q
    } else if 2 * r > d {
        q + 1
    } else if q % 2 == 0 {
        q
    } else {
        q + 1
    }
}

/// The least `j >= k`, up to 52, for which `c * 2^j >= 2^52 * d`: the
/// scale at which `c / d`, for `1 <= c / d < 2^53`, has 53 bits before
/// the binary point.
pub open spec fn binade_shift(c: nat, d: nat, k: nat) -> nat
    decreases 52 - k,
{
    if k >= 52 || c * two_to(k) >= 4503599627370496 * d {
        k
    } else {
        binade_shift(c, d, k + 1)
    }
}

/// The significand of the binary64 number nearest to `c / d` (ties to
/// even), at the scale `2^binade_shift(c, d, 0)`.
pub open spec fn nearest_f64_significand(c: nat, d: nat) -> nat {
    round_half_even(c * two_to(binade_shift(c, d, 0)), d)
}

/// The binary64 number nearest to `c / d`, in tenths, rounded to the
/// nearest tenth with ties to even: the digits that `{:.1}` prints for
/// `c as f64 / d as f64`.
pub open spec fn f64_quotient_tenths(c: nat, d: nat) -> nat {
    round_half_even(10 * nearest_f64_significand(c, d), two_to(binade_shift(c, d, 0)))
}

/// `c / d` as a binary64 number printed with one decimal.
pub open spec fn one_decimal(c: nat, d: nat) -> Seq<char> {
    let t = f64_quotient_tenths(c, d);
    decimal(t / 10) + seq!['.'] + decimal(t % 10)
}

/// The short form of an iteration count: the count itself below ten
/// thousand, then thousands (`k`), millions (`m`), billions (`b`) and
/// trillions (`t`) with one decimal, and `inf` from 10^15 on.
pub open spec fn count_text(c: nat) -> Seq<char> {
    if c < 10_000 {
        decimal(c)
    } else if c < 1_000_000 {
        one_decimal(c, 1_000) + seq!['k']
    } else if c < 1_000_000_000 {
        one_decimal(c, 1_000_000) + seq!['m']
    } else if c < 1_000_000_000_000 {
        one_decimal(c, 1_000_000_000) + seq!['b']
    } else if c < 1_000_000_000_000_000 {
        one_decimal(c, 1_000_000_000_000) + seq!['t']
    } else {
        seq!['i', 'n', 'f']
    }
}

fn round_half_even_u128(n: u128, d: u128) -> (r: u128)
    requires
        d > 0,
        n < u128::MAX,
    ensures
        r == round_half_even(n as nat, d as nat),
        r <= n + 1,
{
    let q = n / d;
    let r = n % d;
    assert(q <= n) by (nonlinear_arith)
        requires
            q == n / d,
            d > 0,
            n >= 0,
    ;
    if r < d - r {
        q
    } else if r > d - r {
        q + 1
    } else if q % 2 == 0 {
        q
    } else {
        q + 1
    }
}

/// Appends `c / d`, taken as a binary64 number, with one decimal.
fn push_one_decimal(out: &mut Vec<char>, c: u64, d: u64)
    requires
        d > 0,
    ensures
        final(out)@ == old(out)@ + one_decimal(c as nat, d as nat),
{
    let c128 = c as u128;
    let d128 = d as u128;
    let mut k: u64 = 0;
    let mut p: u128 = 1;
    let mut cp: u128 = c128;
    proof {
        lemma_two_to_bounds(c as nat, 0);
    }
    while k < 52 && cp < 4503599627370496u128 * d128
        invariant
            k <= 52,
            p == two_to(k as nat),
            1 <= p <= 4503599627370496,
            cp == c * two_to(k as nat),
            cp <= c * 4503599627370496,
            d128 == d,
            c128 == c,
            binade_shift(c as nat, d as nat, 0) == binade_shift(c as nat, d as nat, k as nat),
        decreases 52 - k,
    {
        proof {
            lemma_two_to_bounds(c as nat, (k + 1) as nat);
        }
        cp = cp * 2;
        p = p * 2;
        k = k + 1;
    }
    let m = round_half_even_u128(cp, d128);
    let t = round_half_even_u128(10 * m, p);
    push_decimal(out, t / 10);
    out.push('.');
    push_decimal(out, t % 10);
    assert(out@ =~= old(out)@ + one_decimal(c as nat, d as nat));
}

/// The facts about `2^k`, for `k <= 52`, that the scaling loop needs.
proof fn lemma_two_to_bounds(c: nat, k: nat)
    requires
        k <= 52,
    ensures
        1 <= two_to(k) <= 4503599627370496,
        k > 0 ==> two_to(k) == 2 * two_to((k - 1) as nat),
        k > 0 ==> c * two_to(k) == 2 * (c * two_to((k - 1) as nat)),
        c * two_to(k) <= c * 4503599627370496,
{
    lemma_two_to_positive(k);
    lemma_two_to_monotone(k, 52);
    lemma_two_to_52();
    let t = two_to(k);
    assert(c * t <= c * 4503599627370496) by (nonlinear_arith)
        requires
            t <= 4503599627370496,
    ;
    if k > 0 {
        let h = two_to((k - 1) as nat);
        assert(c * (2 * h) == 2 * (c * h)) by (nonlinear_arith);
    }
}

proof fn lemma_two_to_52()
    ensures
        two_to(52) == 4503599627370496,
{
    reveal_with_fuel(two_to, 53);
}

proof fn lemma_two_to_monotone(a: nat, b: nat)
    requires
        a <= b,
    ensures
        two_to(a) <= two_to(b),
    decreases b - a,
{
    if a < b {
        lemma_two_to_monotone(a, (b - 1) as nat);
        lemma_two_to_positive((b - 1) as nat);
    }
}

proof fn lemma_two_to_positive(a: nat)
    ensures
        two_to(a) > 0,
    decreases a,
{
    if a > 0 {
        lemma_two_to_positive((a - 1) as nat);
    }
}

proof fn lemma_round_half_even_close(n: nat, d: nat)
    requires
        d > 0,
    ensures
        2 * (round_half_even(n, d) * d - n) <= d,
        2 * (n - round_half_even(n, d) * d) <= d,
{
    let q = n / d;
    let r = n % d;
    vstd::arithmetic::div_mod::lemma_fundamental_div_mod(n as int, d as int);
    assert(n == d * q + r);
    assert((q + 1) * d == q * d + d) by (nonlinear_arith);
    assert(q * d == d * q) by (nonlinear_arith);
}

proof fn lemma_binade_shift_at_least(c: nat, d: nat, j: nat)
    requires
        d >= 1,
        c < 1000 * d,
        j <= 4,
    ensures
        binade_shift(c, d, j) >= 4,
    decreases 4 - j,
{
    if j < 4 {
        assert(two_to(j) <= 8) by {
            lemma_two_to_monotone(j, 3);
            reveal_with_fuel(two_to, 4);
        }
        let t = two_to(j);
        assert(c * t < 4503599627370496 * d) by (nonlinear_arith)
            requires
                t <= 8,
                c < 1000 * d,
                d >= 1,
        ;
        lemma_binade_shift_at_least(c, d, j + 1);
    } else {
        lemma_binade_shift_ge(c, d, j);
    }
}

proof fn lemma_binade_shift_ge(c: nat, d: nat, j: nat)
    ensures
        binade_shift(c, d, j) >= j,
    decreases 52 - j,
{
    if !(j >= 52 || c * two_to(j) >= 4503599627370496 * d) {
        lemma_binade_shift_ge(c, d, j + 1);
    }
}

/// The one-decimal figure that `count` shows for `c / d` (below 1000) is
/// within one tenth of the exact quotient.
pub proof fn lemma_one_decimal_within_a_tenth(c: nat, d: nat)
    requires
        d >= 1,
        c < 1000 * d,
    ensures
        f64_quotient_tenths(c, d) * d <= 10 * c + d,
        10 * c <= f64_quotient_tenths(c, d) * d + d,
{
    let k = binade_shift(c, d, 0);
    let p = two_to(k);
    let big = c * p;
    let m = round_half_even(big, d);
    let t = round_half_even(10 * m, p);
    lemma_binade_shift_at_least(c, d, 0);
    assert(p >= 16) by {
        lemma_two_to_monotone(4, k);
        reveal_with_fuel(two_to, 5);
    }
    lemma_round_half_even_close(big, d);
    lemma_round_half_even_close(10 * m, p);
    let a: int = t * p - 10 * m;
    let b: int = m * d - big;
    assert(t * d * p - 10 * c * p == d * a + 10 * b) by (nonlinear_arith)
        requires
            a == t * p - 10 * m,
            b == m * d - big,
            big == c * p,
    ;
    assert(-d * p <= 2 * (d * a) <= d * p) by (nonlinear_arith)
        requires
            2 * a <= p,
            -p <= 2 * a,
            d >= 1,
    ;
    let e: int = t * d - 10 * c;
    assert(e * p == d * a + 10 * b) by (nonlinear_arith)
        requires
            e == t * d - 10 * c,
            t * d * p - 10 * c * p == d * a + 10 * b,
    ;
    assert(e <= d && -d <= e) by (nonlinear_arith)
        requires
            e * p == d * a + 10 * b,
            -d * p <= 2 * (d * a) <= d * p,
            2 * b <= d,
            -d <= 2 * b,
            p >= 16,
            d >= 1,
    ;
}

/// Whether `c` is one of the decimal digits `0` to `9`.
pub open spec fn is_digit(c: char) -> bool {
    48 <= (c as u32) <= 57
}

/// The number that the decimal digits `s` write.
pub open spec fn digits_value(s: Seq<char>) -> int
    decreases s.len(),
{
    if s.len() == 0 {
        0
    } else {
        digits_value(s.drop_last()) * 10 + ((s.last() as u32) - 48)
    }
}

proof fn lemma_decimal_digits(n: nat)
    ensures
        decimal(n).len() >= 1,
        forall|k: int| 0 <= k < decimal(n).len() ==> is_digit(#[trigger] decimal(n)[k]),
        digits_value(decimal(n)) == n,
    decreases n,
{
    if n < 10 {
        assert(decimal(n) =~= seq![digit_char(n)]);
        assert(decimal(n).drop_last() =~= Seq::<char>::empty());
        assert((digit_char(n) as u32) == n + 48);
        assert(digits_value(decimal(n)) == digits_value(Seq::<char>::empty()) * 10 + n);
    } else {
        lemma_decimal_digits(n / 10);
        let s = decimal(n);
        assert(s == decimal(n / 10).push(digit_char(n % 10)));
        assert(s.drop_last() =~= decimal(n / 10));
        assert((digit_char(n % 10) as u32) == n % 10 + 48);
        assert(s.last() == digit_char(n % 10));
        assert(digits_value(s) == digits_value(decimal(n / 10)) * 10 + n % 10);
        assert((n / 10) * 10 + n % 10 == n);
        assert forall|k: int| 0 <= k < s.len() implies is_digit(#[trigger] s[k]) by {
            if k < s.len() - 1 {
                assert(s[k] == decimal(n / 10)[k]);
            }
        }
    }
}

/// Below ten thousand an iteration count is shown as its plain decimal
/// notation, which reads back as the count itself; from ten thousand on the
/// text ends in a letter (`k`, `m`, `b`, `t`, or `inf`), so it never reads
/// back as a number.
pub proof fn lemma_count_reads_back(c: nat)
    ensures
        c < 10_000 ==> {
            &&& count_text(c).len() >= 1
            &&& forall|k: int| 0 <= k < count_text(c).len() ==> is_digit(#[trigger] count_text(c)[k])
            &&& digits_value(count_text(c)) == c
        },
        c >= 10_000 ==> count_text(c).len() >= 1 && !is_digit(count_text(c).last()),
{
    if c < 10_000 {
        lemma_decimal_digits(c);
    }
}

/// The short form of an iteration count, as the results table shows it:
/// `9999`, `12.3k`, `4.6m`, `7.0b`, `1.5t`, `inf`.
pub fn count(n: u64) -> (text: String)
    ensures
        text@ == count_text(n as nat),
{
    let mut out: Vec<char> = Vec::new();
    if n < 10_000 {
        push_decimal(&mut out, n as u128);
    } else if n < 1_000_000 {
        push_one_decimal(&mut out, n, 1_000);
        out.push('k');
    } else if n < 1_000_000_000 {
        push_one_decimal(&mut out, n, 1_000_000);
        out.push('m');
    } else if n < 1_000_000_000_000 {
        push_one_decimal(&mut out, n, 1_000_000_000);
        out.push('b');
    } else if n < 1_000_000_000_000_000 {
        push_one_decimal(&mut out, n, 1_000_000_000_000);
        out.push('t');
    } else {
        out.push('i');
        out.push('n');
        out.push('f');
    }
    assert(out@ =~= count_text(n as nat));
    string_from_chars(&out)
}

} // verus!
