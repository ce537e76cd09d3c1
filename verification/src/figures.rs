//! Numbers as reports show them.

use vstd::prelude::*;
use vstd::string::*;
use crate::text::{decimal, digit, digit_char, push_decimal};

verus! {

/// `a / b` rounded to a whole number, halves to the even one.
pub open spec fn round_even(a: int, b: int) -> int {
    let q = a / b;
    let r = a % b;
    if 2 * r < b {
        q
    } else if 2 * r > b {
        q + 1
    } else {
        q + q % 2
    }
}

/// Rounding goes to the nearest whole number, and to the even one of two that are as
/// near.
pub proof fn lemma_rounding(a: int, b: int)
    requires
        b > 0,
    ensures
        -b <= 2 * (a - b * round_even(a, b)) <= b,
        2 * (a - b * round_even(a, b)) == b || 2 * (a - b * round_even(a, b)) == -b ==> round_even(
            a,
            b,
        ) % 2 == 0,
{
    let q = a / b;
    let m = a % b;
    vstd::arithmetic::div_mod::lemma_fundamental_div_mod(a, b);
    assert(0 <= m < b) by (nonlinear_arith)
        requires
            m == a % b,
            b > 0,
    ;
    assert(b * (q + 1) == b * q + b) by (nonlinear_arith);
    assert(q % 2 == 0 || q % 2 == 1);
}

/// Computes [`round_even`].
pub fn rounded(a: u128, b: u128) -> (r: u128)
    requires
        0 < b <= u128::MAX / 2,
        a < u128::MAX,
    ensures
        r == round_even(a as int, b as int),
        r <= a / b + 1,
{
    let q: u128 = a / b;
    let m: u128 = a % b;
    assert(q <= a) by (nonlinear_arith)
        requires
            q == a / b,
            b > 0,
    ;
    if 2 * m < b {
        q
    } else if 2 * m > b {
        q + 1
    } else {
        q + q % 2
    }
}

/// Bits of a double's significand.
pub const SIGNIFICAND: u128 = 0x10_0000_0000_0000;

/// Distance of the doubles around `n`, for a whole number beyond those that are
/// all doubles; 1 below.
pub open spec fn double_gap(n: int) -> int
    decreases n,
{
    if n < 2 * SIGNIFICAND {
        1
    } else {
        2 * double_gap(n / 2)
    }
}

/// The double nearest to a whole number.
pub open spec fn nearest_double(n: int) -> int {
    round_even(n, double_gap(n)) * double_gap(n)
}

/// The power of two that takes `n / unit` to where the doubles are the whole
/// numbers.
pub open spec fn scale(n: int, unit: int) -> int
    decreases 2 * (SIGNIFICAND * unit) - n,
{
    if n <= 0 || n >= SIGNIFICAND * unit {
        1
    } else {
        2 * scale(2 * n, unit)
    }
}

/// `n / unit` in double precision, times `per`, rounded to a whole number.
/// All roundings go to the nearest, halves to even.
pub open spec fn quotient_digits(n: int, unit: int, per: int) -> int {
    let x = nearest_double(n);
    let s = scale(x, unit);
    let significand = round_even(x * s, unit);
    round_even(significand * per, s)
}

fn gap_of(n: u128) -> (r: u128)
    requires
        0 < n <= u64::MAX,
    ensures
        r == double_gap(n as int),
        1 <= r <= 0x800,
        r <= n,
    decreases n,
{
    proof {
        lemma_gap_bound(n as int);
    }
    if n < 2 * SIGNIFICAND {
        1
    } else {
        2 * gap_of(n / 2)
    }
}

proof fn lemma_gap_bound(n: int)
    requires
        0 <= n <= u64::MAX,
    ensures
        1 <= double_gap(n) <= 0x800,
{
    reveal_with_fuel(double_gap, 13);
}

/// Computes [`quotient_digits`].
fn quotient_of(n: u64, unit: u64, per: u64) -> (r: u64)
    requires
        0 < n,
        unit == 1_000 && n < 1_000_000 || unit == 1_000_000,
        per <= 100,
    ensures
        r == quotient_digits(n as int, unit as int, per as int),
{
    let gap: u128 = gap_of(n as u128);
    let whole: u128 = rounded(n as u128, gap);
    proof {
        lemma_nearest(n as int, gap as int);
    }
    let x: u128 = whole * gap;
    let limit: u128 = SIGNIFICAND * unit as u128;
    let mut y: u128 = x;
    let mut power: u128 = 1;
    while y < limit
        invariant
            limit == SIGNIFICAND * unit,
            unit <= 1_000_000,
            0 < x <= y < 2 * limit,
            y == x * power,
            1 <= power <= y,
            power * scale(y as int, unit as int) == scale(x as int, unit as int),
        decreases 2 * limit - y,
    {
        assert(2 * y == x * (2 * power) && (2 * power) * scale(2 * y, unit as int) == power * (2
            * scale(2 * y, unit as int))) by (nonlinear_arith)
            requires
                y == x * power,
        ;
        y = 2 * y;
        power = 2 * power;
    }
    assert(y / unit as u128 <= 2 * SIGNIFICAND) by (nonlinear_arith)
        requires
            y < 2 * (SIGNIFICAND * unit),
            unit > 0,
    ;
    let significand: u128 = rounded(y, unit as u128);
    assert(significand * per <= (2 * SIGNIFICAND + 1) * 100) by (nonlinear_arith)
        requires
            0 <= significand <= 2 * SIGNIFICAND + 1,
            0 <= per <= 100,
    ;
    let scaled: u128 = significand * per as u128;
    assert(scaled / power <= scaled) by (nonlinear_arith)
        requires
            power >= 1,
    ;
    rounded(scaled, power) as u64
}

/// The nearest double is at most half a gap away.
proof fn lemma_nearest(n: int, gap: int)
    requires
        0 < n <= u64::MAX,
        1 <= gap <= 0x800,
        gap <= n,
    ensures
        0 < round_even(n, gap) * gap,
        2 * (round_even(n, gap) * gap) <= 2 * n + gap,
        2 * (round_even(n, gap) * gap) >= 2 * n - gap,
{
    let q = n / gap;
    let r = n % gap;
    assert(n == q * gap + r) by (nonlinear_arith)
        requires
            q == n / gap,
            r == n % gap,
            gap > 0,
    ;
    assert((q + 1) * gap == q * gap + gap) by (nonlinear_arith);
    assert(q >= 1) by (nonlinear_arith)
        requires
            q == n / gap,
            1 <= gap <= n,
    ;
    assert(q * gap >= gap) by (nonlinear_arith)
        requires
            q >= 1,
            gap >= 1,
    ;
}

/// A whole number of hundredths or tenths with its decimal point; `d` is how
/// many digits come behind it.
pub open spec fn point_text(n: int, d: nat) -> Seq<char> {
    if d == 1 {
        decimal((n / 10) as nat).push('.').push(digit_char(n % 10))
    } else {
        decimal((n / 100) as nat).push('.').push(digit_char(n / 10 % 10)).push(digit_char(n % 10))
    }
}

/// A time of `us` microseconds, in microseconds, in milliseconds with one
/// digit, or in seconds with two.
pub open spec fn time_text(us: int) -> Seq<char> {
    if us < 1_000 {
        decimal(us as nat) + "us"@
    } else if us < 1_000_000 {
        point_text(quotient_digits(us, 1_000, 10), 1) + "ms"@
    } else {
        point_text(quotient_digits(us, 1_000_000, 100), 2) + "s"@
    }
}

/// Computes [`time_text`].
pub fn format_time(us: u64) -> (r: String)
    ensures
        r@ == time_text(us as int),
{
    let mut out = String::new();
    if us < 1_000 {
        push_decimal(&mut out, us);
        out.append("us");
    } else if us < 1_000_000 {
        let n: u64 = quotient_of(us, 1_000, 10);
        push_decimal(&mut out, n / 10);
        out.push('.');
        out.push(digit(n % 10));
        out.append("ms");
    } else {
        let n: u64 = quotient_of(us, 1_000_000, 100);
        push_decimal(&mut out, n / 100);
        out.push('.');
        out.push(digit(n / 10 % 10));
        out.push(digit(n % 10));
        out.append("s");
    }
    assert(out@ =~= time_text(us as int));
    out
}

/// A number with a comma before each group of three digits but the first.
pub open spec fn grouped(n: nat) -> Seq<char>
    decreases n,
{
    if n < 1000 {
        decimal(n)
    } else {
        grouped(n / 1000).push(',').push(digit_char(n as int / 100 % 10)).push(
            digit_char(n as int / 10 % 10),
        ).push(digit_char(n as int % 10))
    }
}

/// The text without a character.
pub open spec fn without(s: Seq<char>, c: char) -> Seq<char>
    decreases s.len(),
{
    if s.len() == 0 {
        s
    } else if s.last() == c {
        without(s.drop_last(), c)
    } else {
        without(s.drop_last(), c).push(s.last())
    }
}

proof fn lemma_without_push(s: Seq<char>, x: char, c: char)
    ensures
        without(s.push(x), c) == if x == c {
            without(s, c)
        } else {
            without(s, c).push(x)
        },
{
    assert(s.push(x).drop_last() =~= s);
}

proof fn lemma_without_nothing(s: Seq<char>, c: char)
    requires
        forall|i: int| 0 <= i < s.len() ==> #[trigger] s[i] != c,
    ensures
        without(s, c) == s,
    decreases s.len(),
{
    if s.len() > 0 {
        let head = s.drop_last();
        assert forall|i: int| 0 <= i < head.len() implies #[trigger] head[i] != c by {
            assert(head[i] == s[i]);
        }
        lemma_without_nothing(head, c);
        assert(s[s.len() - 1] != c);
        assert(head.push(s.last()) =~= s);
    }
}

proof fn lemma_no_comma(n: nat)
    ensures
        forall|i: int| 0 <= i < decimal(n).len() ==> #[trigger] decimal(n)[i] != ',',
        decimal(n).len() > 0,
        n < 1000 ==> decimal(n).len() <= 3,
        n < 100 ==> decimal(n).len() <= 2,
        n < 10 ==> decimal(n).len() == 1,
    decreases n,
{
    if n >= 10 {
        lemma_no_comma(n / 10);
    }
}

/// Commas aside, the digits are those of the number. A comma stands before each three
/// digits from the right, except in front.
pub proof fn lemma_grouped(n: nat)
    ensures
        without(grouped(n), ',') == decimal(n),
        grouped(n).len() > 0,
        grouped(n)[0] != ',',
        forall|i: int|
            0 < i < grouped(n).len() ==> ((#[trigger] grouped(n)[i] == ',') <==> (grouped(n).len()
                - 1 - i) % 4 == 3),
    decreases n,
{
    lemma_no_comma(n);
    if n < 1000 {
        lemma_without_nothing(decimal(n), ',');
    } else {
        let m = n / 1000;
        lemma_grouped(m);
        let x = digit_char(n as int / 100 % 10);
        let y = digit_char(n as int / 10 % 10);
        let z = digit_char(n as int % 10);
        let head = grouped(m);
        lemma_without_push(head, ',', ',');
        lemma_without_push(head.push(','), x, ',');
        lemma_without_push(head.push(',').push(x), y, ',');
        lemma_without_push(head.push(',').push(x).push(y), z, ',');
        assert(n / 10 / 10 == n / 100);
        assert(n / 100 / 10 == m);
        assert(decimal(n) == decimal(n / 10).push(z));
        assert(decimal(n / 10) == decimal(n / 100).push(y));
        assert(decimal(n / 100) == decimal(m).push(x));
        let all = grouped(n);
        assert forall|i: int| 0 < i < all.len() implies ((#[trigger] all[i] == ',') <==> (all.len()
            - 1 - i) % 4 == 3) by {
            if i < head.len() {
                assert(all[i] == head[i]);
            }
        }
    }
}

fn push_grouped(out: &mut String, n: u64)
    ensures
        final(out)@ == old(out)@ + grouped(n as nat),
    decreases n,
{
    let ghost start = out@;
    if n < 1000 {
        push_decimal(out, n);
    } else {
        push_grouped(out, n / 1000);
        out.push(',');
        out.push(digit(n / 100 % 10));
        out.push(digit(n / 10 % 10));
        out.push(digit(n % 10));
    }
    assert(out@ =~= start + grouped(n as nat));
}

/// Computes [`grouped`].
pub fn format_number(n: u32) -> (r: String)
    ensures
        r@ == grouped(n as nat),
{
    let mut out = String::new();
    push_grouped(&mut out, n as u64);
    assert(out@ =~= grouped(n as nat));
    out
}

/// A distance in micro-nm, in nm with one digit.
pub open spec fn distance_text(d: int) -> Seq<char> {
    point_text(round_even(d, 100_000), 1)
}

/// Computes [`distance_text`].
pub fn format_distance(d: u64) -> (r: String)
    ensures
        r@ == distance_text(d as int),
{
    let n: u128 = rounded(d as u128, 100_000);
    let mut out = String::new();
    push_decimal(&mut out, n as u64 / 10);
    out.push('.');
    out.push(digit(n as u64 % 10));
    assert(out@ =~= distance_text(d as int));
    out
}

} // verus!
