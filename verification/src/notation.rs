//! Decimal notation tells numbers apart.

use vstd::prelude::*;
use crate::text::{decimal, digit_char, fraction_digits, nano_text};

verus! {

pub open spec fn is_digit(c: char) -> bool {
    '0' <= c && c <= '9'
}

/// Characters of a decimal number.
pub open spec fn is_numeric(c: char) -> bool {
    is_digit(c) || c == '-' || c == '.'
}

pub open spec fn all_chars(s: Seq<char>, p: spec_fn(char) -> bool) -> bool {
    forall|i: int| 0 <= i < s.len() ==> p(#[trigger] s[i])
}

/// Where two texts are equal and each starts with characters of one kind and
/// goes on with another, they agree in both parts.
pub proof fn lemma_split_unique(
    d1: Seq<char>,
    r1: Seq<char>,
    d2: Seq<char>,
    r2: Seq<char>,
    p: spec_fn(char) -> bool,
)
    requires
        d1 + r1 == d2 + r2,
        all_chars(d1, p),
        all_chars(d2, p),
        r1.len() > 0 ==> !p(r1[0]),
        r2.len() > 0 ==> !p(r2[0]),
    ensures
        d1 == d2,
        r1 == r2,
{
    let s = d1 + r1;
    let t = d2 + r2;
    assert(s.len() == t.len());
    if d1.len() < d2.len() {
        assert(s[d1.len() as int] == r1[0]);
        assert(t[d1.len() as int] == d2[d1.len() as int]);
        assert(p(d2[d1.len() as int]));
    } else if d2.len() < d1.len() {
        assert(t[d2.len() as int] == r2[0]);
        assert(s[d2.len() as int] == d1[d2.len() as int]);
        assert(p(d1[d2.len() as int]));
    }
    assert(d1 =~= s.take(d1.len() as int));
    assert(d2 =~= t.take(d2.len() as int));
    assert(r1 =~= s.skip(d1.len() as int));
    assert(r2 =~= t.skip(d2.len() as int));
}

pub proof fn lemma_decimal_digits(n: nat)
    ensures
        decimal(n).len() >= 1,
        all_chars(decimal(n), |c: char| is_digit(c)),
    decreases n,
{
    if n >= 10 {
        lemma_decimal_digits(n / 10);
        let head = decimal(n / 10);
        assert forall|i: int| 0 <= i < decimal(n).len() implies is_digit(
            #[trigger] decimal(n)[i],
        ) by {
            if i < head.len() {
                assert(decimal(n)[i] == head[i]);
                assert((|c: char| is_digit(c))(head[i]));
            }
        }
    }
}

/// Different numbers have different decimal notations.
pub proof fn lemma_decimal_injective(a: nat, b: nat)
    requires
        decimal(a) == decimal(b),
    ensures
        a == b,
    decreases a,
{
    if a < 10 && b < 10 {
        assert(decimal(a)[0] == digit_char(a as int));
        assert(decimal(b)[0] == digit_char(b as int));
    } else if a < 10 {
        lemma_decimal_digits(b / 10);
        assert(decimal(b).len() >= 2);
    } else if b < 10 {
        lemma_decimal_digits(a / 10);
        assert(decimal(a).len() >= 2);
    } else {
        assert(decimal(a).drop_last() =~= decimal(a / 10));
        assert(decimal(b).drop_last() =~= decimal(b / 10));
        lemma_decimal_injective(a / 10, b / 10);
        assert(decimal(a).last() == digit_char((a % 10) as int));
        assert(decimal(b).last() == digit_char((b % 10) as int));
        assert(a % 10 == b % 10);
    }
}

/// A fraction with at most `n` digits left has zeros behind them.
spec fn fits(f: int, n: nat) -> bool {
    &&& 0 <= f < 1_000_000_000
    &&& n <= 9
    &&& n == 8 ==> f % 10 == 0
    &&& n == 7 ==> f % 100 == 0
    &&& n == 6 ==> f % 1_000 == 0
    &&& n == 5 ==> f % 10_000 == 0
    &&& n == 4 ==> f % 100_000 == 0
    &&& n == 3 ==> f % 1_000_000 == 0
    &&& n == 2 ==> f % 10_000_000 == 0
    &&& n == 1 ==> f % 100_000_000 == 0
    &&& n == 0 ==> f == 0
}

proof fn lemma_fraction_digits(f: int, n: nat)
    requires
        fits(f, n),
    ensures
        all_chars(fraction_digits(f, n), |c: char| is_digit(c)),
    decreases n,
{
    if n > 0 && f > 0 {
        let rest = (f % 100_000_000) * 10;
        assert(fits(rest, (n - 1) as nat));
        lemma_fraction_digits(rest, (n - 1) as nat);
        let tail = fraction_digits(rest, (n - 1) as nat);
        let all = fraction_digits(f, n);
        assert forall|i: int| 0 <= i < all.len() implies is_digit(#[trigger] all[i]) by {
            if i > 0 {
                assert(all[i] == tail[i - 1]);
                assert((|c: char| is_digit(c))(tail[i - 1]));
            }
        }
    }
}

proof fn lemma_fraction_injective(f: int, g: int, n: nat)
    requires
        fits(f, n),
        fits(g, n),
        fraction_digits(f, n) == fraction_digits(g, n),
    ensures
        f == g,
    decreases n,
{
    let a = fraction_digits(f, n);
    let b = fraction_digits(g, n);
    if n > 0 {
        if f == 0 || g == 0 {
            assert(a.len() == b.len());
        } else {
            let fr = (f % 100_000_000) * 10;
            let gr = (g % 100_000_000) * 10;
            assert(fits(fr, (n - 1) as nat));
            assert(fits(gr, (n - 1) as nat));
            assert(a[0] == b[0]);
            assert(a.skip(1) =~= fraction_digits(fr, (n - 1) as nat));
            assert(b.skip(1) =~= fraction_digits(gr, (n - 1) as nat));
            lemma_fraction_injective(fr, gr, (n - 1) as nat);
        }
    }
}

spec fn magnitude(x: int) -> int {
    if x < 0 {
        -x
    } else {
        x
    }
}

spec fn fraction_part(m: int) -> Seq<char> {
    if m % 1_000_000_000 == 0 {
        Seq::empty()
    } else {
        seq!['.'] + fraction_digits(m % 1_000_000_000, 9)
    }
}

/// The notation of a number of billionths holds only digits, a dot and a sign.
pub proof fn lemma_nano_chars(x: int)
    ensures
        nano_text(x).len() > 0,
        all_chars(nano_text(x), |c: char| is_numeric(c)),
{
    let m = magnitude(x);
    let whole = decimal((m / 1_000_000_000) as nat);
    let part = fraction_part(m);
    lemma_decimal_digits((m / 1_000_000_000) as nat);
    lemma_fraction_digits(m % 1_000_000_000, 9);
    let text = nano_text(x);
    let offset: int = if x < 0 {
        1
    } else {
        0
    };
    assert forall|i: int| 0 <= i < text.len() implies is_numeric(#[trigger] text[i]) by {
        if i >= offset && i < offset + whole.len() {
            assert(text[i] == whole[i - offset]);
            assert((|c: char| is_digit(c))(whole[i - offset]));
        } else if i >= offset + whole.len() {
            let k = i - offset - whole.len();
            assert(text[i] == part[k]);
            if k > 0 {
                let digits = fraction_digits(m % 1_000_000_000, 9);
                assert(part[k] == digits[k - 1]);
                assert((|c: char| is_digit(c))(digits[k - 1]));
            }
        }
    }
}

/// Different numbers of billionths have different notations.
pub proof fn lemma_nano_injective(x: int, y: int)
    requires
        nano_text(x) == nano_text(y),
    ensures
        x == y,
{
    let m = magnitude(x);
    let n = magnitude(y);
    let wm = decimal((m / 1_000_000_000) as nat);
    let wn = decimal((n / 1_000_000_000) as nat);
    let digit = |c: char| is_digit(c);
    lemma_decimal_digits((m / 1_000_000_000) as nat);
    lemma_decimal_digits((n / 1_000_000_000) as nat);
    let tx = nano_text(x);
    let ty = nano_text(y);
    assert(digit(wm[0]) && digit(wn[0]));
    assert(tx[0] == if x < 0 {
        '-'
    } else {
        wm[0]
    });
    assert(ty[0] == if y < 0 {
        '-'
    } else {
        wn[0]
    });
    assert((x < 0) == (y < 0));
    let a = if x < 0 {
        tx.skip(1)
    } else {
        tx
    };
    let b = if y < 0 {
        ty.skip(1)
    } else {
        ty
    };
    assert(a =~= wm + fraction_part(m));
    assert(b =~= wn + fraction_part(n));
    lemma_split_unique(wm, fraction_part(m), wn, fraction_part(n), digit);
    lemma_decimal_injective((m / 1_000_000_000) as nat, (n / 1_000_000_000) as nat);
    let fm = m % 1_000_000_000;
    let fn_ = n % 1_000_000_000;
    if fm != 0 && fn_ != 0 {
        assert(fraction_part(m).skip(1) =~= fraction_digits(fm, 9));
        assert(fraction_part(n).skip(1) =~= fraction_digits(fn_, 9));
        lemma_fraction_injective(fm, fn_, 9);
    } else if fm != 0 {
        assert(fraction_part(m).len() > 0);
    } else if fn_ != 0 {
        assert(fraction_part(n).len() > 0);
    }
}

} // verus!
