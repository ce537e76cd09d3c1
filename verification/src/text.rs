//! Small text tools: decimal numbers, character lists, splitting and trimming.

use vstd::prelude::*;

verus! {

/// `String::push` appends one character.
pub assume_specification[ String::push ](s: &mut String, ch: char)
    ensures
        final(s)@ == old(s)@.push(ch),
;

/// The decimal digit for a value below 10.
pub open spec fn digit_char(d: int) -> char {
    ('0' as u32 + d) as char
}

/// A number in decimal notation.
pub open spec fn decimal(n: nat) -> Seq<char>
    decreases n,
{
    if n < 10 {
        seq![digit_char(n as int)]
    } else {
        decimal(n / 10).push(digit_char((n % 10) as int))
    }
}

/// The decimal digit for `d`.
pub fn digit(d: u64) -> (c: char)
    requires
        d < 10,
    ensures
        c == digit_char(d as int),
{
    ('0' as u8 + d as u8) as char
}

/// Appends `n` in decimal notation.
pub fn push_decimal(out: &mut String, n: u64)
    ensures
        final(out)@ == old(out)@ + decimal(n as nat),
    decreases n,
{
    if n >= 10 {
        push_decimal(out, n / 10);
    }
    out.push(digit(n % 10));
    assert(out@ =~= old(out)@ + decimal(n as nat));
}

/// The characters of `s`.
pub fn chars_of(s: &str) -> (r: Vec<char>)
    ensures
        r@ == s@,
{
    let mut out: Vec<char> = Vec::new();
    for c in it: s.chars()
        invariant
            out@ == it.seq().take(it.index()),
            it.seq() == s@,
    {
        assert(it.seq().take(it.index() + 1) =~= it.seq().take(it.index()).push(c));
        out.push(c);
    }
    assert(s@.take(s@.len() as int) =~= s@);
    out
}

/// The string of `chars[from..to]`.
pub fn string_of(chars: &Vec<char>, from: usize, to: usize) -> (s: String)
    requires
        from <= to <= chars@.len(),
    ensures
        s@ == chars@.subrange(from as int, to as int),
{
    let mut s: String = String::new();
    let mut i: usize = from;
    assert(chars@.subrange(from as int, from as int) =~= Seq::<char>::empty());
    while i < to
        invariant
            from <= i <= to <= chars@.len(),
            s@ == chars@.subrange(from as int, i as int),
        decreases to - i,
    {
        assert(chars@.subrange(from as int, i + 1) =~= chars@.subrange(from as int, i as int).push(
            chars@[i as int],
        ));
        s.push(chars[i]);
        i = i + 1;
    }
    s
}

/// Unicode gives the character the property `White_Space`.
pub open spec fn white_space(c: char) -> bool {
    let n = c as u32;
    ||| 0x9 <= n <= 0xd
    ||| n == 0x20 || n == 0x85 || n == 0xa0 || n == 0x1680
    ||| 0x2000 <= n <= 0x200a
    ||| n == 0x2028 || n == 0x2029 || n == 0x202f || n == 0x205f || n == 0x3000
}

/// `char::is_whitespace` accepts the characters with the property `White_Space`.
pub assume_specification[ char::is_whitespace ](c: char) -> (r: bool)
    ensures
        r == white_space(c),
;

/// The text without white space in front.
pub open spec fn trim_front(s: Seq<char>) -> Seq<char>
    decreases s.len(),
{
    if s.len() > 0 && white_space(s[0]) {
        trim_front(s.drop_first())
    } else {
        s
    }
}

/// The text without white space at its end.
pub open spec fn trim_back(s: Seq<char>) -> Seq<char>
    decreases s.len(),
{
    if s.len() > 0 && white_space(s.last()) {
        trim_back(s.drop_last())
    } else {
        s
    }
}

/// The text without white space around it.
pub open spec fn trimmed(s: Seq<char>) -> Seq<char> {
    trim_back(trim_front(s))
}

proof fn lemma_trim_front(s: Seq<char>)
    ensures
        ({
            let t = trim_front(s);
            let k = s.len() - t.len();
            &&& 0 <= k <= s.len()
            &&& t == s.skip(k)
            &&& forall|i: int| 0 <= i < k ==> white_space(#[trigger] s[i])
            &&& t.len() > 0 ==> !white_space(t[0])
        }),
    decreases s.len(),
{
    if s.len() > 0 && white_space(s[0]) {
        let rest = s.drop_first();
        lemma_trim_front(rest);
        let t = trim_front(s);
        let k = s.len() - t.len();
        assert(t =~= s.skip(k));
        assert forall|i: int| 0 <= i < k implies white_space(#[trigger] s[i]) by {
            if i > 0 {
                assert(rest[i - 1] == s[i]);
            }
        }
    } else {
        assert(s.skip(0) =~= s);
    }
}

proof fn lemma_trim_back(s: Seq<char>)
    ensures
        ({
            let t = trim_back(s);
            &&& t.len() <= s.len()
            &&& t == s.take(t.len() as int)
            &&& forall|i: int| t.len() <= i < s.len() ==> white_space(#[trigger] s[i])
            &&& t.len() > 0 ==> !white_space(t.last())
        }),
    decreases s.len(),
{
    if s.len() > 0 && white_space(s.last()) {
        let rest = s.drop_last();
        lemma_trim_back(rest);
        let t = trim_back(s);
        assert(t =~= s.take(t.len() as int));
        assert forall|i: int| t.len() <= i < s.len() implies white_space(#[trigger] s[i]) by {
            if i < rest.len() {
                assert(rest[i] == s[i]);
            }
        }
    } else {
        assert(s.take(s.len() as int) =~= s);
    }
}

/// What is cut off a text is white space in front and at the end, and neither is left:
/// the rest stands in the text as it is, from `a` to `b`.
pub proof fn lemma_trimmed(s: Seq<char>) -> (ab: (int, int))
    ensures
        0 <= ab.0 <= ab.1 <= s.len(),
        trimmed(s) == s.subrange(ab.0, ab.1),
        forall|i: int| 0 <= i < ab.0 ==> white_space(#[trigger] s[i]),
        forall|i: int| ab.1 <= i < s.len() ==> white_space(#[trigger] s[i]),
        ab.0 < ab.1 ==> !white_space(s[ab.0]) && !white_space(s[ab.1 - 1]),
{
    let t = trim_front(s);
    lemma_trim_front(s);
    lemma_trim_back(t);
    let a = s.len() - t.len();
    let b = a + trim_back(t).len();
    assert(trimmed(s) =~= s.subrange(a, b));
    assert forall|i: int| b <= i < s.len() implies white_space(#[trigger] s[i]) by {
        assert(t[i - a] == s[i]);
    }
    if a < b {
        assert(t[0] == s[a]);
        assert(trim_back(t).last() == s[b - 1]);
    }
    (a, b)
}

/// The part of `chars[from..to]` without white space around it.
pub fn trim_range(chars: &Vec<char>, from: usize, to: usize) -> (r: (usize, usize))
    requires
        from <= to <= chars@.len(),
    ensures
        from <= r.0 <= r.1 <= to,
        chars@.subrange(r.0 as int, r.1 as int) == trimmed(
            chars@.subrange(from as int, to as int),
        ),
{
    let ghost whole = chars@.subrange(from as int, to as int);
    let mut a: usize = from;
    while a < to && chars[a].is_whitespace()
        invariant
            from <= a <= to <= chars@.len(),
            trim_front(chars@.subrange(a as int, to as int)) == trim_front(whole),
        decreases to - a,
    {
        assert(chars@.subrange(a as int, to as int).drop_first() =~= chars@.subrange(
            a + 1,
            to as int,
        ));
        a = a + 1;
    }
    assert(trim_front(whole) == chars@.subrange(a as int, to as int));
    let mut b: usize = to;
    while b > a && chars[b - 1].is_whitespace()
        invariant
            a <= b <= to <= chars@.len(),
            trim_back(chars@.subrange(a as int, b as int)) == trim_back(
                chars@.subrange(a as int, to as int),
            ),
        decreases b - a,
    {
        assert(chars@.subrange(a as int, b as int).drop_last() =~= chars@.subrange(
            a as int,
            b - 1,
        ));
        b = b - 1;
    }
    (a, b)
}

/// `s` without white space around it.
pub fn trim_string(s: &str) -> (r: String)
    ensures
        r@ == trimmed(s@),
{
    let chars = chars_of(s);
    let (a, b): (usize, usize) = trim_range(&chars, 0, chars.len());
    assert(chars@.subrange(0, chars@.len() as int) =~= chars@);
    string_of(&chars, a, b)
}

/// Whether a text is empty but for white space.
pub open spec fn is_blank(s: Seq<char>) -> bool {
    trimmed(s).len() == 0
}

/// Position of the first `c` from `i` on, or the length where there is none.
pub open spec fn position_of(s: Seq<char>, c: char, i: int) -> int
    decreases s.len() - i,
{
    if i < 0 || i >= s.len() {
        s.len() as int
    } else if s[i] == c {
        i
    } else {
        position_of(s, c, i + 1)
    }
}

/// Computes [`position_of`].
pub fn find_char(chars: &Vec<char>, c: char, from: usize) -> (r: usize)
    requires
        from <= chars@.len(),
    ensures
        r == position_of(chars@, c, from as int),
        from <= r <= chars@.len(),
        r < chars@.len() ==> chars@[r as int] == c,
        forall|k: int| from <= k < r ==> #[trigger] chars@[k] != c,
{
    let mut i: usize = from;
    while i < chars.len()
        invariant
            from <= i <= chars@.len(),
            position_of(chars@, c, i as int) == position_of(chars@, c, from as int),
            forall|k: int| from <= k < i ==> #[trigger] chars@[k] != c,
        decreases chars@.len() - i,
    {
        if chars[i] == c {
            return i;
        }
        i = i + 1;
    }
    i
}

/// Digits of a fraction of 1 000 000 000, without zeros at the end: at most `n`.
pub open spec fn fraction_digits(f: int, n: nat) -> Seq<char>
    decreases n,
{
    if n == 0 || f == 0 {
        Seq::empty()
    } else {
        seq![digit_char(f / 100_000_000)] + fraction_digits(
            (f % 100_000_000) * 10,
            (n - 1) as nat,
        )
    }
}

/// A number of billionths as a decimal number, without zeros at the end.
pub open spec fn nano_text(x: int) -> Seq<char> {
    let m = if x < 0 {
        -x
    } else {
        x
    };
    let sign = if x < 0 {
        seq!['-']
    } else {
        Seq::empty()
    };
    let fraction = if m % 1_000_000_000 == 0 {
        Seq::empty()
    } else {
        seq!['.'] + fraction_digits(m % 1_000_000_000, 9)
    };
    sign + decimal((m / 1_000_000_000) as nat) + fraction
}

/// Appends [`nano_text`].
pub fn push_nano(out: &mut String, x: i64)
    requires
        x > i64::MIN,
    ensures
        final(out)@ == old(out)@ + nano_text(x as int),
{
    let ghost start = out@;
    let m: u64 = if x < 0 {
        (-x) as u64
    } else {
        x as u64
    };
    if x < 0 {
        out.push('-');
    }
    push_decimal(out, m / 1_000_000_000);
    let mut f: u64 = m % 1_000_000_000;
    if f == 0 {
        assert(out@ =~= start + nano_text(x as int));
        return;
    }
    out.push('.');
    let ghost before = out@;
    let ghost whole = fraction_digits(f as int, 9);
    let mut n: u64 = 9;
    assert(before + whole =~= out@ + fraction_digits(f as int, 9));
    while n > 0 && f > 0
        invariant
            n <= 9,
            f < 1_000_000_000,
            before + whole == out@ + fraction_digits(f as int, n as nat),
        decreases n,
    {
        let ghost o = out@;
        out.push(digit(f / 100_000_000));
        proof {
            let rest = fraction_digits((f as int % 100_000_000) * 10, (n - 1) as nat);
            assert(o + (seq![digit_char(f as int / 100_000_000)] + rest) =~= o.push(
                digit_char(f as int / 100_000_000),
            ) + rest);
        }
        f = (f % 100_000_000) * 10;
        n = n - 1;
    }
    proof {
        assert(out@ + fraction_digits(f as int, n as nat) =~= out@);
        assert(before + whole =~= start + nano_text(x as int));
    }
}

/// A hexadecimal digit.
pub open spec fn hex_char(d: int) -> char {
    if d < 10 {
        digit_char(d)
    } else {
        ('a' as u32 + (d - 10)) as char
    }
}

fn hex_digit(d: u64) -> (c: char)
    requires
        d < 16,
    ensures
        c == hex_char(d as int),
{
    if d < 10 {
        digit(d)
    } else {
        ('a' as u8 + (d - 10) as u8) as char
    }
}

/// The last `n` hexadecimal digits of a number.
pub open spec fn hex_digits(x: nat, n: nat) -> Seq<char>
    decreases n,
{
    if n == 0 {
        Seq::empty()
    } else {
        hex_digits(x / 16, (n - 1) as nat).push(hex_char((x % 16) as int))
    }
}

/// A number in hexadecimal notation, without zeros in front.
pub open spec fn hex(x: nat) -> Seq<char>
    decreases x,
{
    if x < 16 {
        seq![hex_char(x as int)]
    } else {
        hex(x / 16).push(hex_char((x % 16) as int))
    }
}

/// Appends [`hex`].
pub fn push_hex(out: &mut String, x: u64)
    ensures
        final(out)@ == old(out)@ + hex(x as nat),
    decreases x,
{
    if x >= 16 {
        push_hex(out, x / 16);
    }
    out.push(hex_digit(x % 16));
    assert(out@ =~= old(out)@ + hex(x as nat));
}

/// Appends the last `n` hexadecimal digits of a number.
pub fn push_hex_digits(out: &mut String, x: u64, n: u32)
    ensures
        final(out)@ == old(out)@ + hex_digits(x as nat, n as nat),
    decreases n,
{
    if n > 0 {
        push_hex_digits(out, x / 16, n - 1);
        out.push(hex_digit(x % 16));
    }
    assert(out@ =~= old(out)@ + hex_digits(x as nat, n as nat));
}

/// End of the word that starts at `i`.
pub open spec fn word_end(s: Seq<char>, i: int) -> int
    decreases s.len() - i,
{
    if i < 0 || i >= s.len() || white_space(s[i]) {
        i
    } else {
        word_end(s, i + 1)
    }
}

/// The next position from `i` on that is not white space.
pub open spec fn word_start(s: Seq<char>, i: int) -> int
    decreases s.len() - i,
{
    if i < 0 || i >= s.len() || !white_space(s[i]) {
        i
    } else {
        word_start(s, i + 1)
    }
}

/// Word number `n` of those from `i` on, where words are what stands between
/// white space.
pub open spec fn word_from(s: Seq<char>, i: int, n: nat) -> Option<Seq<char>>
    decreases n,
{
    let a = word_start(s, i);
    let b = word_end(s, a);
    if a < 0 || a >= s.len() {
        None
    } else if n == 0 {
        Some(s.subrange(a, b))
    } else {
        word_from(s, b, (n - 1) as nat)
    }
}

/// Word number `n` of a text, counted from 0.
pub fn nth_word(s: &str, n: usize) -> (r: Option<String>)
    ensures
        match r {
            Some(w) => word_from(s@, 0, n as nat) == Some(w@),
            None => word_from(s@, 0, n as nat) is None,
        },
{
    let chars = chars_of(s);
    let len: usize = chars.len();
    let mut i: usize = 0;
    let mut left: usize = n;
    loop
        invariant
            chars@ == s@,
            len == chars@.len(),
            i <= len,
            left <= n,
            word_from(s@, 0, n as nat) == word_from(s@, i as int, left as nat),
        decreases left,
    {
        let mut a: usize = i;
        while a < len && chars[a].is_whitespace()
            invariant
                chars@ == s@,
                len == chars@.len(),
                i <= a <= len,
                word_start(s@, a as int) == word_start(s@, i as int),
            decreases len - a,
        {
            a = a + 1;
        }
        if a >= len {
            return None;
        }
        let mut b: usize = a;
        while b < len && !chars[b].is_whitespace()
            invariant
                chars@ == s@,
                len == chars@.len(),
                a <= b <= len,
                word_end(s@, b as int) == word_end(s@, a as int),
            decreases len - b,
        {
            b = b + 1;
        }
        if left == 0 {
            return Some(string_of(&chars, a, b));
        }
        i = b;
        left = left - 1;
    }
}

/// `part` stands in `s` at `i`.
pub open spec fn stands_at(s: Seq<char>, part: Seq<char>, i: int) -> bool {
    0 <= i && i + part.len() <= s.len() && s.subrange(i, i + part.len()) == part
}

/// `part` stands somewhere in `s`.
pub open spec fn has_part(s: Seq<char>, part: Seq<char>) -> bool {
    exists|i: int| stands_at(s, part, i)
}

/// Tests whether `part` stands somewhere in `s`.
pub fn contains_text(s: &str, part: &str) -> (r: bool)
    ensures
        r == has_part(s@, part@),
{
    let a = chars_of(s);
    let b = chars_of(part);
    let n: usize = a.len();
    let m: usize = b.len();
    if m > n {
        return false;
    }
    let mut i: usize = 0;
    while i <= n - m
        invariant
            a@ == s@,
            b@ == part@,
            n == a@.len(),
            m == b@.len(),
            m <= n,
            i <= n - m + 1,
            forall|k: int| 0 <= k < i ==> !stands_at(s@, part@, k),
        decreases n - m + 1 - i,
    {
        let mut j: usize = 0;
        while j < m && a[i + j] == b[j]
            invariant
                n == a@.len(),
                m == b@.len(),
                i + m <= n,
                j <= m,
                forall|k: int| 0 <= k < j ==> #[trigger] b@[k] == a@[i + k],
            decreases m - j,
        {
            j = j + 1;
        }
        if j == m {
            assert(s@.subrange(i as int, i + m) =~= part@);
            assert(stands_at(s@, part@, i as int));
            return true;
        }
        assert(!stands_at(s@, part@, i as int)) by {
            if stands_at(s@, part@, i as int) {
                assert(s@.subrange(i as int, i + m)[j as int] == part@[j as int]);
            }
        }
        if i == n - m {
            assert forall|k: int| !stands_at(s@, part@, k) by {}
            return false;
        }
        i = i + 1;
    }
    false
}

/// Whether two texts are equal.
pub fn same_text(a: &str, b: &str) -> (r: bool)
    ensures
        r == (a@ == b@),
{
    let x = chars_of(a);
    let y = chars_of(b);
    if x.len() != y.len() {
        return false;
    }
    for i in 0..x.len()
        invariant
            x@ == a@,
            y@ == b@,
            x@.len() == y@.len(),
            forall|k: int| 0 <= k < i ==> #[trigger] x@[k] == y@[k],
    {
        if x[i] != y[i] {
            assert(a@[i as int] != b@[i as int]);
            return false;
        }
    }
    assert(a@ =~= b@);
    true
}

/// The text in small letters.
pub uninterp spec fn lower_case(s: Seq<char>) -> Seq<char>;

/// An ASCII letter made small; other characters stay.
pub open spec fn ascii_lower(c: char) -> char {
    if 'A' <= c && c <= 'Z' {
        (c as u32 + 32) as char
    } else {
        c
    }
}

/// `str::to_lowercase` goes by the text alone; what it makes of it is named. On
/// plain ASCII each capital becomes the small letter and nothing else changes.
#[verifier::external_body]
pub(crate) fn lowercase(s: &str) -> (r: String)
    ensures
        r@ == lower_case(s@),
        s.is_ascii() ==> r@ == s@.map_values(|c: char| ascii_lower(c)),
{
    s.to_lowercase()
}

/// The texts of a list of strings.
pub open spec fn strings(list: Seq<String>) -> Seq<Seq<char>> {
    list.map_values(|s: String| s@)
}

} // verus!
