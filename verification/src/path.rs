//! File paths as text, with `/` between their components.

use vstd::prelude::*;
use vstd::string::*;
use crate::text::{chars_of, string_of};

verus! {

/// The path without slashes and single dots at its end. The root stays.
pub open spec fn tidy(s: Seq<char>) -> Seq<char>
    decreases s.len(),
{
    if s.len() >= 2 && s.last() == '/' {
        tidy(s.drop_last())
    } else if s.len() >= 2 && s.last() == '.' && s[s.len() - 2] == '/' {
        tidy(s.drop_last())
    } else {
        s
    }
}

/// Where the last component of `s[..n]` starts.
pub open spec fn name_start(s: Seq<char>, n: int) -> int
    decreases n,
{
    if n <= 0 {
        0
    } else if s[n - 1] == '/' {
        n
    } else {
        name_start(s, n - 1)
    }
}

/// The last component.
pub open spec fn last_part(s: Seq<char>) -> Seq<char> {
    let t = tidy(s);
    t.skip(name_start(t, t.len() as int))
}

/// The last component is a name, not the root, `.` or `..`.
pub open spec fn has_name(s: Seq<char>) -> bool {
    let c = last_part(s);
    c.len() > 0 && c != seq!['.'] && c != seq!['.', '.']
}

/// The path to what holds the last component.
pub open spec fn parent_path(s: Seq<char>) -> Seq<char> {
    let t = tidy(s);
    tidy(t.take(name_start(t, t.len() as int)))
}

/// Something holds the path's last component: it is not empty and not the root.
pub open spec fn has_parent(s: Seq<char>) -> bool {
    tidy(s).len() > 0 && tidy(s) != seq!['/']
}

/// `base` with one more component.
pub open spec fn joined(base: Seq<char>, name: Seq<char>) -> Seq<char> {
    if base.len() == 0 {
        name
    } else if base.last() == '/' {
        base + name
    } else {
        base.push('/') + name
    }
}

/// The path with another last component; added where there was no name.
pub open spec fn renamed(s: Seq<char>, name: Seq<char>) -> Seq<char> {
    if has_name(s) {
        joined(parent_path(s), name)
    } else {
        joined(s, name)
    }
}

/// Length of `s[..n]` without its extension: up to the last dot that is not the
/// first character from `start` on.
pub open spec fn stem_len(s: Seq<char>, start: int, n: int, i: int) -> int
    decreases i - start,
{
    if i <= start + 1 {
        n
    } else if s[i - 1] == '.' {
        i - 1
    } else {
        stem_len(s, start, n, i - 1)
    }
}

/// The path with another extension; unchanged where there is no name.
pub open spec fn with_ext(s: Seq<char>, ext: Seq<char>) -> Seq<char> {
    if has_name(s) {
        let t = tidy(s);
        let start = name_start(t, t.len() as int);
        t.take(stem_len(t, start, t.len() as int, t.len() as int)).push('.') + ext
    } else {
        s
    }
}

/// Length of [`tidy`] of `chars[..n]`.
fn tidy_len(chars: &Vec<char>, n: usize) -> (r: usize)
    requires
        n <= chars@.len(),
    ensures
        r <= n,
        chars@.take(r as int) == tidy(chars@.take(n as int)),
{
    let mut k: usize = n;
    while k >= 2 && (chars[k - 1] == '/' || (chars[k - 1] == '.' && chars[k - 2] == '/'))
        invariant
            k <= n <= chars@.len(),
            tidy(chars@.take(k as int)) == tidy(chars@.take(n as int)),
        decreases k,
    {
        assert(chars@.take(k as int).drop_last() =~= chars@.take(k - 1));
        k = k - 1;
    }
    k
}

/// Where the last component of `chars[..n]` starts.
fn name_start_of(chars: &Vec<char>, n: usize) -> (r: usize)
    requires
        n <= chars@.len(),
    ensures
        r <= n,
        r == name_start(chars@, n as int),
        r == name_start(chars@.take(n as int), n as int),
{
    let mut k: usize = n;
    while k > 0 && chars[k - 1] != '/'
        invariant
            k <= n <= chars@.len(),
            name_start(chars@, k as int) == name_start(chars@, n as int),
        decreases k,
    {
        k = k - 1;
    }
    proof {
        lemma_name_start_take(chars@, n as int, n as int);
    }
    k
}

proof fn lemma_name_start_take(s: Seq<char>, n: int, k: int)
    requires
        0 <= k <= n <= s.len(),
    ensures
        name_start(s.take(n), k) == name_start(s, k),
    decreases k,
{
    if k > 0 {
        lemma_name_start_take(s, n, k - 1);
    }
}

/// The last component of `chars[..n]`, which is tidy and starts its name at
/// `start`, is a name.
fn is_name(chars: &Vec<char>, start: usize, n: usize) -> (r: bool)
    requires
        start <= n <= chars@.len(),
    ensures
        r == ({
            let c = chars@.subrange(start as int, n as int);
            c.len() > 0 && c != seq!['.'] && c != seq!['.', '.']
        }),
{
    let ghost c = chars@.subrange(start as int, n as int);
    if n == start {
        return false;
    }
    if n - start == 1 && chars[start] == '.' {
        assert(c =~= seq!['.']);
        return false;
    }
    if n - start == 2 && chars[start] == '.' && chars[start + 1] == '.' {
        assert(c =~= seq!['.', '.']);
        return false;
    }
    proof {
        assert(c != seq!['.']) by {
            if c == seq!['.'] {
                assert(c[0] == '.');
            }
        }
        assert(c != seq!['.', '.']) by {
            if c == seq!['.', '.'] {
                assert(c[0] == '.' && c[1] == '.');
            }
        }
    }
    true
}

/// The path to what holds the last component, where there is one.
pub fn parent(path: &str) -> (r: Option<String>)
    ensures
        match r {
            Some(p) => has_parent(path@) && p@ == parent_path(path@),
            None => !has_parent(path@),
        },
{
    let chars = chars_of(path);
    assert(chars@.take(chars@.len() as int) =~= chars@);
    let n: usize = tidy_len(&chars, chars.len());
    let ghost t = tidy(path@);
    if n == 0 {
        return None;
    }
    if n == 1 && chars[0] == '/' {
        assert(t =~= seq!['/']);
        return None;
    }
    assert(t != seq!['/']) by {
        if t == seq!['/'] {
            assert(t[0] == '/');
        }
    }
    let start: usize = name_start_of(&chars, n);
    let m: usize = tidy_len(&chars, start);
    assert(chars@.take(n as int).take(start as int) =~= chars@.take(start as int));
    let base = string_of(&chars, 0, m);
    assert(base@ =~= parent_path(path@));
    Some(base)
}

/// The last component without its extension; empty where it is no name.
pub open spec fn stem(s: Seq<char>) -> Seq<char> {
    if has_name(s) {
        let t = tidy(s);
        let start = name_start(t, t.len() as int);
        t.subrange(start, stem_len(t, start, t.len() as int, t.len() as int))
    } else {
        Seq::empty()
    }
}

/// Length of `chars[..n]` without the extension of its last component, which
/// starts at `start`.
fn stem_end(chars: &Vec<char>, start: usize, n: usize) -> (r: usize)
    requires
        start < n <= chars@.len(),
    ensures
        start < r <= n,
        r == stem_len(chars@.take(n as int), start as int, n as int, n as int),
{
    let ghost t = chars@.take(n as int);
    let mut i: usize = n;
    while i > start + 1
        invariant
            start < i <= n <= chars@.len(),
            t == chars@.take(n as int),
            stem_len(t, start as int, n as int, n as int) == stem_len(
                t,
                start as int,
                n as int,
                i as int,
            ),
        decreases i,
    {
        if chars[i - 1] == '.' {
            return i - 1;
        }
        i = i - 1;
    }
    n
}

/// The last component without its extension.
pub fn file_stem(path: &str) -> (r: String)
    ensures
        r@ == stem(path@),
{
    let chars = chars_of(path);
    assert(chars@.take(chars@.len() as int) =~= chars@);
    let n: usize = tidy_len(&chars, chars.len());
    let start: usize = name_start_of(&chars, n);
    assert(last_part(path@) =~= chars@.subrange(start as int, n as int));
    if !is_name(&chars, start, n) {
        return String::new();
    }
    let end: usize = stem_end(&chars, start, n);
    assert(stem(path@) =~= chars@.subrange(start as int, end as int));
    string_of(&chars, start, end)
}

/// The extension of the last component: what follows the dot that ends its stem.
pub open spec fn ext(s: Seq<char>) -> Option<Seq<char>> {
    let t = tidy(s);
    let n = t.len() as int;
    let end = stem_len(t, name_start(t, n), n, n);
    if has_name(s) && end < n {
        Some(t.skip(end + 1))
    } else {
        None
    }
}

/// The extension of the last component.
pub fn extension(path: &str) -> (r: Option<String>)
    ensures
        match r {
            Some(e) => ext(path@) == Some(e@),
            None => ext(path@) is None,
        },
{
    let chars = chars_of(path);
    assert(chars@.take(chars@.len() as int) =~= chars@);
    let n: usize = tidy_len(&chars, chars.len());
    let start: usize = name_start_of(&chars, n);
    assert(last_part(path@) =~= chars@.subrange(start as int, n as int));
    if !is_name(&chars, start, n) {
        return None;
    }
    let end: usize = stem_end(&chars, start, n);
    if end == n {
        return None;
    }
    let e = string_of(&chars, end + 1, n);
    assert(e@ =~= tidy(path@).skip(end + 1));
    Some(e)
}

/// Adds a component to a path.
pub fn join(base: &str, name: &str) -> (r: String)
    ensures
        r@ == joined(base@, name@),
{
    let mut out: String = String::from_str(base);
    let chars = chars_of(base);
    let n: usize = chars.len();
    if n > 0 && chars[n - 1] != '/' {
        out.push('/');
    }
    out.append(name);
    assert(out@ =~= joined(base@, name@));
    out
}

/// The last component of a path, where it is a name.
pub fn file_name(path: &str) -> (r: Option<String>)
    ensures
        match r {
            Some(name) => has_name(path@) && name@ == last_part(path@),
            None => !has_name(path@),
        },
{
    let chars = chars_of(path);
    assert(chars@.take(chars@.len() as int) =~= chars@);
    let n: usize = tidy_len(&chars, chars.len());
    let start: usize = name_start_of(&chars, n);
    assert(last_part(path@) =~= chars@.subrange(start as int, n as int));
    if is_name(&chars, start, n) {
        Some(string_of(&chars, start, n))
    } else {
        None
    }
}

/// The path with another last component.
pub fn with_file_name(path: &str, name: &str) -> (r: String)
    ensures
        r@ == renamed(path@, name@),
{
    let chars = chars_of(path);
    assert(chars@.take(chars@.len() as int) =~= chars@);
    let n: usize = tidy_len(&chars, chars.len());
    let start: usize = name_start_of(&chars, n);
    assert(last_part(path@) =~= chars@.subrange(start as int, n as int));
    if is_name(&chars, start, n) {
        let m: usize = tidy_len(&chars, start);
        assert(chars@.take(n as int).take(start as int) =~= chars@.take(start as int));
        let base = string_of(&chars, 0, m);
        assert(base@ =~= parent_path(path@));
        join(base.as_str(), name)
    } else {
        join(path, name)
    }
}

/// The path with another extension.
pub fn with_extension(path: &str, ext: &str) -> (r: String)
    ensures
        r@ == with_ext(path@, ext@),
{
    let chars = chars_of(path);
    assert(chars@.take(chars@.len() as int) =~= chars@);
    let n: usize = tidy_len(&chars, chars.len());
    let start: usize = name_start_of(&chars, n);
    assert(last_part(path@) =~= chars@.subrange(start as int, n as int));
    if !is_name(&chars, start, n) {
        return String::from_str(path);
    }
    let end: usize = stem_end(&chars, start, n);
    let mut out = string_of(&chars, 0, end);
    out.push('.');
    out.append(ext);
    assert(out@ =~= with_ext(path@, ext@));
    out
}

} // verus!
