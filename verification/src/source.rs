//! The source that a cloud build compiles, summed up in a hash.

use vstd::prelude::*;
use vstd::relations::{sorted_by, total_ordering};
use vstd::string::*;
use std::collections::hash_map::DefaultHasher;
use std::hash::Hasher;
use vstd::std_specs::hash::DefaultHasherAdditionalSpecFns;
use crate::path::{ext, extension, join, joined};
use crate::text::{chars_of, hex_digits, push_hex_digits, same_text, stands_at};

verus! {

/// The length of a list of bytes, as eight bytes, low first.
pub open spec fn length_bytes(n: nat, k: nat) -> Seq<u8>
    decreases k,
{
    if k == 0 {
        Seq::empty()
    } else {
        seq![(n % 256) as u8] + length_bytes(n / 256, (k - 1) as nat)
    }
}

fn length_of(n: u64) -> (r: Vec<u8>)
    ensures
        r@ == length_bytes(n as nat, 8),
{
    let mut out: Vec<u8> = Vec::new();
    let mut rest: u64 = n;
    let mut k: u64 = 8;
    let ghost whole = length_bytes(n as nat, 8);
    assert(out@ + length_bytes(rest as nat, 8) =~= whole);
    while k > 0
        invariant
            k <= 8,
            out@ + length_bytes(rest as nat, k as nat) == whole,
        decreases k,
    {
        let ghost before = out@;
        out.push((rest % 256) as u8);
        assert(before + length_bytes(rest as nat, k as nat) =~= out@ + length_bytes(
            (rest / 256) as nat,
            (k - 1) as nat,
        ));
        rest = rest / 256;
        k = k - 1;
    }
    assert(out@ + length_bytes(rest as nat, 0) =~= out@);
    out
}

/// A file of the source: its path and what it holds.
pub struct SourceFile {
    pub path: String,
    pub contents: Vec<u8>,
}

/// Path and contents of a file.
pub type Entry = (Seq<char>, Seq<u8>);

impl View for SourceFile {
    type V = Entry;

    open spec fn view(&self) -> Entry {
        (self.path@, self.contents@)
    }
}

/// Paths and contents of a list of files.
pub open spec fn entries(files: Seq<SourceFile>) -> Seq<Entry> {
    files.map_values(|f: SourceFile| f@)
}

/// The file counts: it is a Rust file among the crates, or one of the two that
/// say what the workspace is built from.
pub open spec fn counts(root: Seq<char>, path: Seq<char>) -> bool {
    ||| stands_at(path, joined(root, "crates"@).push('/'), 0) && ext(path) == Some("rs"@)
    ||| path == joined(root, "Cargo.toml"@)
    ||| path == joined(root, "Cargo.lock"@)
}

fn starts_with(s: &str, part: &str) -> (r: bool)
    ensures
        r == stands_at(s@, part@, 0),
{
    let a = chars_of(s);
    let b = chars_of(part);
    if b.len() > a.len() {
        return false;
    }
    let mut i: usize = 0;
    while i < b.len()
        invariant
            a@ == s@,
            b@ == part@,
            i <= b@.len() <= a@.len(),
            forall|k: int| 0 <= k < i ==> #[trigger] a@[k] == b@[k],
        decreases b@.len() - i,
    {
        if a[i] != b[i] {
            assert(s@.subrange(0, part@.len() as int)[i as int] != part@[i as int]);
            return false;
        }
        i = i + 1;
    }
    assert(s@.subrange(0, part@.len() as int) =~= part@);
    true
}

/// Computes [`counts`].
pub fn is_source(root: &str, path: &str) -> (r: bool)
    ensures
        r == counts(root@, path@),
{
    let mut crates = join(root, "crates");
    crates.push('/');
    if starts_with(path, crates.as_str()) {
        match extension(path) {
            Some(e) => if same_text(e.as_str(), "rs") {
                return true;
            },
            None => {},
        }
    }
    same_text(path, join(root, "Cargo.toml").as_str()) || same_text(
        path,
        join(root, "Cargo.lock").as_str(),
    )
}

/// The files that count, in the order given.
pub open spec fn counted(root: Seq<char>, list: Seq<Entry>) -> Seq<Entry>
    decreases list.len(),
{
    if list.len() == 0 {
        list
    } else {
        let before = counted(root, list.drop_last());
        if counts(root, list.last().0) {
            before.push(list.last())
        } else {
            before
        }
    }
}

/// No place further on comes first.
pub open spec fn lex_le(a: Seq<int>, b: Seq<int>) -> bool
    decreases a.len(),
{
    if a.len() == 0 {
        true
    } else if b.len() == 0 {
        false
    } else if a[0] != b[0] {
        a[0] < b[0]
    } else {
        lex_le(a.drop_first(), b.drop_first())
    }
}

/// Rank of a character in a path. The slash comes first, so that paths compare
/// component by component.
pub open spec fn rank(c: char) -> int {
    if c == '/' {
        0
    } else {
        c as u32 + 1
    }
}

pub open spec fn path_key(path: Seq<char>) -> Seq<int> {
    path.map_values(|c: char| rank(c))
}

pub open spec fn bytes_key(bytes: Seq<u8>) -> Seq<int> {
    bytes.map_values(|b: u8| b as int)
}

/// Files in the order of their paths; of two with one path, which no directory
/// holds, in that of their contents.
pub open spec fn entry_le(x: Entry, y: Entry) -> bool {
    if x.0 == y.0 {
        lex_le(bytes_key(x.1), bytes_key(y.1))
    } else {
        lex_le(path_key(x.0), path_key(y.0))
    }
}

pub open spec fn entry_order() -> spec_fn(Entry, Entry) -> bool {
    |x: Entry, y: Entry| entry_le(x, y)
}

/// The files in their order.
pub open spec fn in_order(list: Seq<Entry>) -> Seq<Entry> {
    list.sort_by(entry_order())
}

proof fn lemma_lex_refl(a: Seq<int>)
    ensures
        lex_le(a, a),
    decreases a.len(),
{
    if a.len() > 0 {
        lemma_lex_refl(a.drop_first());
    }
}

proof fn lemma_lex_total(a: Seq<int>, b: Seq<int>)
    ensures
        lex_le(a, b) || lex_le(b, a),
    decreases a.len(),
{
    if a.len() > 0 && b.len() > 0 && a[0] == b[0] {
        lemma_lex_total(a.drop_first(), b.drop_first());
    }
}

proof fn lemma_lex_antisym(a: Seq<int>, b: Seq<int>)
    requires
        lex_le(a, b),
        lex_le(b, a),
    ensures
        a == b,
    decreases a.len(),
{
    if a.len() > 0 && b.len() > 0 {
        lemma_lex_antisym(a.drop_first(), b.drop_first());
        assert(a =~= seq![a[0]] + a.drop_first());
        assert(b =~= seq![b[0]] + b.drop_first());
    } else {
        assert(a =~= b);
    }
}

proof fn lemma_lex_trans(a: Seq<int>, b: Seq<int>, c: Seq<int>)
    requires
        lex_le(a, b),
        lex_le(b, c),
    ensures
        lex_le(a, c),
    decreases a.len(),
{
    if a.len() > 0 && b.len() > 0 && c.len() > 0 && a[0] == b[0] && b[0] == c[0] {
        lemma_lex_trans(a.drop_first(), b.drop_first(), c.drop_first());
    }
}

/// Characters have ranks of their own.
proof fn lemma_rank(a: char, b: char)
    ensures
        rank(a) == rank(b) ==> a == b,
{
    if a != '/' && b != '/' && rank(a) == rank(b) {
        assert(a as u32 == b as u32);
    }
}

proof fn lemma_path_key(a: Seq<char>, b: Seq<char>)
    requires
        path_key(a) == path_key(b),
    ensures
        a == b,
{
    assert(a.len() == path_key(a).len() && b.len() == path_key(b).len());
    assert forall|i: int| 0 <= i < a.len() implies a[i] == b[i] by {
        assert(path_key(a)[i] == rank(a[i]) && path_key(b)[i] == rank(b[i]));
        lemma_rank(a[i], b[i]);
    }
    assert(a =~= b);
}

proof fn lemma_bytes_key(a: Seq<u8>, b: Seq<u8>)
    requires
        bytes_key(a) == bytes_key(b),
    ensures
        a == b,
{
    assert(a.len() == bytes_key(a).len() && b.len() == bytes_key(b).len());
    assert forall|i: int| 0 <= i < a.len() implies a[i] == b[i] by {
        assert(bytes_key(a)[i] == a[i] as int && bytes_key(b)[i] == b[i] as int);
    }
    assert(a =~= b);
}

/// Any two files have their order.
proof fn lemma_entry_order()
    ensures
        total_ordering(entry_order()),
{
    let leq = entry_order();
    assert forall|x: Entry| #[trigger] leq(x, x) by {
        lemma_lex_refl(bytes_key(x.1));
    }
    assert forall|x: Entry, y: Entry| #[trigger] leq(x, y) && #[trigger] leq(y, x) implies x == y by {
        if x.0 == y.0 {
            lemma_lex_antisym(bytes_key(x.1), bytes_key(y.1));
            lemma_bytes_key(x.1, y.1);
        } else {
            lemma_lex_antisym(path_key(x.0), path_key(y.0));
            lemma_path_key(x.0, y.0);
        }
    }
    assert forall|x: Entry, y: Entry, z: Entry| #[trigger] leq(x, y) && #[trigger] leq(
        y,
        z,
    ) implies leq(x, z) by {
        if x.0 == y.0 && y.0 == z.0 {
            lemma_lex_trans(bytes_key(x.1), bytes_key(y.1), bytes_key(z.1));
        } else {
            lemma_lex_refl(path_key(y.0));
            lemma_lex_trans(path_key(x.0), path_key(y.0), path_key(z.0));
            if x.0 == z.0 {
                lemma_lex_antisym(path_key(x.0), path_key(y.0));
                lemma_path_key(x.0, y.0);
            }
        }
    }
    assert forall|x: Entry, y: Entry| #[trigger] leq(x, y) || #[trigger] leq(y, x) by {
        lemma_lex_total(bytes_key(x.1), bytes_key(y.1));
        lemma_lex_total(path_key(x.0), path_key(y.0));
    }
}

fn rank_of(c: char) -> (r: u32)
    ensures
        r == rank(c),
{
    if c == '/' {
        0
    } else {
        c as u32 + 1
    }
}

/// The rest of a key from `i` on, which is no less than the end of the key.
proof fn lemma_lex_step(a: Seq<int>, b: Seq<int>, i: int)
    requires
        0 <= i < a.len(),
        i < b.len(),
    ensures
        lex_le(a.skip(i), b.skip(i)) == if a[i] != b[i] {
            a[i] < b[i]
        } else {
            lex_le(a.skip(i + 1), b.skip(i + 1))
        },
{
    assert(a.skip(i).drop_first() =~= a.skip(i + 1));
    assert(b.skip(i).drop_first() =~= b.skip(i + 1));
}

/// Computes [`entry_le`].
fn at_most(x: &SourceFile, y: &SourceFile) -> (r: bool)
    ensures
        r == entry_le(x@, y@),
{
    if same_text(x.path.as_str(), y.path.as_str()) {
        let ghost a = bytes_key(x.contents@);
        let ghost b = bytes_key(y.contents@);
        let mut i: usize = 0;
        assert(a.skip(0) =~= a && b.skip(0) =~= b);
        while i < x.contents.len() && i < y.contents.len() && x.contents[i] == y.contents[i]
            invariant
                a == bytes_key(x.contents@),
                b == bytes_key(y.contents@),
                i <= x.contents@.len(),
                i <= y.contents@.len(),
                lex_le(a, b) == lex_le(a.skip(i as int), b.skip(i as int)),
            decreases x.contents@.len() - i,
        {
            proof {
                lemma_lex_step(a, b, i as int);
            }
            i = i + 1;
        }
        if i >= x.contents.len() {
            return true;
        }
        if i >= y.contents.len() {
            return false;
        }
        proof {
            lemma_lex_step(a, b, i as int);
            assert(a[i as int] == x.contents@[i as int] && b[i as int] == y.contents@[i as int]);
        }
        x.contents[i] < y.contents[i]
    } else {
        let p = chars_of(x.path.as_str());
        let q = chars_of(y.path.as_str());
        let ghost a = path_key(p@);
        let ghost b = path_key(q@);
        let mut i: usize = 0;
        assert(a.skip(0) =~= a && b.skip(0) =~= b);
        while i < p.len() && i < q.len() && p[i] == q[i]
            invariant
                a == path_key(p@),
                b == path_key(q@),
                i <= p@.len(),
                i <= q@.len(),
                lex_le(a, b) == lex_le(a.skip(i as int), b.skip(i as int)),
            decreases p@.len() - i,
        {
            proof {
                lemma_lex_step(a, b, i as int);
            }
            i = i + 1;
        }
        if i >= p.len() {
            return true;
        }
        if i >= q.len() {
            return false;
        }
        proof {
            lemma_lex_step(a, b, i as int);
            assert(a[i as int] == rank(p@[i as int]) && b[i as int] == rank(q@[i as int]));
            lemma_rank(p@[i as int], q@[i as int]);
        }
        rank_of(p[i]) < rank_of(q[i])
    }
}

/// The files with the given numbers.
pub open spec fn picked(files: Seq<SourceFile>, numbers: Seq<usize>) -> Seq<Entry> {
    numbers.map_values(|i: usize| files[i as int]@)
}

/// Numbers of the files that count, in the order of the files.
fn sorted_sources(root: &str, files: &Vec<SourceFile>) -> (r: Vec<usize>)
    ensures
        picked(files@, r@) == in_order(counted(root@, entries(files@))),
        forall|k: int| 0 <= k < r@.len() ==> #[trigger] r@[k] < files@.len(),
{
    broadcast use vstd::seq_lib::group_to_multiset_ensures;

    let ghost all = entries(files@);
    let ghost leq = entry_order();
    proof {
        lemma_entry_order();
    }
    let mut out: Vec<usize> = Vec::new();
    let mut i: usize = 0;
    assert(all.take(0) =~= Seq::<Entry>::empty());
    assert(picked(files@, out@) =~= Seq::<Entry>::empty());
    while i < files.len()
        invariant
            all == entries(files@),
            leq == entry_order(),
            total_ordering(leq),
            i <= files@.len(),
            forall|k: int| 0 <= k < out@.len() ==> #[trigger] out@[k] < files@.len(),
            picked(files@, out@).to_multiset() == counted(
                root@,
                all.take(i as int),
            ).to_multiset(),
            sorted_by(picked(files@, out@), leq),
        decreases files@.len() - i,
    {
        let ghost e = files@[i as int]@;
        proof {
            assert(all.take(i + 1).drop_last() =~= all.take(i as int));
            assert(all.take(i + 1).last() == e);
        }
        if is_source(root, files[i].path.as_str()) {
            let ghost before = picked(files@, out@);
            let mut k: usize = out.len();
            while k > 0 && !at_most(&files[out[k - 1]], &files[i])
                invariant
                    i < files@.len(),
                    e == files@[i as int]@,
                    leq == entry_order(),
                    before == picked(files@, out@),
                    forall|k: int| 0 <= k < out@.len() ==> #[trigger] out@[k] < files@.len(),
                    k <= out@.len(),
                    forall|a: int| k <= a < out@.len() ==> !leq(#[trigger] before[a], e),
                decreases k,
            {
                k = k - 1;
            }
            let ghost kept = out@;
            out.insert(k, i);
            proof {
                assert(picked(files@, out@) =~= before.insert(k as int, e));
                vstd::seq_lib::to_multiset_insert(before, k as int, e);
                vstd::seq_lib::to_multiset_build(counted(root@, all.take(i as int)), e);
                lemma_insert_sorted(before, e, k as int);
                assert forall|j: int| 0 <= j < out@.len() implies #[trigger] out@[j]
                    < files@.len() by {
                    if j < k {
                        assert(out@[j] == kept[j]);
                    } else if j > k {
                        assert(out@[j] == kept[j - 1]);
                    }
                }
            }
        }
        i = i + 1;
    }
    proof {
        assert(all.take(i as int) =~= all);
        let want = counted(root@, all);
        want.lemma_sort_by_ensures(leq);
        vstd::seq_lib::lemma_sorted_unique(picked(files@, out@), in_order(want), leq);
    }
    out
}

/// Put between what comes before it and what does not, a file keeps the order.
proof fn lemma_insert_sorted(list: Seq<Entry>, e: Entry, k: int)
    requires
        0 <= k <= list.len(),
        total_ordering(entry_order()),
        sorted_by(list, entry_order()),
        k > 0 ==> entry_le(list[k - 1], e),
        forall|a: int| k <= a < list.len() ==> !entry_le(#[trigger] list[a], e),
    ensures
        sorted_by(list.insert(k, e), entry_order()),
{
    let leq = entry_order();
    let more = list.insert(k, e);
    assert forall|i: int, j: int| 0 <= i < j < more.len() implies #[trigger] leq(
        more[i],
        more[j],
    ) by {
        if i < k && j < k {
            assert(leq(list[i], list[j]));
        } else if i < k && j == k {
            if i < k - 1 {
                assert(leq(list[i], list[k - 1]));
            }
            assert(leq(list[k - 1], e));
        } else if i < k {
            assert(leq(list[i], list[j - 1]));
        } else if i == k {
            assert(!leq(list[j - 1], e));
            assert(leq(e, list[j - 1]) || leq(list[j - 1], e));
        } else {
            assert(leq(list[i - 1], list[j - 1]));
        }
    }
}

/// What goes into the hash for the first `n` files.
pub open spec fn hashed(list: Seq<Entry>, n: nat) -> Seq<Seq<u8>>
    decreases n,
{
    if n == 0 {
        Seq::empty()
    } else {
        let (path, contents) = list[n - 1];
        let bytes = vstd::utf8::encode_utf8(path);
        hashed(list, (n - 1) as nat).push(length_bytes(bytes.len(), 8)).push(bytes).push(
            length_bytes(contents.len(), 8),
        ).push(contents)
    }
}

/// The hash of a tree of files: over those that count, in the order of their
/// paths, as sixteen hexadecimal digits.
pub open spec fn tree_hash(root: Seq<char>, tree: Seq<Entry>) -> Seq<char> {
    let list = in_order(counted(root, tree));
    hex_digits(DefaultHasher::spec_finish(hashed(list, list.len())) as nat, 16)
}

/// Computes [`tree_hash`] of the files under `root`. A server whose marker shows
/// another hash was not compiled from this source.
pub fn source_hash(root: &str, files: &Vec<SourceFile>) -> (r: String)
    ensures
        r@ == tree_hash(root@, entries(files@)),
{
    let numbers = sorted_sources(root, files);
    let ghost list = in_order(counted(root@, entries(files@)));
    let mut hasher = DefaultHasher::new();
    for i in 0..numbers.len()
        invariant
            list == picked(files@, numbers@),
            forall|k: int| 0 <= k < numbers@.len() ==> #[trigger] numbers@[k] < files@.len(),
            hasher@ == hashed(list, i as nat),
    {
        let file = &files[numbers[i]];
        assert(list[i as int] == file@);
        let path = file.path.as_str().as_bytes();
        let path_len = length_of(path.len() as u64);
        let contents_len = length_of(file.contents.len() as u64);
        hasher.write(path_len.as_slice());
        hasher.write(path);
        hasher.write(contents_len.as_slice());
        hasher.write(file.contents.as_slice());
    }
    let mut out: String = String::new();
    push_hex_digits(&mut out, hasher.finish(), 16);
    assert(out@ =~= tree_hash(root@, entries(files@)));
    out
}

/// The hash does not depend on the order in which the files are met, nor on
/// files that do not count.
pub proof fn lemma_hash_of_sources(root: Seq<char>, a: Seq<Entry>, b: Seq<Entry>)
    requires
        forall|e: Entry|
            counts(root, e.0) ==> #[trigger] a.to_multiset().count(e) == b.to_multiset().count(e),
    ensures
        tree_hash(root, a) == tree_hash(root, b),
{
    let x = counted(root, a);
    let y = counted(root, b);
    let leq = entry_order();
    assert forall|e: Entry| x.to_multiset().count(e) == y.to_multiset().count(e) by {
        lemma_counted(root, a, e);
        lemma_counted(root, b, e);
        let n = a.to_multiset().count(e);
    }
    assert(x.to_multiset() =~= y.to_multiset());
    lemma_entry_order();
    x.lemma_sort_by_ensures(leq);
    y.lemma_sort_by_ensures(leq);
    vstd::seq_lib::lemma_sorted_unique(in_order(x), in_order(y), leq);
}

proof fn lemma_counted(root: Seq<char>, list: Seq<Entry>, e: Entry)
    ensures
        counted(root, list).to_multiset().count(e) == if counts(root, e.0) {
            list.to_multiset().count(e)
        } else {
            0
        },
    decreases list.len(),
{
    broadcast use vstd::seq_lib::group_to_multiset_ensures;

    if list.len() > 0 {
        let head = list.drop_last();
        lemma_counted(root, head, e);
        assert(list =~= head.push(list.last()));
        vstd::seq_lib::to_multiset_build(head, list.last());
        vstd::seq_lib::to_multiset_build(counted(root, head), list.last());
    } else {
        assert(list =~= Seq::<Entry>::empty());
    }
}

} // verus!
