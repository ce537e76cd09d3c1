//! Minimum over any stretch of a fixed list in constant time.

use vstd::prelude::*;

verus! {

/// Least of `v[i..=j]`.
pub open spec fn min_over(v: Seq<u8>, i: int, j: int) -> u8
    decreases j - i,
{
    if i >= j {
        v[i]
    } else {
        let rest = min_over(v, i, j - 1);
        if v[j] < rest {
            v[j]
        } else {
            rest
        }
    }
}

/// The minimum is one of the values and exceeds none.
pub proof fn lemma_min_over(v: Seq<u8>, i: int, j: int)
    requires
        0 <= i <= j < v.len(),
    ensures
        forall|k: int| i <= k <= j ==> min_over(v, i, j) <= #[trigger] v[k],
        exists|k: int| i <= k <= j && min_over(v, i, j) == #[trigger] v[k],
    decreases j - i,
{
    if i < j {
        lemma_min_over(v, i, j - 1);
        let k = choose|k: int| i <= k <= j - 1 && min_over(v, i, j - 1) == #[trigger] v[k];
        assert(v[k] == min_over(v, i, j) || v[j] == min_over(v, i, j));
    } else {
        assert(v[i] == min_over(v, i, j));
    }
}

/// Two stretches that leave no gap give the minimum of the whole.
proof fn lemma_min_union(v: Seq<u8>, i: int, a: int, b: int, j: int)
    requires
        0 <= i <= a <= j < v.len(),
        i <= b <= j,
        b <= a + 1,
    ensures
        min_over(v, i, j) == if min_over(v, b, j) < min_over(v, i, a) {
            min_over(v, b, j)
        } else {
            min_over(v, i, a)
        },
{
    lemma_min_over(v, i, j);
    lemma_min_over(v, i, a);
    lemma_min_over(v, b, j);
    let k = choose|k: int| i <= k <= j && min_over(v, i, j) == #[trigger] v[k];
    if k <= a {
        assert(min_over(v, i, a) <= v[k]);
    } else {
        assert(min_over(v, b, j) <= v[k]);
    }
}

/// 2 raised to `k`.
pub open spec fn two_to(k: nat) -> nat
    decreases k,
{
    if k == 0 {
        1
    } else {
        2 * two_to((k - 1) as nat)
    }
}

proof fn lemma_two_to_grows(a: nat, b: nat)
    requires
        a < b,
    ensures
        two_to(a) < two_to(b),
    decreases b,
{
    lemma_two_to_positive(a);
    if a + 1 < b {
        lemma_two_to_grows(a, (b - 1) as nat);
    }
    lemma_two_to_positive((b - 1) as nat);
}

proof fn lemma_two_to_positive(a: nat)
    ensures
        two_to(a) >= 1,
    decreases a,
{
    if a > 0 {
        lemma_two_to_positive((a - 1) as nat);
    }
}

/// Sparse table of minima: row `k` holds at `i` the least of the `2^k` values
/// from `i` on.
pub struct RangeMin {
    pub table: Vec<Vec<u8>>,
}

/// Row `k` of the table over `v`.
pub open spec fn row_ok(row: Seq<u8>, v: Seq<u8>, k: nat) -> bool {
    &&& row.len() + two_to(k) == v.len() + 1
    &&& forall|i: int| 0 <= i < row.len() ==> #[trigger] row[i] == min_over(v, i, i + two_to(k) - 1)
}

impl RangeMin {
    /// The list that the table is about.
    pub open spec fn values(&self) -> Seq<u8> {
        self.table@[0]@
    }

    pub open spec fn wf(&self) -> bool {
        &&& self.table@.len() > 0
        &&& self.values().len() > 0 ==> forall|k: int|
            0 <= k < self.table@.len() ==> row_ok(
                (#[trigger] self.table@[k])@,
                self.values(),
                k as nat,
            )
        &&& self.values().len() < two_to(self.table@.len())
    }

    /// Builds the table over `values`.
    pub fn build(values: &[u8]) -> (r: Self)
        ensures
            r.wf(),
            r.values() == values@,
    {
        let n: usize = values.len();
        let mut first: Vec<u8> = Vec::new();
        for i in 0..n
            invariant
                n == values@.len(),
                first@ == values@.take(i as int),
        {
            assert(values@.take(i + 1) =~= values@.take(i as int).push(values@[i as int]));
            first.push(values[i]);
        }
        assert(values@.take(n as int) =~= values@);
        let mut table: Vec<Vec<u8>> = Vec::new();
        table.push(first);
        let mut half: usize = 1;
        while half <= n / 2
            invariant
                n == values@.len(),
                table@.len() > 0,
                half as nat == two_to((table@.len() - 1) as nat),
                half >= 1,
                table@[0]@ == values@,
                n > 0 ==> forall|k: int|
                    0 <= k < table@.len() ==> row_ok((#[trigger] table@[k])@, values@, k as nat),
            decreases n - half,
        {
            let k: usize = table.len();
            let span: usize = 2 * half;
            let mut row: Vec<u8> = Vec::new();
            let count: usize = n - (span - 1);
            assert(row_ok(table@[k - 1]@, values@, (k - 1) as nat));
            for i in 0..count
                invariant
                    n == values@.len(),
                    k == table@.len(),
                    k > 0,
                    span == 2 * half,
                    span <= n,
                    count == n - span + 1,
                    half as nat == two_to((k - 1) as nat),
                    half >= 1,
                    row_ok(table@[k - 1]@, values@, (k - 1) as nat),
                    row@.len() == i,
                    forall|m: int|
                        0 <= m < i ==> #[trigger] row@[m] == min_over(values@, m, m + span - 1),
            {
                let a: u8 = table[k - 1][i];
                let b: u8 = table[k - 1][i + half];
                proof {
                    lemma_min_union(values@, i as int, i + half - 1, i + half, i + span - 1);
                }
                row.push(
                    if b < a {
                        b
                    } else {
                        a
                    },
                );
            }
            assert(row_ok(row@, values@, k as nat));
            table.push(row);
            half = span;
        }
        RangeMin { table }
    }

    /// Least of `values[i..=j]`.
    pub fn query(&self, i: usize, j: usize) -> (r: u8)
        requires
            self.wf(),
            i <= j < self.values().len(),
        ensures
            r == min_over(self.values(), i as int, j as int),
    {
        let n: usize = self.table[0].len();
        let levels: usize = self.table.len();
        let len: usize = j - i + 1;
        let mut k: usize = 0;
        let mut span: usize = 1;
        while span <= len / 2
            invariant
                self.wf(),
                i <= j < n,
                n == self.values().len(),
                levels == self.table@.len(),
                len == j - i + 1,
                span as nat == two_to(k as nat),
                1 <= span <= len,
                k < self.table@.len(),
            decreases len - span,
        {
            span = 2 * span;
            k = k + 1;
            proof {
                if k >= self.table@.len() {
                    if self.table@.len() < k {
                        lemma_two_to_grows(self.table@.len(), k as nat);
                    }
                }
            }
        }
        let ghost v = self.values();
        assert(row_ok(self.table@[k as int]@, v, k as nat));
        let a: u8 = self.table[k][i];
        let b: u8 = self.table[k][j - (span - 1)];
        proof {
            lemma_min_union(v, i as int, i + span - 1, j + 1 - span, j as int);
        }
        if b < a {
            b
        } else {
            a
        }
    }
}

} // verus!
