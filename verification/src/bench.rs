//! Benchmark of the router on well-known sailing routes.

use vstd::prelude::*;
use vstd::relations::{sorted_by, total_ordering};
use vstd::string::*;
use crate::oracle::{call1, function1, value1};

verus! {

/// Number of routes in the table.
pub const NUM_ROUTES: usize = 20;

/// How many of them, from the first on, are sailing routes. The others are
/// transits of passages.
pub const NUM_SAILING_ROUTES: usize = 10;

/// A route to measure. Coordinates are in hundredths of a degree.
#[derive(Debug, Clone, Copy, PartialEq, Eq)]
pub struct BenchRoute {
    pub name: &'static str,
    pub from_lat: i32,
    pub from_lon: i32,
    pub to_lat: i32,
    pub to_lon: i32,
    pub is_passage: bool,
}

/// Name, latitude and longitude of the start, latitude and longitude of the
/// end.
pub type RouteRow = (Seq<char>, int, int, int, int);

/// The table of routes.
pub open spec fn route_row(i: int) -> RouteRow {
    if i == 0 {
        ("English Channel"@, 5111, 132, 5097, 186)
    } else if i == 1 {
        ("Aegean Hop"@, 3685, 2828, 3644, 2823)
    } else if i == 2 {
        ("Strait of Gibraltar"@, 3613, -535, 3579, -581)
    } else if i == 3 {
        ("Baltic Crossing"@, 6014, 2497, 5945, 2476)
    } else if i == 4 {
        ("Balearic Sea"@, 3955, 264, 4137, 218)
    } else if i == 5 {
        ("Florida Strait"@, 2455, -8179, 2315, -8235)
    } else if i == 6 {
        ("Malacca Route"@, 126, 10386, 788, 9838)
    } else if i == 7 {
        ("Tasman Sea"@, -3386, 15128, -3683, 17478)
    } else if i == 8 {
        ("South Atlantic"@, -3392, 1843, -2291, -4316)
    } else if i == 9 {
        ("North Atlantic"@, 4065, -7403, 5089, -139)
    } else if i == 10 {
        ("Suez Canal"@, 2950, 3285, 3150, 3200)
    } else if i == 11 {
        ("Panama Canal"@, 880, -7945, 940, -8005)
    } else if i == 12 {
        ("Kiel Canal"@, 5440, 1020, 5425, 910)
    } else if i == 13 {
        ("Corinth Canal"@, 3795, 2295, 3788, 2305)
    } else if i == 14 {
        ("Bosphorus"@, 4085, 2890, 4135, 2915)
    } else if i == 15 {
        ("Dardanelles"@, 4050, 2672, 4000, 2615)
    } else if i == 16 {
        ("Malacca Strait"@, 130, 10390, 115, 10345)
    } else if i == 17 {
        ("Singapore Strait"@, 130, 10380, 122, 10420)
    } else if i == 18 {
        ("Messina Strait"@, 3830, 1565, 3805, 1567)
    } else {
        ("Dover Strait"@, 5115, 130, 5085, 175)
    }
}

impl BenchRoute {
    /// The route is row `i` of the table.
    pub open spec fn is_row(self, i: int) -> bool {
        &&& (
            self.name@,
            self.from_lat as int,
            self.from_lon as int,
            self.to_lat as int,
            self.to_lon as int,
        ) == route_row(i)
        &&& self.is_passage == (i >= NUM_SAILING_ROUTES)
    }
}

fn route(
    name: &'static str,
    from_lat: i32,
    from_lon: i32,
    to_lat: i32,
    to_lon: i32,
    i: usize,
) -> (r: BenchRoute)
    ensures
        r.name@ == name@,
        r.from_lat == from_lat,
        r.from_lon == from_lon,
        r.to_lat == to_lat,
        r.to_lon == to_lon,
        r.is_passage == (i >= NUM_SAILING_ROUTES),
{
    BenchRoute { name, from_lat, from_lon, to_lat, to_lon, is_passage: i >= NUM_SAILING_ROUTES }
}

/// Row `i` of the table.
pub fn bench_route(i: usize) -> (r: BenchRoute)
    requires
        i < NUM_ROUTES,
    ensures
        r.is_row(i as int),
{
    if i == 0 {
        route("English Channel", 5111, 132, 5097, 186, i)
    } else if i == 1 {
        route("Aegean Hop", 3685, 2828, 3644, 2823, i)
    } else if i == 2 {
        route("Strait of Gibraltar", 3613, -535, 3579, -581, i)
    } else if i == 3 {
        route("Baltic Crossing", 6014, 2497, 5945, 2476, i)
    } else if i == 4 {
        route("Balearic Sea", 3955, 264, 4137, 218, i)
    } else if i == 5 {
        route("Florida Strait", 2455, -8179, 2315, -8235, i)
    } else if i == 6 {
        route("Malacca Route", 126, 10386, 788, 9838, i)
    } else if i == 7 {
        route("Tasman Sea", -3386, 15128, -3683, 17478, i)
    } else if i == 8 {
        route("South Atlantic", -3392, 1843, -2291, -4316, i)
    } else if i == 9 {
        route("North Atlantic", 4065, -7403, 5089, -139, i)
    } else if i == 10 {
        route("Suez Canal", 2950, 3285, 3150, 3200, i)
    } else if i == 11 {
        route("Panama Canal", 880, -7945, 940, -8005, i)
    } else if i == 12 {
        route("Kiel Canal", 5440, 1020, 5425, 910, i)
    } else if i == 13 {
        route("Corinth Canal", 3795, 2295, 3788, 2305, i)
    } else if i == 14 {
        route("Bosphorus", 4085, 2890, 4135, 2915, i)
    } else if i == 15 {
        route("Dardanelles", 4050, 2672, 4000, 2615, i)
    } else if i == 16 {
        route("Malacca Strait", 130, 10390, 115, 10345, i)
    } else if i == 17 {
        route("Singapore Strait", 130, 10380, 122, 10420, i)
    } else if i == 18 {
        route("Messina Strait", 3830, 1565, 3805, 1567, i)
    } else {
        route("Dover Strait", 5115, 130, 5085, 175, i)
    }
}

/// What a trial run says of a route.
#[derive(Debug, Clone, Copy, PartialEq, Eq, Structural)]
pub enum Trial {
    /// An end snaps to no node of the graph.
    NotInGraph,
    /// No way leads from one end to the other.
    NoRoute,
    Routable,
}

/// The rows among the first `n` that can be measured.
pub open spec fn routable<F: Fn(usize) -> Trial>(trial: F, n: nat) -> Seq<int>
    decreases n,
{
    if n == 0 {
        Seq::empty()
    } else if value1(trial, (n - 1) as usize) == Trial::Routable {
        routable(trial, (n - 1) as nat).push(n - 1)
    } else {
        routable(trial, (n - 1) as nat)
    }
}

/// A row is measured exactly if its trial finds a route, and rows stay in their order.
pub proof fn lemma_routable<F: Fn(usize) -> Trial>(trial: F, n: nat)
    requires
        n <= usize::MAX,
    ensures
        forall|i: int| #[trigger]
            routable(trial, n).contains(i) <==> 0 <= i < n && value1(trial, i as usize)
                == Trial::Routable,
        forall|j: int, k: int|
            0 <= j < k < routable(trial, n).len() ==> #[trigger] routable(trial, n)[j]
                < #[trigger] routable(trial, n)[k],
    decreases n,
{
    if n > 0 {
        let m = (n - 1) as nat;
        lemma_routable(trial, m);
        let before = routable(trial, m);
        let all = routable(trial, n);
        assert forall|i: int| #[trigger] all.contains(i) <==> 0 <= i < n && value1(
            trial,
            i as usize,
        ) == Trial::Routable by {
            if value1(trial, m as usize) == Trial::Routable {
                assert(all =~= before + seq![n - 1]);
                crate::cells::lemma_contains_concat(before, seq![n - 1], i);
                assert(seq![n - 1][0] == n - 1);
            }
        }
        assert forall|j: int, k: int| 0 <= j < k < all.len() implies #[trigger] all[j]
            < #[trigger] all[k] by {
            assert(before.contains(before[j]));
        }
    }
}

/// The routes of the table that can be measured, in its order.
pub fn resolve_routes<F: Fn(usize) -> Trial>(trial: &F) -> (r: Vec<BenchRoute>)
    requires
        function1(*trial),
    ensures
        r@.len() == routable(*trial, NUM_ROUTES as nat).len(),
        forall|k: int|
            0 <= k < r@.len() ==> (#[trigger] r@[k]).is_row(
                routable(*trial, NUM_ROUTES as nat)[k],
            ),
{
    let mut out: Vec<BenchRoute> = Vec::new();
    let mut i: usize = 0;
    while i < NUM_ROUTES
        invariant
            i <= NUM_ROUTES,
            function1(*trial),
            out@.len() == routable(*trial, i as nat).len(),
            forall|k: int|
                0 <= k < out@.len() ==> (#[trigger] out@[k]).is_row(routable(*trial, i as nat)[k]),
        decreases NUM_ROUTES - i,
    {
        if call1(trial, i) == Trial::Routable {
            out.push(bench_route(i));
        }
        i = i + 1;
    }
    out
}

/// What was measured of a route. `Q` is a point.
pub struct RouteStats<Q> {
    pub name: String,
    /// In micro-nm.
    pub distance: u64,
    pub raw_hops: usize,
    pub smooth_hops: usize,
    pub timings_us: Vec<u64>,
    pub is_passage: bool,
    pub coordinates: Vec<Q>,
    pub from: Q,
    pub to: Q,
}

/// The order of numbers.
pub open spec fn at_most() -> spec_fn(u64, u64) -> bool {
    |a: u64, b: u64| a <= b
}

/// The timings from the shortest to the longest.
pub open spec fn ascending(timings: Seq<u64>) -> Seq<u64> {
    timings.sort_by(at_most())
}

/// The timing below which `p` percent of the others are; 0 where there is none.
pub open spec fn percentile_of(timings: Seq<u64>, p: int) -> u64 {
    let n = timings.len();
    if n == 0 {
        0
    } else if n * p / 100 < n {
        ascending(timings)[n * p / 100]
    } else {
        ascending(timings)[n - 1]
    }
}

/// The shortest timing; 0 where there is none.
pub open spec fn least_of(timings: Seq<u64>) -> u64 {
    if timings.len() == 0 {
        0
    } else {
        ascending(timings)[0]
    }
}

/// The longest timing; 0 where there is none.
pub open spec fn greatest_of(timings: Seq<u64>) -> u64 {
    if timings.len() == 0 {
        0
    } else {
        ascending(timings).last()
    }
}

/// `m` is the shortest timing, or 0 where there is none.
pub open spec fn is_least(timings: Seq<u64>, m: u64) -> bool {
    if timings.len() == 0 {
        m == 0
    } else {
        timings.contains(m) && forall|i: int| 0 <= i < timings.len() ==> m <= #[trigger] timings[i]
    }
}

/// `m` is the longest timing, or 0 where there is none.
pub open spec fn is_greatest(timings: Seq<u64>, m: u64) -> bool {
    if timings.len() == 0 {
        m == 0
    } else {
        timings.contains(m) && forall|i: int| 0 <= i < timings.len() ==> m >= #[trigger] timings[i]
    }
}

proof fn lemma_ascending(timings: Seq<u64>, s: Seq<u64>)
    requires
        forall|i: int, j: int| 0 <= i <= j < s.len() ==> #[trigger] s[i] <= #[trigger] s[j],
        s.to_multiset() == timings.to_multiset(),
    ensures
        s == ascending(timings),
{
    let leq = at_most();
    assert(total_ordering(leq));
    timings.lemma_sort_by_ensures(leq);
    assert(sorted_by(s, leq));
    vstd::seq_lib::lemma_sorted_unique(s, ascending(timings), leq);
}

proof fn lemma_ends(timings: Seq<u64>, m: u64)
    ensures
        ascending(timings).len() == timings.len(),
        is_least(timings, m) <==> m == least_of(timings),
        is_greatest(timings, m) <==> m == greatest_of(timings),
{
    broadcast use vstd::seq_lib::group_to_multiset_ensures;

    let s = ascending(timings);
    let leq = at_most();
    assert(total_ordering(leq));
    timings.lemma_sort_by_ensures(leq);
    assert(s.to_multiset().len() == timings.to_multiset().len());
    if timings.len() > 0 {
        assert(s.contains(s[0]) && s.contains(s.last()));
        assert(timings.contains(s[0]) && timings.contains(s.last()));
        assert forall|i: int| 0 <= i < timings.len() implies s[0] <= #[trigger] timings[i]
            <= s.last() by {
            assert(timings.to_multiset().contains(timings[i]));
            assert(s.contains(timings[i]));
            let j = choose|j: int| 0 <= j < s.len() && s[j] == timings[i];
            assert(leq(s[0], s[j]) && leq(s[j], s.last()));
        }
        let a = choose|a: int| 0 <= a < timings.len() && timings[a] == s[0];
        let b = choose|b: int| 0 <= b < timings.len() && timings[b] == s.last();
        assert(timings[a] == s[0] && timings[b] == s.last());
    }
}

impl<Q> RouteStats<Q> {
    pub fn sorted_timings(&self) -> (r: Vec<u64>)
        ensures
            r@ == ascending(self.timings_us@),
            r@.len() == self.timings_us@.len(),
    {
        broadcast use vstd::seq_lib::group_to_multiset_ensures;

        let ghost all = self.timings_us@;
        let mut out: Vec<u64> = Vec::new();
        let mut i: usize = 0;
        assert(all.take(0) =~= out@);
        while i < self.timings_us.len()
            invariant
                all == self.timings_us@,
                i <= all.len(),
                out@.len() == i,
                out@.to_multiset() == all.take(i as int).to_multiset(),
                forall|a: int, b: int|
                    0 <= a <= b < out@.len() ==> #[trigger] out@[a] <= #[trigger] out@[b],
            decreases all.len() - i,
        {
            let t: u64 = self.timings_us[i];
            let mut k: usize = out.len();
            while k > 0 && out[k - 1] > t
                invariant
                    k <= out@.len(),
                    forall|a: int| k <= a < out@.len() ==> #[trigger] out@[a] > t,
                decreases k,
            {
                k = k - 1;
            }
            let ghost before = out@;
            out.insert(k, t);
            proof {
                assert(all.take(i + 1) =~= all.take(i as int).push(t));
                vstd::seq_lib::to_multiset_insert(before, k as int, t);
                vstd::seq_lib::to_multiset_build(all.take(i as int), t);
                assert(out@ == before.insert(k as int, t));
                assert(out@.to_multiset() == before.to_multiset().insert(t));
                assert(before.to_multiset() == all.take(i as int).to_multiset());
                assert(all.take(i + 1).to_multiset() == all.take(i as int).to_multiset().insert(t));
                assert forall|a: int, b: int| 0 <= a <= b < out@.len() implies #[trigger] out@[a]
                    <= #[trigger] out@[b] by {
                    let a1 = if a < k {
                        a
                    } else {
                        a - 1
                    };
                    let b1 = if b < k {
                        b
                    } else {
                        b - 1
                    };
                    if a != k && b != k {
                        assert(before[a1] <= before[b1]);
                    } else if a == k && b != k {
                        assert(before[b1] > t);
                    } else if b == k && a != k {
                        assert(before[a1] <= before[k - 1]);
                    }
                }
            }
            i = i + 1;
        }
        proof {
            assert(all.take(i as int) =~= all);
            lemma_ascending(all, out@);
        }
        out
    }

    pub fn min_us(&self) -> (r: u64)
        ensures
            is_least(self.timings_us@, r),
            r == least_of(self.timings_us@),
    {
        if self.timings_us.len() == 0 {
            return 0;
        }
        let mut best: u64 = self.timings_us[0];
        let mut i: usize = 1;
        while i < self.timings_us.len()
            invariant
                1 <= i <= self.timings_us@.len(),
                self.timings_us@.contains(best),
                forall|k: int| 0 <= k < i ==> best <= #[trigger] self.timings_us@[k],
            decreases self.timings_us@.len() - i,
        {
            if self.timings_us[i] < best {
                best = self.timings_us[i];
            }
            i = i + 1;
        }
        proof {
            lemma_ends(self.timings_us@, best);
        }
        best
    }

    pub fn max_us(&self) -> (r: u64)
        ensures
            is_greatest(self.timings_us@, r),
            r == greatest_of(self.timings_us@),
    {
        if self.timings_us.len() == 0 {
            return 0;
        }
        let mut best: u64 = self.timings_us[0];
        let mut i: usize = 1;
        while i < self.timings_us.len()
            invariant
                1 <= i <= self.timings_us@.len(),
                self.timings_us@.contains(best),
                forall|k: int| 0 <= k < i ==> best >= #[trigger] self.timings_us@[k],
            decreases self.timings_us@.len() - i,
        {
            if self.timings_us[i] > best {
                best = self.timings_us[i];
            }
            i = i + 1;
        }
        proof {
            lemma_ends(self.timings_us@, best);
        }
        best
    }

    /// The timing below which `p` percent of the others are.
    pub fn percentile(&self, p: u64) -> (r: u64)
        ensures
            r == percentile_of(self.timings_us@, p as int),
    {
        let sorted: Vec<u64> = self.sorted_timings();
        let n: usize = sorted.len();
        if n == 0 {
            return 0;
        }
        assert(n * p <= u64::MAX * u64::MAX) by (nonlinear_arith)
            requires
                0 <= n <= u64::MAX,
                0 <= p <= u64::MAX,
        ;
        let k: u128 = n as u128 * p as u128 / 100;
        if k < n as u128 {
            sorted[k as usize]
        } else {
            sorted[n - 1]
        }
    }

    pub fn p50_us(&self) -> (r: u64)
        ensures
            r == percentile_of(self.timings_us@, 50),
    {
        self.percentile(50)
    }

    pub fn p95_us(&self) -> (r: u64)
        ensures
            r == percentile_of(self.timings_us@, 95),
    {
        self.percentile(95)
    }
}

/// The percentile is the timing that comes behind `p` percent of them, rounded down, in
/// any order from the shortest to the longest; at least the last one.
pub proof fn lemma_percentile_in_order(timings: Seq<u64>, s: Seq<u64>, p: int, k: int)
    requires
        s.len() > 0,
        forall|i: int, j: int| 0 <= i <= j < s.len() ==> #[trigger] s[i] <= #[trigger] s[j],
        s.to_multiset() == timings.to_multiset(),
        100 * k <= s.len() * p < 100 * (k + 1),
        0 <= k,
    ensures
        k < s.len() ==> percentile_of(timings, p) == s[k],
        k >= s.len() ==> percentile_of(timings, p) == s.last(),
        least_of(timings) == s[0],
        greatest_of(timings) == s.last(),
{
    broadcast use vstd::seq_lib::group_to_multiset_ensures;

    lemma_ascending(timings, s);
    lemma_ends(timings, 0);
    assert(timings.len() * p / 100 == k);
}

/// Percentiles do not fall as `p` grows, and none leaves the range of the
/// timings.
pub proof fn lemma_percentiles(timings: Seq<u64>, p: int, q: int)
    requires
        timings.len() > 0,
        0 <= p <= q,
    ensures
        least_of(timings) <= percentile_of(timings, p) <= percentile_of(timings, q) <= greatest_of(
            timings,
        ),
{
    let n = timings.len() as int;
    let s = ascending(timings);
    let leq = at_most();
    assert(total_ordering(leq));
    timings.lemma_sort_by_ensures(leq);
    lemma_ends(timings, 0);
    let a = if n * p / 100 < n {
        n * p / 100
    } else {
        n - 1
    };
    let b = if n * q / 100 < n {
        n * q / 100
    } else {
        n - 1
    };
    assert(0 <= n * p <= n * q) by (nonlinear_arith)
        requires
            n > 0,
            0 <= p <= q,
    ;
    assert(0 <= a <= b < n);
    assert(leq(s[0], s[a]) && leq(s[a], s[b]) && leq(s[b], s[n - 1]));
}

} // verus!
