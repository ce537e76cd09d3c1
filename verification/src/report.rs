//! Reports on a benchmark.

use vstd::prelude::*;
use vstd::string::*;
use crate::bench::{greatest_of, least_of, percentile_of, RouteStats};
use crate::figures::{
    distance_text, format_distance, format_number, format_time, grouped, time_text,
};
use crate::text::{chars_of, decimal, push_decimal, same_text, string_of};

verus! {

/// The graph that was measured.
pub struct GraphMeta {
    pub nodes: u32,
    pub edges: u32,
    pub file: String,
}

/// The measurements of one route. The distance is in micro-nm.
pub struct RouteBenchResult {
    pub name: String,
    pub distance: u64,
    pub raw_hops: usize,
    pub smooth_hops: usize,
    pub min_us: u64,
    pub p50_us: u64,
    pub p95_us: u64,
    pub max_us: u64,
}

/// A benchmark, as it is kept for later comparison.
pub struct BenchResult {
    pub graph: GraphMeta,
    pub commit: String,
    pub timestamp: String,
    pub iterations: usize,
    pub routes: Vec<RouteBenchResult>,
}

impl RouteBenchResult {
    /// The result sums up the measurements.
    pub open spec fn sums_up<Q>(&self, s: &RouteStats<Q>) -> bool {
        &&& self.name@ == s.name@
        &&& self.distance == s.distance
        &&& self.raw_hops == s.raw_hops
        &&& self.smooth_hops == s.smooth_hops
        &&& self.min_us == least_of(s.timings_us@)
        &&& self.p50_us == percentile_of(s.timings_us@, 50)
        &&& self.p95_us == percentile_of(s.timings_us@, 95)
        &&& self.max_us == greatest_of(s.timings_us@)
    }
}

/// Sums up a benchmark.
pub fn build_result<Q>(
    stats: &Vec<RouteStats<Q>>,
    nodes: u32,
    edges: u32,
    graph_path: &str,
    commit: &str,
    timestamp: &str,
    iterations: usize,
) -> (r: BenchResult)
    ensures
        r.graph.nodes == nodes,
        r.graph.edges == edges,
        r.graph.file@ == graph_path@,
        r.commit@ == commit@,
        r.timestamp@ == timestamp@,
        r.iterations == iterations,
        r.routes@.len() == stats@.len(),
        forall|i: int| 0 <= i < stats@.len() ==> (#[trigger] r.routes@[i]).sums_up(&stats@[i]),
{
    let mut routes: Vec<RouteBenchResult> = Vec::new();
    let mut i: usize = 0;
    while i < stats.len()
        invariant
            i <= stats@.len(),
            routes@.len() == i,
            forall|k: int| 0 <= k < i ==> (#[trigger] routes@[k]).sums_up(&stats@[k]),
        decreases stats@.len() - i,
    {
        let s = &stats[i];
        routes.push(
            RouteBenchResult {
                name: String::from_str(s.name.as_str()),
                distance: s.distance,
                raw_hops: s.raw_hops,
                smooth_hops: s.smooth_hops,
                min_us: s.min_us(),
                p50_us: s.p50_us(),
                p95_us: s.p95_us(),
                max_us: s.max_us(),
            },
        );
        i = i + 1;
    }
    BenchResult {
        graph: GraphMeta { nodes, edges, file: String::from_str(graph_path) },
        commit: String::from_str(commit),
        timestamp: String::from_str(timestamp),
        iterations,
        routes,
    }
}

/// How a route does against an earlier benchmark.
#[derive(Debug, Clone, Copy, PartialEq, Eq, Structural)]
pub enum Verdict {
    /// The earlier benchmark did not have the route.
    New,
    /// More than a tenth slower.
    Regression,
    /// More than a tenth faster.
    Improved,
    Steady,
}

impl Verdict {
    pub open spec fn text(self) -> Seq<char> {
        match self {
            Verdict::New => "NEW"@,
            Verdict::Regression => "REGRESSION"@,
            Verdict::Improved => "IMPROVED"@,
            Verdict::Steady => "OK"@,
        }
    }

    pub fn word(self) -> (r: &'static str)
        ensures
            r@ == self.text(),
    {
        match self {
            Verdict::New => "NEW",
            Verdict::Regression => "REGRESSION",
            Verdict::Improved => "IMPROVED",
            Verdict::Steady => "OK",
        }
    }
}

/// The verdict on a median of `now`, where it was `before`. Against a median of
/// zero nothing is said.
pub open spec fn verdict_on(before: Option<u64>, now: u64) -> Verdict {
    match before {
        None => Verdict::New,
        Some(b) => if b == 0 {
            Verdict::Steady
        } else if 10 * now > 11 * b {
            Verdict::Regression
        } else if 10 * now < 9 * b {
            Verdict::Improved
        } else {
            Verdict::Steady
        },
    }
}

/// The median of the first route of that name, from the `i`-th on.
pub open spec fn median_of(routes: Seq<RouteBenchResult>, name: Seq<char>, i: int) -> Option<u64>
    decreases routes.len() - i,
{
    if i < 0 || i >= routes.len() {
        None
    } else if routes[i].name@ == name {
        Some(routes[i].p50_us)
    } else {
        median_of(routes, name, i + 1)
    }
}

/// The median that counts is that of the first route of the name, at place `k`. Where no
/// route has the name there is none.
pub proof fn lemma_median(routes: Seq<RouteBenchResult>, name: Seq<char>, i: int, k: int)
    requires
        0 <= i <= k <= routes.len(),
        forall|j: int| i <= j < k ==> (#[trigger] routes[j]).name@ != name,
    ensures
        k == routes.len() ==> median_of(routes, name, i) is None,
        k < routes.len() && routes[k].name@ == name ==> median_of(routes, name, i) == Some(
            routes[k].p50_us,
        ),
    decreases k - i,
{
    if i < k {
        assert(routes[i].name@ != name);
        lemma_median(routes, name, i + 1, k);
    }
}

/// A route is slower where its median grew by more than a tenth, faster where it fell by
/// more than a tenth, and steady in between. What is slower stays so as the median grows.
pub proof fn lemma_verdict(before: u64, now: u64, later: u64)
    requires
        before > 0,
        now <= later,
    ensures
        verdict_on(None, now) == Verdict::New,
        verdict_on(Some(0), now) == Verdict::Steady,
        verdict_on(Some(before), before) == Verdict::Steady,
        10 * (now - before) > before ==> verdict_on(Some(before), now) == Verdict::Regression,
        10 * (before - now) > before ==> verdict_on(Some(before), now) == Verdict::Improved,
        -before <= 10 * (now - before) <= before ==> verdict_on(Some(before), now)
            == Verdict::Steady,
        verdict_on(Some(before), now) == Verdict::Regression ==> verdict_on(Some(before), later)
            == Verdict::Regression,
{
}

/// Computes [`verdict_on`].
pub fn judge(before: Option<u64>, now: u64) -> (r: Verdict)
    ensures
        r == verdict_on(before, now),
{
    match before {
        None => Verdict::New,
        Some(b) => if b == 0 {
            Verdict::Steady
        } else if 10 * now as u128 > 11 * b as u128 {
            Verdict::Regression
        } else if (10 * now as u128) < 9 * b as u128 {
            Verdict::Improved
        } else {
            Verdict::Steady
        },
    }
}

/// The median of the first route of that name.
pub fn find_median(routes: &Vec<RouteBenchResult>, name: &str) -> (r: Option<u64>)
    ensures
        r == median_of(routes@, name@, 0),
{
    let mut i: usize = 0;
    while i < routes.len()
        invariant
            i <= routes@.len(),
            median_of(routes@, name@, 0) == median_of(routes@, name@, i as int),
        decreases routes@.len() - i,
    {
        if same_text(routes[i].name.as_str(), name) {
            return Some(routes[i].p50_us);
        }
        i = i + 1;
    }
    None
}

/// A benchmark against an earlier one: for each of its routes the earlier
/// median and the verdict.
pub struct Comparison {
    pub rows: Vec<(Option<u64>, Verdict)>,
    pub has_regression: bool,
}

/// Row `i` of the comparison.
pub open spec fn compared(current: &BenchResult, baseline: &BenchResult, i: int) -> (
    Option<u64>,
    Verdict,
) {
    let route = current.routes@[i];
    let before = median_of(baseline.routes@, route.name@, 0);
    (before, verdict_on(before, route.p50_us))
}

/// Compares a benchmark with an earlier one.
pub fn compare(current: &BenchResult, baseline: &BenchResult) -> (r: Comparison)
    ensures
        r.rows@.len() == current.routes@.len(),
        forall|i: int|
            0 <= i < r.rows@.len() ==> #[trigger] r.rows@[i] == compared(current, baseline, i),
        r.has_regression <==> exists|i: int|
            0 <= i < r.rows@.len() && (#[trigger] r.rows@[i]).1 == Verdict::Regression,
{
    let mut rows: Vec<(Option<u64>, Verdict)> = Vec::new();
    let mut has_regression = false;
    let mut i: usize = 0;
    while i < current.routes.len()
        invariant
            i <= current.routes@.len(),
            rows@.len() == i,
            forall|k: int| 0 <= k < i ==> #[trigger] rows@[k] == compared(current, baseline, k),
            has_regression <==> exists|k: int|
                0 <= k < i && (#[trigger] rows@[k]).1 == Verdict::Regression,
        decreases current.routes@.len() - i,
    {
        let route = &current.routes[i];
        let before: Option<u64> = find_median(&baseline.routes, route.name.as_str());
        let verdict = judge(before, route.p50_us);
        let ghost earlier = rows@;
        rows.push((before, verdict));
        proof {
            assert(rows@[i as int].1 == verdict);
            assert(forall|k: int| 0 <= k < i ==> rows@[k] == earlier[k]);
            if has_regression {
                let k = choose|k: int| 0 <= k < i && earlier[k].1 == Verdict::Regression;
                assert(rows@[k].1 == Verdict::Regression);
            }
        }
        if verdict == Verdict::Regression {
            has_regression = true;
        }
        i = i + 1;
    }
    Comparison { rows, has_regression }
}

/// A benchmark compared with itself shows no regression, and no new route.
pub proof fn lemma_no_change(b: &BenchResult, i: int)
    requires
        0 <= i < b.routes@.len(),
        forall|j: int, k: int|
            0 <= j < k < b.routes@.len() ==> #[trigger] b.routes@[j].name@
                != #[trigger] b.routes@[k].name@,
    ensures
        compared(b, b, i) == (Some(b.routes@[i].p50_us), Verdict::Steady),
{
    lemma_first_of_name(b.routes@, i, 0);
}

proof fn lemma_first_of_name(routes: Seq<RouteBenchResult>, i: int, from: int)
    requires
        0 <= from <= i < routes.len(),
        forall|j: int, k: int|
            0 <= j < k < routes.len() ==> #[trigger] routes[j].name@ != #[trigger] routes[k].name@,
    ensures
        median_of(routes, routes[i].name@, from) == Some(routes[i].p50_us),
    decreases i - from,
{
    if from < i {
        assert(routes[from].name@ != routes[i].name@);
        lemma_first_of_name(routes, i, from + 1);
    }
}

/// The head of a table of routes.
pub open spec fn table_head() -> Seq<char> {
    "| Route | Distance | Min | P50 | P95 | Max | Hops |\n"@
        + "|-------|----------|-----|-----|-----|-----|------|\n"@
}

/// The row of a route.
pub open spec fn table_row<Q>(s: &RouteStats<Q>) -> Seq<char> {
    "| "@ + s.name@ + " | "@ + distance_text(s.distance as int) + "nm | "@ + time_text(
        least_of(s.timings_us@) as int,
    ) + " | "@ + time_text(percentile_of(s.timings_us@, 50) as int) + " | "@ + time_text(
        percentile_of(s.timings_us@, 95) as int,
    ) + " | "@ + time_text(greatest_of(s.timings_us@) as int) + " | "@ + decimal(
        s.raw_hops as nat,
    ) + ">"@ + decimal(s.smooth_hops as nat) + " |\n"@
}

/// The rows of the transits among the first `n` routes, or of the others.
pub open spec fn table_rows<Q>(stats: Seq<RouteStats<Q>>, transits: bool, n: nat) -> Seq<char>
    decreases n,
{
    if n == 0 {
        Seq::empty()
    } else if stats[n - 1].is_passage == transits {
        table_rows(stats, transits, (n - 1) as nat) + table_row(&stats[n - 1])
    } else {
        table_rows(stats, transits, (n - 1) as nat)
    }
}

/// Each route has its row in the table of the transits or in that of the others, in
/// their order. A table has a section where it has a row.
pub proof fn lemma_one_more_row<Q>(stats: Seq<RouteStats<Q>>, transits: bool, n: nat)
    requires
        n < stats.len(),
    ensures
        table_rows(stats, transits, 0).len() == 0,
        stats[n as int].is_passage == transits ==> table_rows(stats, transits, n + 1) == table_rows(
            stats,
            transits,
            n,
        ) + table_row(&stats[n as int]),
        stats[n as int].is_passage != transits ==> table_rows(stats, transits, n + 1) == table_rows(
            stats,
            transits,
            n,
        ),
        stats[n as int].is_passage == transits ==> section(stats, transits).len() > 0,
{
    if stats[n as int].is_passage == transits {
        assert(has_rows(stats, transits, stats.len()));
        reveal_strlit("\n");
        assert("\n"@.len() == 1);
    }
}

/// Some of the first `n` routes are transits, or none of them.
pub open spec fn has_rows<Q>(stats: Seq<RouteStats<Q>>, transits: bool, n: nat) -> bool {
    exists|i: int| 0 <= i < n && (#[trigger] stats[i]).is_passage == transits
}

/// The section on the transits, or on the other routes; nothing where there is
/// none.
pub open spec fn section<Q>(stats: Seq<RouteStats<Q>>, transits: bool) -> Seq<char> {
    if has_rows(stats, transits, stats.len()) {
        let title = if transits {
            "## Passage Transits\n\n"@
        } else {
            "## Sailing Routes\n\n"@
        };
        title + table_head() + table_rows(stats, transits, stats.len()) + "\n"@
    } else {
        Seq::empty()
    }
}

/// The whole report.
pub open spec fn report<Q>(
    stats: Seq<RouteStats<Q>>,
    nodes: nat,
    edges: nat,
    commit: Seq<char>,
    date: Seq<char>,
    iterations: nat,
) -> Seq<char> {
    "# Routing Benchmarks\n\n**Graph**: "@ + grouped(nodes) + " nodes / "@ + grouped(edges)
        + " edges\n**Commit**: `"@ + commit + "` | **Date**: "@ + date + " | **Iterations**: "@
        + decimal(iterations) + "\n\n"@ + section(stats, false) + section(stats, true)
        + "*Generated by `asw bench`*\n"@
}

fn push_row<Q>(out: &mut String, s: &RouteStats<Q>)
    ensures
        final(out)@ == old(out)@ + table_row(s),
{
    let ghost start = out@;
    out.append("| ");
    out.append(s.name.as_str());
    out.append(" | ");
    out.append(format_distance(s.distance).as_str());
    out.append("nm | ");
    out.append(format_time(s.min_us()).as_str());
    out.append(" | ");
    out.append(format_time(s.p50_us()).as_str());
    out.append(" | ");
    out.append(format_time(s.p95_us()).as_str());
    out.append(" | ");
    out.append(format_time(s.max_us()).as_str());
    out.append(" | ");
    push_decimal(out, s.raw_hops as u64);
    out.append(">");
    push_decimal(out, s.smooth_hops as u64);
    out.append(" |\n");
    assert(out@ =~= start + table_row(s));
}

fn push_section<Q>(out: &mut String, stats: &Vec<RouteStats<Q>>, transits: bool)
    ensures
        final(out)@ == old(out)@ + section(stats@, transits),
{
    let ghost start = out@;
    let mut rows = String::new();
    let mut any = false;
    let mut i: usize = 0;
    while i < stats.len()
        invariant
            i <= stats@.len(),
            rows@ == table_rows(stats@, transits, i as nat),
            any == has_rows(stats@, transits, i as nat),
        decreases stats@.len() - i,
    {
        if stats[i].is_passage == transits {
            push_row(&mut rows, &stats[i]);
            any = true;
        }
        proof {
            if any {
                if stats@[i as int].is_passage != transits {
                    let k = choose|k: int|
                        0 <= k < i && (#[trigger] stats@[k]).is_passage == transits;
                    assert(stats@[k].is_passage == transits && k < i + 1);
                }
            }
        }
        i = i + 1;
    }
    if any {
        if transits {
            out.append("## Passage Transits\n\n");
        } else {
            out.append("## Sailing Routes\n\n");
        }
        out.append("| Route | Distance | Min | P50 | P95 | Max | Hops |\n");
        out.append("|-------|----------|-----|-----|-----|-----|------|\n");
        out.append(rows.as_str());
        out.append("\n");
    }
    assert(out@ =~= start + section(stats@, transits));
}

/// The report in Markdown. The date is the first ten characters of the
/// timestamp.
pub fn markdown<Q>(
    stats: &Vec<RouteStats<Q>>,
    nodes: u32,
    edges: u32,
    commit: &str,
    timestamp: &str,
    iterations: usize,
) -> (r: String)
    requires
        timestamp@.len() >= 10,
    ensures
        r@ == report(
            stats@,
            nodes as nat,
            edges as nat,
            commit@,
            timestamp@.take(10),
            iterations as nat,
        ),
{
    let chars = chars_of(timestamp);
    let date = string_of(&chars, 0, 10);
    assert(date@ =~= timestamp@.take(10));
    let mut out = String::from_str("# Routing Benchmarks\n\n**Graph**: ");
    out.append(format_number(nodes).as_str());
    out.append(" nodes / ");
    out.append(format_number(edges).as_str());
    out.append(" edges\n**Commit**: `");
    out.append(commit);
    out.append("` | **Date**: ");
    out.append(date.as_str());
    out.append(" | **Iterations**: ");
    push_decimal(&mut out, iterations as u64);
    out.append("\n\n");
    push_section(&mut out, stats, false);
    push_section(&mut out, stats, true);
    out.append("*Generated by `asw bench`*\n");
    out
}

/// What a feature of the map of routes shows.
#[derive(Debug, Clone, Copy, PartialEq, Eq, Structural)]
pub enum Mark {
    Line,
    Start,
    End,
}

/// The features of the first `n` routes: of each that has coordinates its line,
/// its start and its end.
pub open spec fn marks_of<Q>(stats: Seq<RouteStats<Q>>, n: nat) -> Seq<(usize, Mark)>
    decreases n,
{
    if n == 0 {
        Seq::empty()
    } else if stats[n - 1].coordinates@.len() == 0 {
        marks_of(stats, (n - 1) as nat)
    } else {
        let i = (n - 1) as usize;
        marks_of(stats, (n - 1) as nat).push((i, Mark::Line)).push((i, Mark::Start)).push(
            (i, Mark::End),
        )
    }
}

/// A route is on the map exactly if it has coordinates, with its line, its start and its
/// end. The features of a route come behind those of the routes before.
pub proof fn lemma_marks<Q>(stats: Seq<RouteStats<Q>>, n: nat, i: usize, mark: Mark)
    requires
        n <= stats.len() <= usize::MAX,
    ensures
        marks_of(stats, n).contains((i, mark)) <==> i < n && stats[i as int].coordinates@.len() > 0,
        forall|j: int, k: int|
            0 <= j <= k < marks_of(stats, n).len() ==> (#[trigger] marks_of(stats, n)[j]).0 <= (
            #[trigger] marks_of(stats, n)[k]).0,
        forall|j: int| 0 <= j < marks_of(stats, n).len() ==> (#[trigger] marks_of(stats, n)[j]).0
            < n,
    decreases n,
{
    if n > 0 {
        let m = (n - 1) as nat;
        lemma_marks(stats, m, i, mark);
        let before = marks_of(stats, m);
        let all = marks_of(stats, n);
        let last = (n - 1) as usize;
        if stats[n - 1].coordinates@.len() > 0 {
            let three = seq![(last, Mark::Line), (last, Mark::Start), (last, Mark::End)];
            assert(all =~= before + three);
            crate::cells::lemma_contains_concat(before, three, (i, mark));
            assert(three[0] == (last, Mark::Line));
            assert(three[1] == (last, Mark::Start));
            assert(three[2] == (last, Mark::End));
            assert(three.contains((i, mark)) <==> i == last);
        }
    }
}

/// The features of the map of routes, each with the number of its route.
pub fn map_features<Q>(stats: &Vec<RouteStats<Q>>) -> (r: Vec<(usize, Mark)>)
    ensures
        r@ == marks_of(stats@, stats@.len()),
{
    let mut out: Vec<(usize, Mark)> = Vec::new();
    let mut i: usize = 0;
    while i < stats.len()
        invariant
            i <= stats@.len(),
            out@ == marks_of(stats@, i as nat),
        decreases stats@.len() - i,
    {
        if stats[i].coordinates.len() > 0 {
            out.push((i, Mark::Line));
            out.push((i, Mark::Start));
            out.push((i, Mark::End));
        }
        i = i + 1;
    }
    out
}

/// The name of a feature.
pub open spec fn mark_name(route: Seq<char>, mark: Mark) -> Seq<char> {
    match mark {
        Mark::Line => route,
        Mark::Start => route + " (start)"@,
        Mark::End => route + " (end)"@,
    }
}

/// Computes [`mark_name`].
pub fn feature_name(route: &str, mark: Mark) -> (r: String)
    ensures
        r@ == mark_name(route@, mark),
{
    let mut out = String::from_str(route);
    match mark {
        Mark::Line => {},
        Mark::Start => {
            out.append(" (start)");
        },
        Mark::End => {
            out.append(" (end)");
        },
    }
    out
}

/// The colour of a feature.
pub fn feature_color(mark: Mark, is_passage: bool) -> (r: &'static str)
    ensures
        r@ == match mark {
            Mark::Line => if is_passage {
                "#0000ff"@
            } else {
                "#0088ff"@
            },
            Mark::Start => "#00cc00"@,
            Mark::End => "#ff0000"@,
        },
{
    match mark {
        Mark::Line => if is_passage {
            "#0000ff"
        } else {
            "#0088ff"
        },
        Mark::Start => "#00cc00",
        Mark::End => "#ff0000",
    }
}

/// The kind of a route.
pub fn category(is_passage: bool) -> (r: &'static str)
    ensures
        r@ == if is_passage {
            "passage"@
        } else {
            "sailing"@
        },
{
    if is_passage {
        "passage"
    } else {
        "sailing"
    }
}

} // verus!
