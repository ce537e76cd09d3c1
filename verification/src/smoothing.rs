//! Line-of-sight smoothing of a path.

use vstd::prelude::*;
use crate::graph::SHORE_DIST_UNIT;
use crate::oracle::{call2, call3, function2, function3, value2, value3};
use crate::range_min::{lemma_min_over, min_over, RangeMin};

verus! {

/// Doubles the step while the point it reaches can be seen. Gives a point that
/// can be seen, or the next one, and the first blocked one that was met.
pub open spec fn gallop(
    clear: spec_fn(int) -> bool,
    cur: int,
    lo: int,
    step: int,
    end: int,
) -> (int, int)
    decreases
            if cur + step < end {
                end - cur - step
            } else {
                0
            },
{
    let test = if cur + step < end {
        cur + step
    } else {
        end
    };
    if !clear(test) {
        (lo, test)
    } else if test >= end || step < 1 {
        (end, end)
    } else {
        gallop(clear, cur, test, 2 * step, end)
    }
}

/// Halves the stretch between a point that can be seen and a blocked one.
pub open spec fn bisect(clear: spec_fn(int) -> bool, lo: int, hi: int) -> int
    decreases hi - lo,
{
    if hi - lo <= 1 {
        lo
    } else {
        let mid = (lo + hi) / 2;
        if clear(mid) {
            bisect(clear, mid, hi)
        } else {
            bisect(clear, lo, mid)
        }
    }
}

/// The point to go to from `cur`: the last one where it can be seen, otherwise
/// a far one that the search finds, and at least the next.
pub open spec fn hop(clear: spec_fn(int) -> bool, cur: int, end: int) -> int {
    if clear(end) {
        end
    } else {
        let (lo, hi) = gallop(clear, cur, cur + 1, 1, end);
        if lo == end {
            end
        } else {
            let far = bisect(clear, lo, hi);
            if far <= cur {
                cur + 1
            } else {
                far
            }
        }
    }
}

/// The points kept from `cur` on.
pub open spec fn waypoints(clear: spec_fn(int, int) -> bool, cur: int, end: int) -> Seq<int>
    decreases end - cur,
{
    if cur >= end {
        seq![cur]
    } else {
        let next = hop(|j: int| clear(cur, j), cur, end);
        if next <= cur || next > end {
            seq![cur]
        } else {
            seq![cur] + waypoints(clear, next, end)
        }
    }
}

/// What [`gallop`] finds lies ahead; the first point can be seen or is the next,
/// the second is blocked.
proof fn lemma_gallop(clear: spec_fn(int) -> bool, cur: int, lo: int, step: int, end: int)
    requires
        cur < end,
        cur < lo <= end,
        step >= 1,
        lo == cur + 1 || clear(lo),
        lo == cur + 1 || lo < cur + step,
        lo == cur + 1 || lo < end,
        !clear(end),
    ensures
        ({
            let (l, h) = gallop(clear, cur, lo, step, end);
            &&& cur < l <= h <= end
            &&& l == cur + 1 || clear(l)
            &&& !clear(h)
        }),
    decreases
            if cur + step < end {
                end - cur - step
            } else {
                0
            },
{
    let test = if cur + step < end {
        cur + step
    } else {
        end
    };
    if clear(test) {
        lemma_gallop(clear, cur, test, 2 * step, end);
    }
}

proof fn lemma_bisect(clear: spec_fn(int) -> bool, cur: int, lo: int, hi: int)
    requires
        cur < lo <= hi,
        lo == cur + 1 || clear(lo),
        !clear(hi),
    ensures
        ({
            let r = bisect(clear, lo, hi);
            &&& lo <= r <= hi
            &&& r == cur + 1 || clear(r)
            &&& !clear(r) || !clear(r + 1)
        }),
    decreases hi - lo,
{
    if hi - lo > 1 {
        let mid = (lo + hi) / 2;
        if clear(mid) {
            lemma_bisect(clear, cur, mid, hi);
        } else {
            lemma_bisect(clear, cur, lo, mid);
        }
    }
}

/// A hop goes forward, to the end where that can be seen. Short of it, it ends
/// at the next point or at one that can be seen, behind which the view is
/// blocked.
pub proof fn lemma_hop(clear: spec_fn(int) -> bool, cur: int, end: int)
    requires
        cur < end,
    ensures
        cur < hop(clear, cur, end) <= end,
        clear(end) ==> hop(clear, cur, end) == end,
        hop(clear, cur, end) == cur + 1 || clear(hop(clear, cur, end)),
        !clear(end) ==> !clear(hop(clear, cur, end)) || !clear(hop(clear, cur, end) + 1),
{
    if !clear(end) {
        lemma_gallop(clear, cur, cur + 1, 1, end);
        let (lo, hi) = gallop(clear, cur, cur + 1, 1, end);
        if lo != end {
            lemma_bisect(clear, cur, lo, hi);
        }
    }
}

/// Smoothing keeps the first and the last point and goes strictly forward; each
/// leg is clear or leads to the next point.
pub proof fn lemma_waypoints(clear: spec_fn(int, int) -> bool, cur: int, end: int)
    requires
        cur <= end,
    ensures
        ({
            let w = waypoints(clear, cur, end);
            &&& w.len() > 0
            &&& w[0] == cur
            &&& w.last() == end
            &&& forall|i: int, j: int| 0 <= i < j < w.len() ==> #[trigger] w[i] < #[trigger] w[j]
            &&& forall|i: int|
                0 <= i < w.len() - 1 ==> #[trigger] w[i] + 1 == w[i + 1] || clear(w[i], w[i + 1])
        }),
    decreases end - cur,
{
    if cur < end {
        let f = |j: int| clear(cur, j);
        let next = hop(f, cur, end);
        lemma_hop(f, cur, end);
        lemma_waypoints(clear, next, end);
        let rest = waypoints(clear, next, end);
        let w = waypoints(clear, cur, end);
        assert(w =~= seq![cur] + rest);
        assert forall|i: int, j: int| 0 <= i < j < w.len() implies #[trigger] w[i]
            < #[trigger] w[j] by {
            assert(w[j] == rest[j - 1]);
            if i > 0 {
                assert(w[i] == rest[i - 1]);
            } else {
                assert(rest[0] == next);
            }
        }
        assert forall|i: int| 0 <= i < w.len() - 1 implies #[trigger] w[i] + 1 == w[i + 1] || clear(
            w[i],
            w[i + 1],
        ) by {
            assert(w[i + 1] == rest[i]);
            if i > 0 {
                assert(w[i] == rest[i - 1]);
            }
        }
    }
}

/// No leg of the smoothed path is given up early: from each point it leads to the
/// last one where that can be seen. Short of it, the view is blocked at the point
/// it leads to or right behind.
pub proof fn lemma_waypoints_reach_far(
    clear: spec_fn(int, int) -> bool,
    cur: int,
    end: int,
    i: int,
)
    requires
        cur <= end,
        0 <= i < waypoints(clear, cur, end).len() - 1,
    ensures
        ({
            let a = waypoints(clear, cur, end)[i];
            let b = waypoints(clear, cur, end)[i + 1];
            &&& clear(a, end) ==> b == end
            &&& b == end || !clear(a, b) || !clear(a, b + 1)
        }),
    decreases end - cur,
{
    if cur < end {
        let f = |j: int| clear(cur, j);
        let next = hop(f, cur, end);
        lemma_hop(f, cur, end);
        lemma_waypoints(clear, next, end);
        let rest = waypoints(clear, next, end);
        let w = waypoints(clear, cur, end);
        assert(w =~= seq![cur] + rest);
        if i > 0 {
            lemma_waypoints_reach_far(clear, next, end, i - 1);
        } else {
            assert(w[1] == rest[0]);
            assert(f(end) == clear(cur, end));
        }
    }
}

/// Smaller of two numbers.
pub open spec fn lesser(a: int, b: int) -> int {
    if a < b {
        a
    } else {
        b
    }
}

/// Distance that the line from point `i` to point `j` has to keep from the
/// coast, in micro-nm: the wanted clearance, or what the points between keep
/// themselves where that is less.
pub open spec fn wanted_clearance(shore_dist: Seq<u8>, buffer: i64, i: int, j: int) -> int {
    lesser(buffer as int, min_over(shore_dist, i, j) * SHORE_DIST_UNIT)
}

/// The straight line from point `i` to point `j` can be used.
pub open spec fn line_clear<
    Q: Copy,
    C: Fn(Q, Q) -> bool,
    S: Fn(Q, Q, i64) -> i64,
>(
    coords: Seq<Q>,
    shore_dist: Seq<u8>,
    crosses: C,
    segment_distance: S,
    buffer: i64,
    i: int,
    j: int,
) -> bool {
    &&& !value2(crosses, coords[i], coords[j])
    &&& buffer > 0 ==> {
        let t = wanted_clearance(shore_dist, buffer, i, j);
        t <= 0 || value3(segment_distance, coords[i], coords[j], t as i64) >= t
    }
}

/// A straight line that crosses the coast is never clear. One that does not is,
/// where no clearance is wanted. With a clearance it is where it keeps `t` from the
/// coast: the least of what is wanted and of what the points from one end to the
/// other have.
pub proof fn lemma_line_clear<Q: Copy, C: Fn(Q, Q) -> bool, S: Fn(Q, Q, i64) -> i64>(
    coords: Seq<Q>,
    shore_dist: Seq<u8>,
    crosses: C,
    segment_distance: S,
    buffer: i64,
    i: int,
    j: int,
    t: i64,
)
    requires
        0 <= i <= j < shore_dist.len(),
    ensures
        ({
            let ok = line_clear(coords, shore_dist, crosses, segment_distance, buffer, i, j);
            &&& value2(crosses, coords[i], coords[j]) ==> !ok
            &&& buffer <= 0 && !value2(crosses, coords[i], coords[j]) ==> ok
            &&& buffer > 0 && !value2(crosses, coords[i], coords[j]) && t <= buffer && (forall|
                k: int,
            |
                i <= k <= j ==> t <= #[trigger] shore_dist[k] * 20_000) && (t == buffer || exists|
                k: int,
            |
                i <= k <= j && t == #[trigger] shore_dist[k] * 20_000) ==> (ok <==> t <= 0
                || value3(segment_distance, coords[i], coords[j], t) >= t)
        }),
{
    lemma_min_over(shore_dist, i, j);
    let k = choose|k: int| i <= k <= j && min_over(shore_dist, i, j) == #[trigger] shore_dist[k];
    assert(shore_dist[k] == min_over(shore_dist, i, j));
}

/// [`line_clear`] of every pair of points.
pub open spec fn sight<Q: Copy, C: Fn(Q, Q) -> bool, S: Fn(Q, Q, i64) -> i64>(
    coords: Seq<Q>,
    shore_dist: Seq<u8>,
    crosses: C,
    segment_distance: S,
    buffer: i64,
) -> spec_fn(int, int) -> bool {
    |i: int, j: int| line_clear(coords, shore_dist, crosses, segment_distance, buffer, i, j)
}

/// The positions kept by smoothing a path of `n` points.
pub open spec fn kept_positions(clear: spec_fn(int, int) -> bool, n: nat) -> Seq<int> {
    if n <= 2 {
        Seq::new(n, |i: int| i)
    } else {
        waypoints(clear, 0, n - 1)
    }
}

pub open spec fn as_ints(v: Seq<usize>) -> Seq<int> {
    v.map_values(|x: usize| x as int)
}

/// Computes [`line_clear`].
fn is_clear<Q: Copy, C: Fn(Q, Q) -> bool, S: Fn(Q, Q, i64) -> i64>(
    coords: &Vec<Q>,
    range_min: &Option<RangeMin>,
    crosses: &C,
    segment_distance: &S,
    buffer: i64,
    i: usize,
    j: usize,
    Ghost(shore_dist): Ghost<Seq<u8>>,
) -> (r: bool)
    requires
        i <= j < coords@.len(),
        function2(*crosses),
        function3(*segment_distance),
        range_min is Some <==> buffer > 0,
        range_min matches Some(rm) ==> rm.wf() && rm.values() == shore_dist && shore_dist.len()
            == coords@.len(),
    ensures
        r == line_clear(
            coords@,
            shore_dist,
            *crosses,
            *segment_distance,
            buffer,
            i as int,
            j as int,
        ),
{
    let a = coords[i];
    let b = coords[j];
    if call2(crosses, a, b) {
        return false;
    }
    if let Some(rm) = range_min {
        let own: i64 = rm.query(i, j) as i64 * SHORE_DIST_UNIT as i64;
        let threshold: i64 = if buffer < own {
            buffer
        } else {
            own
        };
        if threshold > 0 && call3(segment_distance, a, b, threshold) < threshold {
            return false;
        }
    }
    true
}

/// Greedy line-of-sight smoothing. A waypoint goes where the direct line past it
/// crosses no coast and, with a clearance wanted, keeps away from the coast as
/// far as wanted or as the skipped points themselves do. Smoothing so never
/// brings the route closer to the shore than the path already was.
///
/// `shore_dist` holds the quantized shore distance of each point, and is looked
/// at only where a clearance is wanted. The result is strictly increasing and
/// keeps the first and the last point. Where even the next point is blocked, the
/// blocked leg is kept.
pub fn smooth_indices<Q: Copy, C: Fn(Q, Q) -> bool, S: Fn(Q, Q, i64) -> i64>(
    coords: &Vec<Q>,
    shore_dist: &Vec<u8>,
    crosses: &C,
    segment_distance: &S,
    buffer: i64,
) -> (r: Vec<usize>)
    requires
        function2(*crosses),
        function3(*segment_distance),
        buffer > 0 ==> shore_dist@.len() == coords@.len(),
    ensures
        as_ints(r@) == kept_positions(
            sight(coords@, shore_dist@, *crosses, *segment_distance, buffer),
            coords@.len(),
        ),
{
    let n: usize = coords.len();
    let mut result: Vec<usize> = Vec::new();
    if n <= 2 {
        for i in 0..n
            invariant
                result@.len() == i,
                forall|k: int| 0 <= k < i ==> #[trigger] result@[k] == k,
        {
            result.push(i);
        }
        assert(as_ints(result@) =~= Seq::new(n as nat, |i: int| i));
        return result;
    }
    let ghost clear = sight(coords@, shore_dist@, *crosses, *segment_distance, buffer);
    let range_min: Option<RangeMin> = if buffer > 0 {
        Some(RangeMin::build(shore_dist.as_slice()))
    } else {
        None
    };
    let end: usize = n - 1;
    let mut current: usize = 0;
    result.push(0);
    proof {
        lemma_waypoints(clear, 0, end as int);
        let w = waypoints(clear, 0, end as int);
        assert(as_ints(result@).drop_last() + w =~= w);
    }
    while current < end
        invariant
            n == coords@.len(),
            end == n - 1,
            current <= end,
            clear == sight(coords@, shore_dist@, *crosses, *segment_distance, buffer),
            function2(*crosses),
            function3(*segment_distance),
            range_min is Some <==> buffer > 0,
            range_min matches Some(rm) ==> rm.wf() && rm.values() == shore_dist@
                && shore_dist@.len() == coords@.len(),
            result@.len() > 0,
            result@.last() == current,
            as_ints(result@).drop_last() + waypoints(clear, current as int, end as int)
                == waypoints(clear, 0, end as int),
        decreases end - current,
    {
        let ghost view = |j: int| clear(current as int, j);
        proof {
            lemma_hop(view, current as int, end as int);
        }
        let next: usize = next_hop(
            coords,
            &range_min,
            crosses,
            segment_distance,
            buffer,
            current,
            end,
            Ghost(shore_dist@),
        );
        assert(next == hop(view, current as int, end as int));
        let ghost before = result@;
        result.push(next);
        proof {
            assert(as_ints(result@).drop_last() =~= as_ints(before));
            assert(as_ints(before) =~= as_ints(before).drop_last() + seq![current as int]);
            assert(as_ints(result@).drop_last() + waypoints(clear, next as int, end as int)
                =~= as_ints(before).drop_last() + waypoints(clear, current as int, end as int));
        }
        current = next;
    }
    proof {
        assert(waypoints(clear, current as int, end as int) =~= seq![current as int]);
        assert(as_ints(result@) =~= as_ints(result@).drop_last() + seq![current as int]);
    }
    result
}

/// Computes [`hop`].
fn next_hop<Q: Copy, C: Fn(Q, Q) -> bool, S: Fn(Q, Q, i64) -> i64>(
    coords: &Vec<Q>,
    range_min: &Option<RangeMin>,
    crosses: &C,
    segment_distance: &S,
    buffer: i64,
    current: usize,
    end: usize,
    Ghost(shore_dist): Ghost<Seq<u8>>,
) -> (r: usize)
    requires
        current < end < coords@.len(),
        function2(*crosses),
        function3(*segment_distance),
        range_min is Some <==> buffer > 0,
        range_min matches Some(rm) ==> rm.wf() && rm.values() == shore_dist && shore_dist.len()
            == coords@.len(),
    ensures
        r == hop(
            |j: int|
                sight(coords@, shore_dist, *crosses, *segment_distance, buffer)(current as int, j),
            current as int,
            end as int,
        ),
{
    let ghost view = |j: int|
        sight(coords@, shore_dist, *crosses, *segment_distance, buffer)(current as int, j);
    if is_clear(
        coords,
        range_min,
        crosses,
        segment_distance,
        buffer,
        current,
        end,
        Ghost(shore_dist),
    ) {
        return end;
    }
    proof {
        lemma_gallop(view, current as int, current + 1, 1, end as int);
    }
    let mut step: u128 = 1;
    let mut lo: usize = current + 1;
    let mut hi: usize = end;
    let mut found: bool = false;
    while !found
        invariant
            current < end < coords@.len(),
            function2(*crosses),
            function3(*segment_distance),
            range_min is Some <==> buffer > 0,
            range_min matches Some(rm) ==> rm.wf() && rm.values() == shore_dist
                && shore_dist.len() == coords@.len(),
            forall|j: int|
                #[trigger] view(j) == line_clear(
                    coords@,
                    shore_dist,
                    *crosses,
                    *segment_distance,
                    buffer,
                    current as int,
                    j,
                ),
            !view(end as int),
            1 <= step < 0x1_0000_0000_0000_0000_0000,
            current < lo <= end,
            !found ==> gallop(view, current as int, current + 1, 1, end as int) == gallop(
                view,
                current as int,
                lo as int,
                step as int,
                end as int,
            ),
            found ==> gallop(view, current as int, current + 1, 1, end as int) == (
                lo as int,
                hi as int,
            ),
        decreases
            if found {
                0
            } else if current + step < end {
                end - current - step + 1
            } else {
                1
            },
    {
        let test: usize = if step < (end - current) as u128 {
            current + step as usize
        } else {
            end
        };
        if !is_clear(
            coords,
            range_min,
            crosses,
            segment_distance,
            buffer,
            current,
            test,
            Ghost(shore_dist),
        ) {
            assert(!view(test as int));
            hi = test;
            found = true;
        } else {
            assert(view(test as int));
            lo = test;
            step = 2 * step;
        }
    }
    if lo == end {
        return end;
    }
    let ghost first = (lo as int, hi as int);
    while hi - lo > 1
        invariant
            current < end < coords@.len(),
            current < lo <= hi <= end,
            function2(*crosses),
            function3(*segment_distance),
            range_min is Some <==> buffer > 0,
            range_min matches Some(rm) ==> rm.wf() && rm.values() == shore_dist
                && shore_dist.len() == coords@.len(),
            forall|j: int|
                #[trigger] view(j) == line_clear(
                    coords@,
                    shore_dist,
                    *crosses,
                    *segment_distance,
                    buffer,
                    current as int,
                    j,
                ),
            bisect(view, first.0, first.1) == bisect(view, lo as int, hi as int),
        decreases hi - lo,
    {
        let mid: usize = lo + (hi - lo) / 2;
        if !is_clear(
            coords,
            range_min,
            crosses,
            segment_distance,
            buffer,
            current,
            mid,
            Ghost(shore_dist),
        ) {
            assert(!view(mid as int));
            hi = mid;
        } else {
            assert(view(mid as int));
            lo = mid;
        }
    }
    lo
}

} // verus!
