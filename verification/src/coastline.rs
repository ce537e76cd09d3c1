//! Coastline pieces for the spatial index.

use vstd::prelude::*;
use crate::bounds::Bbox;
use crate::oracle::{call1, function1, value1};
use crate::shapefile::{Shape, ShapeView};
use crate::COASTLINE_SUBDIVIDE_MAX;

verus! {

/// The contents of a list of lists.
pub open spec fn views<P>(list: Seq<Vec<P>>) -> Seq<Seq<P>> {
    list.map_values(|v: Vec<P>| v@)
}

/// End of the piece that starts at `start`.
pub open spec fn piece_end(n: int, start: int) -> int {
    if start + COASTLINE_SUBDIVIDE_MAX < n {
        start + COASTLINE_SUBDIVIDE_MAX
    } else {
        n
    }
}

/// The pieces from `start` on. Each shares its last vertex with the next.
pub open spec fn pieces<P>(ring: Seq<P>, start: int) -> Seq<Seq<P>>
    decreases ring.len() - start,
{
    if start < 0 || start >= ring.len() - 1 {
        Seq::empty()
    } else {
        let end = piece_end(ring.len() as int, start);
        seq![ring.subrange(start, end)] + pieces(ring, end - 1)
    }
}

/// The pieces of a ring: itself where it is short enough.
pub open spec fn subdivided<P>(ring: Seq<P>) -> Seq<Seq<P>> {
    if ring.len() <= COASTLINE_SUBDIVIDE_MAX {
        seq![ring]
    } else {
        pieces(ring, 0)
    }
}

pub(crate) fn copy_range<P: Copy>(ring: &Vec<P>, start: usize, end: usize) -> (r: Vec<P>)
    requires
        start <= end <= ring@.len(),
    ensures
        r@ == ring@.subrange(start as int, end as int),
{
    let mut out: Vec<P> = Vec::new();
    let mut i: usize = start;
    while i < end
        invariant
            start <= i <= end <= ring@.len(),
            out@ == ring@.subrange(start as int, i as int),
        decreases end - i,
    {
        assert(ring@.subrange(start as int, i + 1) =~= ring@.subrange(start as int, i as int).push(
            ring@[i as int],
        ));
        out.push(ring[i]);
        i = i + 1;
    }
    out
}

/// Cuts a ring into pieces of at most [`COASTLINE_SUBDIVIDE_MAX`] vertices, each
/// sharing one vertex with the next.
pub fn subdivide_ring<P: Copy>(ring: &Vec<P>) -> (r: Vec<Vec<P>>)
    ensures
        views(r@) == subdivided(ring@),
{
    let n: usize = ring.len();
    let mut out: Vec<Vec<P>> = Vec::new();
    if n <= COASTLINE_SUBDIVIDE_MAX {
        assert(ring@.subrange(0, n as int) =~= ring@);
        out.push(copy_range(ring, 0, n));
        assert(views(out@) =~= seq![ring@]);
        return out;
    }
    let mut start: usize = 0;
    assert(views(out@) + pieces(ring@, 0) =~= pieces(ring@, 0));
    while start < n - 1
        invariant
            n == ring@.len(),
            n > COASTLINE_SUBDIVIDE_MAX,
            start <= n - 1,
            views(out@) + pieces(ring@, start as int) == pieces(ring@, 0),
        decreases n - start,
    {
        let end: usize = if n - start > COASTLINE_SUBDIVIDE_MAX {
            start + COASTLINE_SUBDIVIDE_MAX
        } else {
            n
        };
        let ghost before = out@;
        let piece = copy_range(ring, start, end);
        out.push(piece);
        proof {
            assert(views(out@) =~= views(before).push(piece@));
            assert(views(out@) + pieces(ring@, end - 1) =~= views(before) + pieces(
                ring@,
                start as int,
            ));
        }
        start = end - 1;
    }
    assert(views(out@) + pieces(ring@, start as int) =~= views(out@));
    out
}

/// Every piece has two to [`COASTLINE_SUBDIVIDE_MAX`] vertices, pieces follow on
/// each other, and each leg of the ring is a leg of some piece.
pub proof fn lemma_pieces<P>(ring: Seq<P>, start: int, leg: int)
    requires
        0 <= start < ring.len() - 1,
        start <= leg < ring.len() - 1,
    ensures
        ({
            let all = pieces(ring, start);
            &&& all.len() > 0
            &&& all[0][0] == ring[start]
            &&& forall|k: int|
                0 <= k < all.len() ==> 2 <= (#[trigger] all[k]).len() <= COASTLINE_SUBDIVIDE_MAX
            &&& forall|j: int, k: int|
                #![trigger all[j], all[k]]
                0 <= j && k == j + 1 && k < all.len() ==> all[j].last() == all[k][0]
            &&& exists|k: int, i: int| #[trigger] is_leg(all, k, i, ring[leg], ring[leg + 1])
        }),
    decreases ring.len() - start,
{
    let end = piece_end(ring.len() as int, start);
    let all = pieces(ring, start);
    let first = ring.subrange(start, end);
    let rest = pieces(ring, end - 1);
    assert(all =~= seq![first] + rest);
    assert(all[0] == first);
    if end - 1 < ring.len() - 1 {
        let later = if leg >= end - 1 {
            leg
        } else {
            end - 1
        };
        lemma_pieces(ring, end - 1, later);
        assert forall|k: int| 0 <= k < all.len() implies 2 <= (#[trigger] all[k]).len()
            <= COASTLINE_SUBDIVIDE_MAX by {
            if k > 0 {
                assert(all[k] == rest[k - 1]);
            }
        }
        assert forall|j: int, k: int|
            #![trigger all[j], all[k]]
            0 <= j && k == j + 1 && k < all.len() implies all[j].last() == all[k][0] by {
            assert(all[k] == rest[k - 1]);
            if j > 0 {
                assert(all[j] == rest[j - 1]);
            }
        }
        if leg >= end - 1 {
            let (k, i) = choose|k: int, i: int| #[trigger]
                is_leg(rest, k, i, ring[leg], ring[leg + 1]);
            assert(all[k + 1] == rest[k]);
            assert(is_leg(all, k + 1, i, ring[leg], ring[leg + 1]));
        } else {
            assert(is_leg(all, 0, leg - start, ring[leg], ring[leg + 1]));
        }
    } else {
        assert(rest.len() == 0);
        assert(is_leg(all, 0, leg - start, ring[leg], ring[leg + 1]));
    }
}

/// `a` and `b` follow on each other in piece `k`, at `i`.
pub open spec fn is_leg<P>(all: Seq<Seq<P>>, k: int, i: int, a: P, b: P) -> bool {
    &&& 0 <= k < all.len()
    &&& 0 <= i < all[k].len() - 1
    &&& all[k][i] == a
    &&& all[k][i + 1] == b
}

/// The pieces of the first `n` rings, one ring after the other.
pub open spec fn pieces_of_rings<P>(rings: Seq<Seq<P>>, n: nat) -> Seq<Seq<P>>
    decreases n,
{
    if n == 0 {
        Seq::empty()
    } else {
        pieces_of_rings(rings, (n - 1) as nat) + subdivided(rings[n - 1])
    }
}

/// The rings of a polygon: its exterior, then its holes, which are coast too.
pub open spec fn rings_of<P>(shape: ShapeView<P>) -> Seq<Seq<P>> {
    seq![shape.0] + shape.1
}

/// The coastline of the first `n` polygons, in pieces.
pub open spec fn coastline_of<P>(polygons: Seq<Shape<P>>, n: nat) -> Seq<Seq<P>>
    decreases n,
{
    if n == 0 {
        Seq::empty()
    } else {
        let rings = rings_of(polygons[n - 1]@);
        coastline_of(polygons, (n - 1) as nat) + pieces_of_rings(rings, rings.len())
    }
}

proof fn lemma_leg_in_sum<P>(a: Seq<Seq<P>>, b: Seq<Seq<P>>, x: P, y: P)
    ensures
        some_leg(a + b, x, y) <==> some_leg(a, x, y) || some_leg(b, x, y),
{
    let all = a + b;
    if some_leg(all, x, y) {
        let (k, i) = choose|k: int, i: int| #[trigger] is_leg(all, k, i, x, y);
        if k < a.len() {
            assert(is_leg(a, k, i, x, y));
        } else {
            assert(is_leg(b, k - a.len(), i, x, y));
        }
    }
    if some_leg(a, x, y) {
        let (k, i) = choose|k: int, i: int| #[trigger] is_leg(a, k, i, x, y);
        assert(is_leg(all, k, i, x, y));
    }
    if some_leg(b, x, y) {
        let (k, i) = choose|k: int, i: int| #[trigger] is_leg(b, k, i, x, y);
        assert(is_leg(all, k + a.len(), i, x, y));
    }
}

/// The vertices `x` and `y` follow on each other on the ring.
pub open spec fn follow<P>(ring: Seq<P>, x: P, y: P) -> bool {
    exists|i: int| 0 <= i < ring.len() - 1 && #[trigger] ring[i] == x && ring[i + 1] == y
}

/// The vertices `x` and `y` follow on each other in one of the pieces.
pub open spec fn some_leg<P>(all: Seq<Seq<P>>, x: P, y: P) -> bool {
    exists|k: int, i: int| #[trigger] is_leg(all, k, i, x, y)
}

/// Cutting a ring neither adds nor loses a leg, and no piece of it is longer than
/// 256 vertices.
pub proof fn lemma_legs_of_ring<P>(ring: Seq<P>, x: P, y: P)
    ensures
        some_leg(subdivided(ring), x, y) <==> follow(ring, x, y),
        forall|k: int|
            0 <= k < subdivided(ring).len() ==> (#[trigger] subdivided(ring)[k]).len() <= 256,
{
    let all = subdivided(ring);
    if ring.len() <= COASTLINE_SUBDIVIDE_MAX {
        if some_leg(all, x, y) {
            let (k, i) = choose|k: int, i: int| #[trigger] is_leg(all, k, i, x, y);
            assert(ring[i] == x && ring[i + 1] == y);
        }
        if follow(ring, x, y) {
            let i = choose|i: int|
                0 <= i < ring.len() - 1 && #[trigger] ring[i] == x && ring[i + 1] == y;
            assert(is_leg(all, 0, i, x, y));
        }
    } else {
        lemma_pieces(ring, 0, 0);
        if follow(ring, x, y) {
            let i = choose|i: int|
                0 <= i < ring.len() - 1 && #[trigger] ring[i] == x && ring[i + 1] == y;
            lemma_pieces(ring, 0, i);
        }
        if some_leg(all, x, y) {
            let (k, i) = choose|k: int, i: int| #[trigger] is_leg(all, k, i, x, y);
            lemma_leg_of_piece(ring, 0, k, i, x, y);
        }
    }
}

proof fn lemma_leg_of_piece<P>(ring: Seq<P>, start: int, k: int, i: int, x: P, y: P)
    requires
        0 <= start,
        is_leg(pieces(ring, start), k, i, x, y),
    ensures
        follow(ring, x, y),
    decreases ring.len() - start,
{
    let end = piece_end(ring.len() as int, start);
    let all = pieces(ring, start);
    let rest = pieces(ring, end - 1);
    assert(all =~= seq![ring.subrange(start, end)] + rest);
    if k == 0 {
        assert(ring[start + i] == x && ring[start + i + 1] == y);
    } else {
        assert(rest[k - 1] == all[k]);
        assert(is_leg(rest, k - 1, i, x, y));
        lemma_leg_of_piece(ring, end - 1, k - 1, i, x, y);
    }
}

proof fn lemma_legs_of_rings<P>(rings: Seq<Seq<P>>, n: nat, x: P, y: P)
    requires
        n <= rings.len(),
    ensures
        some_leg(pieces_of_rings(rings, n), x, y) <==> exists|r: int|
            0 <= r < n && follow(#[trigger] rings[r], x, y),
    decreases n,
{
    if n > 0 {
        let m = (n - 1) as nat;
        lemma_legs_of_rings(rings, m, x, y);
        lemma_legs_of_ring(rings[n - 1], x, y);
        lemma_leg_in_sum(pieces_of_rings(rings, m), subdivided(rings[n - 1]), x, y);
        if follow(rings[n - 1], x, y) {
            assert(0 <= n - 1 < n && follow(rings[n - 1], x, y));
        }
    }
}

/// The vertices `x` and `y` follow on each other on the polygon's exterior, or on one
/// of its holes.
pub open spec fn on_outline<P>(shape: Shape<P>, x: P, y: P) -> bool {
    ||| follow(shape.exterior@, x, y)
    ||| exists|r: int| 0 <= r < shape.holes@.len() && follow((#[trigger] shape.holes@[r])@, x, y)
}

/// The coastline is the outline of the land: its legs are those of the exteriors and
/// of the holes of all polygons, none is lost and none is added.
pub proof fn lemma_coastline_is_outline<P>(polygons: Seq<Shape<P>>, n: nat, x: P, y: P)
    requires
        n <= polygons.len(),
    ensures
        some_leg(coastline_of(polygons, n), x, y) <==> exists|p: int|
            0 <= p < n && on_outline(#[trigger] polygons[p], x, y),
    decreases n,
{
    if n > 0 {
        let m = (n - 1) as nat;
        let shape = polygons[n - 1];
        let rings = rings_of(shape@);
        lemma_coastline_is_outline(polygons, m, x, y);
        lemma_legs_of_rings(rings, rings.len(), x, y);
        lemma_leg_in_sum(coastline_of(polygons, m), pieces_of_rings(rings, rings.len()), x, y);
        lemma_rings_on_outline(shape, x, y);
        if on_outline(shape, x, y) {
            assert(0 <= n - 1 < n && on_outline(polygons[n - 1], x, y));
        }
    }
}

proof fn lemma_rings_on_outline<P>(shape: Shape<P>, x: P, y: P)
    ensures
        on_outline(shape, x, y) <==> exists|r: int|
            0 <= r < rings_of(shape@).len() && follow(#[trigger] rings_of(shape@)[r], x, y),
{
    let rings = rings_of(shape@);
    assert(rings[0] == shape.exterior@);
    assert(rings.len() == shape.holes@.len() + 1);
    if exists|r: int| 0 <= r < rings.len() && follow(#[trigger] rings[r], x, y) {
        let r = choose|r: int| 0 <= r < rings.len() && follow(#[trigger] rings[r], x, y);
        if r > 0 {
            assert(rings[r] == shape.holes@[r - 1]@);
        }
    }
    if on_outline(shape, x, y) {
        if follow(shape.exterior@, x, y) {
            assert(follow(rings[0], x, y));
        } else {
            let r = choose|r: int|
                0 <= r < shape.holes@.len() && follow((#[trigger] shape.holes@[r])@, x, y);
            assert(rings[r + 1] == shape.holes@[r]@);
        }
    }
}

fn append_pieces<P: Copy>(out: &mut Vec<Vec<P>>, ring: &Vec<P>)
    ensures
        views(final(out)@) == views(old(out)@) + subdivided(ring@),
{
    let ghost start = out@;
    let mut pieces = subdivide_ring(ring);
    let ghost all = pieces@;
    out.append(&mut pieces);
    assert(views(out@) =~= views(start) + views(all));
}

/// The coastline of land polygons, in pieces for the spatial index.
pub fn extract_coastline<P: Copy>(polygons: &Vec<Shape<P>>) -> (r: Vec<Vec<P>>)
    ensures
        views(r@) == coastline_of(polygons@, polygons@.len()),
{
    let mut out: Vec<Vec<P>> = Vec::new();
    assert(views(out@) =~= Seq::<Seq<P>>::empty());
    let mut i: usize = 0;
    while i < polygons.len()
        invariant
            i <= polygons@.len(),
            views(out@) == coastline_of(polygons@, i as nat),
        decreases polygons@.len() - i,
    {
        let shape = &polygons[i];
        let ghost before = views(out@);
        let ghost rings = rings_of(shape@);
        append_pieces(&mut out, &shape.exterior);
        assert(pieces_of_rings(rings, 1) =~= subdivided(rings[0])) by {
            assert(pieces_of_rings(rings, 0) =~= Seq::<Seq<P>>::empty());
        }
        let mut j: usize = 0;
        while j < shape.holes.len()
            invariant
                j <= shape.holes@.len(),
                rings == rings_of(shape@),
                views(out@) == before + pieces_of_rings(rings, (j + 1) as nat),
            decreases shape.holes@.len() - j,
        {
            append_pieces(&mut out, &shape.holes[j]);
            assert(rings[j + 1] == shape.holes@[j as int]@);
            assert(views(out@) =~= before + pieces_of_rings(rings, (j + 2) as nat));
            j = j + 1;
        }
        assert(rings.len() == j + 1);
        i = i + 1;
    }
    out
}

/// One of the points lies in the box. `position` gives a point's longitude and
/// latitude in nanodegrees.
pub open spec fn touches<P, F: Fn(P) -> (i64, i64)>(position: F, bbox: Bbox, line: Seq<P>) -> bool {
    exists|i: int|
        0 <= i < line.len() && bbox.has(
            value1(position, #[trigger] line[i]).0,
            value1(position, line[i]).1,
        )
}

pub(crate) fn line_touches<P: Copy, F: Fn(P) -> (i64, i64)>(position: &F, bbox: Bbox, line: &Vec<P>) -> (r:
    bool)
    requires
        function1(*position),
    ensures
        r == touches(*position, bbox, line@),
{
    for i in 0..line.len()
        invariant
            function1(*position),
            forall|k: int|
                0 <= k < i ==> !bbox.has(
                    value1(*position, #[trigger] line@[k]).0,
                    value1(*position, line@[k]).1,
                ),
    {
        let (lon, lat) = call1(position, line[i]);
        if bbox.contains_point(lon, lat) {
            assert(bbox.has(
                value1(*position, line@[i as int]).0,
                value1(*position, line@[i as int]).1,
            ));
            return true;
        }
    }
    false
}

/// The lines with a point in the box, in their order.
pub open spec fn clipped<P, F: Fn(P) -> (i64, i64)>(
    position: F,
    bbox: Bbox,
    lines: Seq<Seq<P>>,
) -> Seq<Seq<P>>
    decreases lines.len(),
{
    if lines.len() == 0 {
        Seq::empty()
    } else {
        let before = clipped(position, bbox, lines.drop_last());
        if touches(position, bbox, lines.last()) {
            before.push(lines.last())
        } else {
            before
        }
    }
}

/// A line is kept exactly if one of its points lies in the box, with its edges. What
/// is kept stays in its order.
pub proof fn lemma_clipped<P, F: Fn(P) -> (i64, i64)>(
    position: F,
    bbox: Bbox,
    lines: Seq<Seq<P>>,
    more: Seq<P>,
)
    ensures
        clipped(position, bbox, Seq::<Seq<P>>::empty()) == Seq::<Seq<P>>::empty(),
        (exists|i: int|
            0 <= i < more.len() && bbox.min_lon <= value1(position, #[trigger] more[i]).0
                <= bbox.max_lon && bbox.min_lat <= value1(position, more[i]).1 <= bbox.max_lat)
            ==> clipped(position, bbox, lines.push(more)) == clipped(position, bbox, lines).push(
            more,
        ),
        !(exists|i: int|
            0 <= i < more.len() && bbox.min_lon <= value1(position, #[trigger] more[i]).0
                <= bbox.max_lon && bbox.min_lat <= value1(position, more[i]).1 <= bbox.max_lat)
            ==> clipped(position, bbox, lines.push(more)) == clipped(position, bbox, lines),
{
    assert(lines.push(more).drop_last() =~= lines);
    if touches(position, bbox, more) {
        let i = choose|i: int|
            0 <= i < more.len() && bbox.has(
                value1(position, #[trigger] more[i]).0,
                value1(position, more[i]).1,
            );
        assert(bbox.min_lon <= value1(position, more[i]).0);
    }
}

/// Keeps the lines that have a point in the box.
pub fn clip_coastline<P: Copy, F: Fn(P) -> (i64, i64)>(
    lines: &Vec<Vec<P>>,
    bbox: Bbox,
    position: &F,
) -> (r: Vec<Vec<P>>)
    requires
        function1(*position),
    ensures
        views(r@) == clipped(*position, bbox, views(lines@)),
{
    let mut out: Vec<Vec<P>> = Vec::new();
    let ghost all = views(lines@);
    assert(all.take(0) =~= Seq::<Seq<P>>::empty());
    assert(views(out@) =~= Seq::<Seq<P>>::empty());
    for i in 0..lines.len()
        invariant
            function1(*position),
            all == views(lines@),
            views(out@) == clipped(*position, bbox, all.take(i as int)),
    {
        let ghost before = out@;
        assert(all.take(i + 1).drop_last() =~= all.take(i as int));
        assert(all.take(i + 1).last() == lines@[i as int]@);
        if line_touches(position, bbox, &lines[i]) {
            let copy = copy_range(&lines[i], 0, lines[i].len());
            assert(copy@ =~= lines@[i as int]@);
            out.push(copy);
            assert(views(out@) =~= views(before).push(copy@));
        }
    }
    assert(all.take(lines@.len() as int) =~= all);
    out
}

} // verus!
