//! Bounding boxes in nanodegrees.

use vstd::prelude::*;

verus! {

/// Nanodegrees in a hundredth of a degree.
pub const NANODEG_PER_CENTIDEG: i64 = 10_000_000;

/// Nanodegrees in a degree.
pub const NANODEG: i64 = 1_000_000_000;

/// A box of longitudes and latitudes, its edges included.
#[derive(Debug, Clone, Copy, PartialEq, Eq)]
pub struct Bbox {
    pub min_lon: i64,
    pub min_lat: i64,
    pub max_lon: i64,
    pub max_lat: i64,
}

impl Bbox {
    /// The corners are in order.
    pub open spec fn is_proper(self) -> bool {
        self.min_lon <= self.max_lon && self.min_lat <= self.max_lat
    }

    /// The point lies in the box or on its edge.
    pub open spec fn has(self, lon: i64, lat: i64) -> bool {
        &&& self.min_lon <= lon <= self.max_lon
        &&& self.min_lat <= lat <= self.max_lat
    }

    /// The boxes have a point in common, an edge included.
    pub open spec fn meets(self, other: Bbox) -> bool {
        &&& other.max_lon >= self.min_lon
        &&& other.min_lon <= self.max_lon
        &&& other.max_lat >= self.min_lat
        &&& other.min_lat <= self.max_lat
    }

    pub fn contains_point(&self, lon: i64, lat: i64) -> (r: bool)
        ensures
            r == self.has(lon, lat),
    {
        lon >= self.min_lon && lon <= self.max_lon && lat >= self.min_lat && lat <= self.max_lat
    }

    pub fn overlaps(&self, other: &Bbox) -> (r: bool)
        ensures
            r == self.meets(*other),
    {
        other.max_lon >= self.min_lon && other.min_lon <= self.max_lon && other.max_lat
            >= self.min_lat && other.min_lat <= self.max_lat
    }
}

/// Boxes that are not empty meet exactly when some point lies in both, and
/// whichever is asked about the other.
pub proof fn lemma_meets(a: Bbox, b: Bbox)
    requires
        a.is_proper(),
        b.is_proper(),
    ensures
        a.meets(b) == b.meets(a),
        a.meets(b) <==> exists|lon: i64, lat: i64| #[trigger] a.has(lon, lat) && b.has(lon, lat),
{
    if a.meets(b) {
        let lon = if a.min_lon < b.min_lon {
            b.min_lon
        } else {
            a.min_lon
        };
        let lat = if a.min_lat < b.min_lat {
            b.min_lat
        } else {
            a.min_lat
        };
        assert(a.has(lon, lat) && b.has(lon, lat));
    }
}

/// A longitude and a latitude, in nanodegrees.
pub type LonLat = (i64, i64);

/// The box holds the points, and each of its edges touches one.
pub open spec fn encloses(b: Bbox, points: Seq<LonLat>) -> bool {
    &&& forall|i: int| 0 <= i < points.len() ==> b.has((#[trigger] points[i]).0, points[i].1)
    &&& exists|i: int| 0 <= i < points.len() && (#[trigger] points[i]).0 == b.min_lon
    &&& exists|i: int| 0 <= i < points.len() && (#[trigger] points[i]).1 == b.min_lat
    &&& exists|i: int| 0 <= i < points.len() && (#[trigger] points[i]).0 == b.max_lon
    &&& exists|i: int| 0 <= i < points.len() && (#[trigger] points[i]).1 == b.max_lat
}

/// The least box around some points.
pub fn bounding_rect(points: &Vec<LonLat>) -> (r: Option<Bbox>)
    ensures
        match r {
            Some(b) => encloses(b, points@) && b.is_proper(),
            None => points@.len() == 0,
        },
{
    if points.len() == 0 {
        return None;
    }
    let (lon, lat): (i64, i64) = points[0];
    let mut b = Bbox { min_lon: lon, min_lat: lat, max_lon: lon, max_lat: lat };
    let mut i: usize = 1;
    assert(encloses(b, points@.take(1))) by {
        assert(points@.take(1)[0] == points@[0]);
    }
    while i < points.len()
        invariant
            1 <= i <= points@.len(),
            encloses(b, points@.take(i as int)),
        decreases points@.len() - i,
    {
        let (lon, lat): (i64, i64) = points[i];
        let ghost before = b;
        let ghost shown = points@.take(i as int);
        if lon < b.min_lon {
            b.min_lon = lon;
        }
        if lat < b.min_lat {
            b.min_lat = lat;
        }
        if lon > b.max_lon {
            b.max_lon = lon;
        }
        if lat > b.max_lat {
            b.max_lat = lat;
        }
        proof {
            lemma_enclose_more(before, b, shown, (lon, lat));
            assert(points@.take(i + 1) =~= shown.push((lon, lat)));
        }
        i = i + 1;
    }
    assert(points@.take(i as int) =~= points@);
    assert(b.has(points@[0].0, points@[0].1));
    Some(b)
}

proof fn lemma_enclose_more(a: Bbox, b: Bbox, points: Seq<LonLat>, p: LonLat)
    requires
        encloses(a, points),
        b.min_lon == if p.0 < a.min_lon {
            p.0
        } else {
            a.min_lon
        },
        b.min_lat == if p.1 < a.min_lat {
            p.1
        } else {
            a.min_lat
        },
        b.max_lon == if p.0 > a.max_lon {
            p.0
        } else {
            a.max_lon
        },
        b.max_lat == if p.1 > a.max_lat {
            p.1
        } else {
            a.max_lat
        },
    ensures
        encloses(b, points.push(p)),
{
    let more = points.push(p);
    let n = points.len() as int;
    assert forall|i: int| 0 <= i < more.len() implies b.has((#[trigger] more[i]).0, more[i].1) by {
        if i < n {
            assert(a.has(points[i].0, points[i].1));
        }
    }
    assert(more[n] == p);
    let w = choose|i: int| 0 <= i < points.len() && (#[trigger] points[i]).0 == a.min_lon;
    let s = choose|i: int| 0 <= i < points.len() && (#[trigger] points[i]).1 == a.min_lat;
    let e = choose|i: int| 0 <= i < points.len() && (#[trigger] points[i]).0 == a.max_lon;
    let t = choose|i: int| 0 <= i < points.len() && (#[trigger] points[i]).1 == a.max_lat;
    assert(more[w] == points[w] && more[s] == points[s] && more[e] == points[e] && more[t]
        == points[t]);
    assert(a.has(points[w].0, points[w].1));
}

/// The least box around some points is the only one.
pub proof fn lemma_one_bounding_box(a: Bbox, b: Bbox, points: Seq<LonLat>)
    requires
        encloses(a, points),
        encloses(b, points),
    ensures
        a == b,
{
    let w = choose|i: int| 0 <= i < points.len() && (#[trigger] points[i]).0 == a.min_lon;
    let s = choose|i: int| 0 <= i < points.len() && (#[trigger] points[i]).1 == a.min_lat;
    let e = choose|i: int| 0 <= i < points.len() && (#[trigger] points[i]).0 == a.max_lon;
    let t = choose|i: int| 0 <= i < points.len() && (#[trigger] points[i]).1 == a.max_lat;
    assert(b.has(points[w].0, points[w].1) && b.has(points[s].0, points[s].1) && b.has(
        points[e].0,
        points[e].1,
    ) && b.has(points[t].0, points[t].1));
    let w = choose|i: int| 0 <= i < points.len() && (#[trigger] points[i]).0 == b.min_lon;
    let s = choose|i: int| 0 <= i < points.len() && (#[trigger] points[i]).1 == b.min_lat;
    let e = choose|i: int| 0 <= i < points.len() && (#[trigger] points[i]).0 == b.max_lon;
    let t = choose|i: int| 0 <= i < points.len() && (#[trigger] points[i]).1 == b.max_lat;
    assert(a.has(points[w].0, points[w].1) && a.has(points[s].0, points[s].1) && a.has(
        points[e].0,
        points[e].1,
    ) && a.has(points[t].0, points[t].1));
}

/// The box of the exterior meets `bbox`. Without points there is no box.
pub open spec fn exterior_meets(exterior: Seq<LonLat>, bbox: Bbox) -> bool {
    exists|b: Bbox| #[trigger] encloses(b, exterior) && b.meets(bbox)
}

/// Tests whether the box of a polygon's exterior meets `bbox`.
pub fn polygon_intersects_bbox(exterior: &Vec<LonLat>, bbox: Bbox) -> (r: bool)
    ensures
        r == exterior_meets(exterior@, bbox),
{
    match bounding_rect(exterior) {
        Some(b) => {
            proof {
                if exterior_meets(exterior@, bbox) {
                    let c = choose|c: Bbox| #[trigger] encloses(c, exterior@) && c.meets(bbox);
                    lemma_one_bounding_box(b, c, exterior@);
                }
            }
            b.overlaps(&bbox)
        },
        None => false,
    }
}

} // verus!
