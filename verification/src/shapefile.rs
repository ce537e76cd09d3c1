//! Land polygons from shapefiles: rings, files and their unpacking.

use vstd::prelude::*;
use vstd::string::*;
use crate::bounds::{exterior_meets, polygon_intersects_bbox, Bbox, LonLat};
use crate::path::{extension, file_name, has_name, join, joined, last_part, renamed, with_file_name};
use crate::text::{chars_of, same_text, string_of};

verus! {

/// A ring of a shape. An outer ring starts a polygon, the inner ones behind it
/// are its holes.
pub struct Ring<P> {
    pub outer: bool,
    pub points: Vec<P>,
}

/// A polygon with its holes.
pub struct Shape<P> {
    pub exterior: Vec<P>,
    pub holes: Vec<Vec<P>>,
}

/// The points of a polygon's exterior, and of its holes.
pub type ShapeView<P> = (Seq<P>, Seq<Seq<P>>);

impl<P> View for Shape<P> {
    type V = ShapeView<P>;

    open spec fn view(&self) -> ShapeView<P> {
        (self.exterior@, self.holes@.map_values(|h: Vec<P>| h@))
    }
}

/// The points of the inner rings that follow from `i` on, up to the next outer
/// one.
pub open spec fn holes_from<P>(rings: Seq<Ring<P>>, i: int) -> Seq<Seq<P>>
    decreases rings.len() - i,
{
    if i < 0 || i >= rings.len() || rings[i].outer {
        Seq::empty()
    } else {
        seq![rings[i].points@] + holes_from(rings, i + 1)
    }
}

/// The polygons of the rings from `i` on. Inner rings before the first outer one
/// belong to none.
pub open spec fn shapes_from<P>(rings: Seq<Ring<P>>, i: int) -> Seq<ShapeView<P>>
    decreases rings.len() - i,
{
    if i < 0 || i >= rings.len() {
        Seq::empty()
    } else if rings[i].outer {
        seq![(rings[i].points@, holes_from(rings, i + 1))] + shapes_from(rings, i + 1)
    } else {
        shapes_from(rings, i + 1)
    }
}

proof fn lemma_holes<P>(rings: Seq<Ring<P>>, i: int, j: int)
    requires
        0 <= i <= j <= rings.len(),
        j == rings.len() || rings[j].outer,
        forall|k: int| i <= k < j ==> !(#[trigger] rings[k]).outer,
    ensures
        holes_from(rings, i) == Seq::new((j - i) as nat, |k: int| rings[i + k].points@),
    decreases j - i,
{
    let all = Seq::new((j - i) as nat, |k: int| rings[i + k].points@);
    if i < j {
        lemma_holes(rings, i + 1, j);
        assert(!rings[i].outer);
        assert(holes_from(rings, i) =~= all);
    } else {
        assert(holes_from(rings, i) =~= all);
    }
}

/// Number of outer rings from `i` on.
pub open spec fn outer_count<P>(rings: Seq<Ring<P>>, i: int) -> nat
    decreases rings.len() - i,
{
    if i < 0 || i >= rings.len() {
        0
    } else {
        (if rings[i].outer {
            1nat
        } else {
            0
        }) + outer_count(rings, i + 1)
    }
}

/// Every outer ring makes one polygon, and nothing else does. Its holes are the inner
/// rings between it, at place `i`, and the next outer one or the end, at place `j`, in
/// their order. A polygon has as many before it as there are outer rings before its
/// own.
pub proof fn lemma_shape_of_ring<P>(rings: Seq<Ring<P>>, start: int, i: int, j: int)
    requires
        0 <= start <= i < j <= rings.len(),
        rings[i].outer,
        j == rings.len() || rings[j].outer,
        forall|k: int| i < k < j ==> !(#[trigger] rings[k]).outer,
    ensures
        shapes_from(rings, start).len() == outer_count(rings, start),
        outer_count(rings, start) > outer_count(rings, i + 1),
        shapes_from(rings, start)[outer_count(rings, start) - outer_count(rings, i + 1) - 1] == (
            rings[i].points@,
            Seq::new((j - i - 1) as nat, |k: int| rings[i + 1 + k].points@),
        ),
    decreases i - start,
{
    if start < i {
        lemma_shape_of_ring(rings, start + 1, i, j);
    } else {
        lemma_holes(rings, i + 1, j);
        lemma_shape_count(rings, i);
    }
}

proof fn lemma_shape_count<P>(rings: Seq<Ring<P>>, i: int)
    requires
        0 <= i <= rings.len(),
    ensures
        shapes_from(rings, i).len() == outer_count(rings, i),
    decreases rings.len() - i,
{
    if i < rings.len() {
        lemma_shape_count(rings, i + 1);
    }
}

/// The views of a list of polygons.
pub open spec fn shapes<P>(list: Seq<Shape<P>>) -> Seq<ShapeView<P>> {
    list.map_values(|s: Shape<P>| s@)
}

fn copy_points<P: Copy>(points: &Vec<P>) -> (r: Vec<P>)
    ensures
        r@ == points@,
{
    let mut out: Vec<P> = Vec::new();
    let mut i: usize = 0;
    while i < points.len()
        invariant
            i <= points@.len(),
            out@ == points@.take(i as int),
        decreases points@.len() - i,
    {
        out.push(points[i]);
        i = i + 1;
        assert(points@.take(i as int) =~= points@.take(i - 1).push(points@[i - 1]));
    }
    assert(points@.take(i as int) =~= points@);
    out
}

/// Groups the rings of a shape into polygons.
pub fn convert_shapefile_polygon<P: Copy>(rings: &Vec<Ring<P>>) -> (r: Vec<Shape<P>>)
    ensures
        shapes(r@) == shapes_from(rings@, 0),
{
    let mut out: Vec<Shape<P>> = Vec::new();
    let mut i: usize = 0;
    assert(shapes(out@) =~= Seq::<ShapeView<P>>::empty());
    while i < rings.len()
        invariant
            i <= rings@.len(),
            shapes(out@) + shapes_from(rings@, i as int) == shapes_from(rings@, 0),
        decreases rings@.len() - i,
    {
        if !rings[i].outer {
            i = i + 1;
            continue;
        }
        let exterior: Vec<P> = copy_points(&rings[i].points);
        let mut holes: Vec<Vec<P>> = Vec::new();
        let mut j: usize = i + 1;
        let ghost inner = holes@.map_values(|h: Vec<P>| h@);
        assert(inner =~= Seq::<Seq<P>>::empty());
        while j < rings.len() && !rings[j].outer
            invariant
                i < j <= rings@.len(),
                holes@.map_values(|h: Vec<P>| h@) + holes_from(rings@, j as int) == holes_from(
                    rings@,
                    i + 1,
                ),
                shapes_from(rings@, i + 1) == shapes_from(rings@, j as int),
            decreases rings@.len() - j,
        {
            let ghost before = holes@.map_values(|h: Vec<P>| h@);
            let hole: Vec<P> = copy_points(&rings[j].points);
            holes.push(hole);
            proof {
                assert(holes@.map_values(|h: Vec<P>| h@) =~= before.push(rings@[j as int].points@));
                assert(before.push(rings@[j as int].points@) + holes_from(rings@, j + 1) =~= before
                    + holes_from(rings@, j as int));
            }
            j = j + 1;
        }
        let ghost done = shapes(out@);
        let shape = Shape { exterior, holes };
        proof {
            assert(shape@.1 =~= holes_from(rings@, i + 1));
        }
        out.push(shape);
        proof {
            assert(shapes(out@) =~= done.push(shape@));
            assert(shapes(out@) + shapes_from(rings@, j as int) =~= done + shapes_from(
                rings@,
                i as int,
            ));
        }
        i = j;
    }
    assert(shapes(out@) =~= shapes(out@) + shapes_from(rings@, i as int));
    out
}

/// The polygon belongs to the build: the box of its exterior meets the build's,
/// where there is one.
pub fn in_build(exterior: &Vec<LonLat>, bbox: Option<Bbox>) -> (r: bool)
    ensures
        r == (bbox matches Some(b) ==> exterior_meets(exterior@, b)),
{
    match bbox {
        Some(b) => polygon_intersects_bbox(exterior, b),
        None => true,
    }
}

/// A file of shapes goes by its extension.
pub fn is_shapefile(path: &str) -> (r: bool)
    ensures
        r == (crate::path::ext(path@) == Some("shp"@)),
{
    match extension(path) {
        Some(e) => same_text(e.as_str(), "shp"),
        None => false,
    }
}

/// Name of the archive of land polygons, and of what it is unpacked to.
pub open spec fn land_archive() -> Seq<char> {
    "land-polygons-split-4326.zip"@
}

/// Where the archive goes.
pub fn archive_path(output_dir: &str) -> (r: String)
    ensures
        r@ == joined(output_dir@, land_archive()),
{
    join(output_dir, "land-polygons-split-4326.zip")
}

/// Where the archive is unpacked to.
pub fn extract_path(output_dir: &str) -> (r: String)
    ensures
        r@ == joined(output_dir@, "land-polygons-split-4326"@),
{
    join(output_dir, "land-polygons-split-4326")
}

/// Where it is unpacked to at first: a directory beside the other.
pub open spec fn unfinished_path(extract_dir: Seq<char>) -> Seq<char> {
    let name = if has_name(extract_dir) {
        last_part(extract_dir)
    } else {
        "extract"@
    };
    renamed(extract_dir, name + ".extracting.tmp"@)
}

/// Computes [`unfinished_path`].
pub fn extracting_path(extract_dir: &str) -> (r: String)
    ensures
        r@ == unfinished_path(extract_dir@),
{
    let mut name = match file_name(extract_dir) {
        Some(n) => n,
        None => String::from_str("extract"),
    };
    name.append(".extracting.tmp");
    with_file_name(extract_dir, name.as_str())
}

/// What follows the last slash.
pub open spec fn flat_name(name: Seq<char>) -> Seq<char> {
    name.skip(crate::path::name_start(name, name.len() as int))
}

/// The name under which an entry of the archive is unpacked, without its
/// directories. A directory is not unpacked.
pub fn entry_file_name(name: &str) -> (r: Option<String>)
    ensures
        match r {
            Some(n) => n@ == flat_name(name@) && n@.len() > 0,
            None => flat_name(name@).len() == 0,
        },
{
    let chars = chars_of(name);
    let mut k: usize = chars.len();
    while k > 0 && chars[k - 1] != '/'
        invariant
            chars@ == name@,
            k <= chars@.len(),
            crate::path::name_start(name@, k as int) == crate::path::name_start(
                name@,
                name@.len() as int,
            ),
        decreases k,
    {
        k = k - 1;
    }
    let file = string_of(&chars, k, chars.len());
    assert(file@ =~= flat_name(name@));
    if k == chars.len() {
        None
    } else {
        Some(file)
    }
}

/// A step of unpacking an archive.
#[derive(Debug, Clone, Copy, PartialEq, Eq, Structural)]
pub enum Extraction {
    /// Make the temporary directory, after removing what a broken run left.
    Prepare,
    /// Unpack an entry into it.
    Entry(usize),
    /// Put it in place of the final directory.
    Publish,
    /// Remove it.
    Discard,
    Done,
    Failed,
}

impl Extraction {
    /// The step after this one went well or not, in an archive of `n` entries.
    pub open spec fn then_step(self, went_well: bool, n: usize) -> Extraction {
        match self {
            Extraction::Prepare => if !went_well {
                Extraction::Failed
            } else if n == 0 {
                Extraction::Publish
            } else {
                Extraction::Entry(0)
            },
            Extraction::Entry(i) => if !went_well {
                Extraction::Discard
            } else if i + 1 < n {
                Extraction::Entry((i + 1) as usize)
            } else {
                Extraction::Publish
            },
            Extraction::Publish => if went_well {
                Extraction::Done
            } else {
                Extraction::Failed
            },
            Extraction::Discard => Extraction::Failed,
            Extraction::Done => Extraction::Done,
            Extraction::Failed => Extraction::Failed,
        }
    }

    /// Computes [`Extraction::then_step`].
    pub fn next(self, went_well: bool, n: usize) -> (r: Extraction)
        ensures
            r == self.then_step(went_well, n),
    {
        match self {
            Extraction::Prepare => if !went_well {
                Extraction::Failed
            } else if n == 0 {
                Extraction::Publish
            } else {
                Extraction::Entry(0)
            },
            Extraction::Entry(i) => if !went_well {
                Extraction::Discard
            } else if i < n && n - i > 1 {
                Extraction::Entry(i + 1)
            } else {
                Extraction::Publish
            },
            Extraction::Publish => if went_well {
                Extraction::Done
            } else {
                Extraction::Failed
            },
            Extraction::Discard => Extraction::Failed,
            Extraction::Done => Extraction::Done,
            Extraction::Failed => Extraction::Failed,
        }
    }
}

/// The step after the first `k` outcomes.
pub open spec fn step_after(outcomes: Seq<bool>, n: usize, k: int) -> Extraction
    decreases k,
{
    if k <= 0 {
        Extraction::Prepare
    } else {
        step_after(outcomes, n, k - 1).then_step(outcomes[k - 1], n)
    }
}

/// The final directory is touched only once every entry has been unpacked: a
/// failure before leaves nothing there that could pass for a whole archive, and
/// the temporary directory is removed.
pub proof fn lemma_extraction_is_atomic(outcomes: Seq<bool>, n: usize, k: int)
    requires
        0 <= k <= outcomes.len(),
    ensures
        step_after(outcomes, n, k) == Extraction::Publish <==> k == n + 1 && forall|j: int|
            0 <= j < k ==> #[trigger] outcomes[j],
        step_after(outcomes, n, k) == Extraction::Done ==> k > n + 1 && forall|j: int|
            0 <= j < n + 2 ==> #[trigger] outcomes[j],
        (exists|j: int| 0 <= j < n + 1 && j < k - 1 && !(#[trigger] outcomes[j])) ==> step_after(
            outcomes,
            n,
            k,
        ) == Extraction::Failed,
        0 < k <= n + 1 && !outcomes[k - 1] && (forall|j: int|
            0 <= j < k - 1 ==> #[trigger] outcomes[j]) ==> step_after(outcomes, n, k) == if k == 1 {
            Extraction::Failed
        } else {
            Extraction::Discard
        },
    decreases k,
{
    lemma_progress(outcomes, n, k);
    if k > 0 {
        lemma_progress(outcomes, n, k - 1);
    }
}

/// Where the unpacking stands after `k` outcomes.
proof fn lemma_progress(outcomes: Seq<bool>, n: usize, k: int)
    requires
        0 <= k <= outcomes.len(),
    ensures
        ({
            let step = step_after(outcomes, n, k);
            let good = forall|j: int| 0 <= j < k ==> #[trigger] outcomes[j];
            &&& k == 0 ==> step == Extraction::Prepare
            &&& good && 0 < k <= n ==> step == Extraction::Entry((k - 1) as usize)
            &&& good && k == n + 1 ==> step == Extraction::Publish
            &&& good && k > n + 1 ==> step == Extraction::Done
            &&& !good ==> step == Extraction::Failed || step == Extraction::Discard || step
                == Extraction::Done
            &&& !good && step == Extraction::Discard ==> !outcomes[k - 1] && k >= 2 && (forall|j: int|
                0 <= j < k - 1 ==> #[trigger] outcomes[j])
            &&& !good && step == Extraction::Done ==> k > n + 1 && (forall|j: int|
                0 <= j < n + 2 ==> #[trigger] outcomes[j])
            &&& !good && 2 <= k <= n + 1 && (forall|j: int|
                0 <= j < k - 1 ==> #[trigger] outcomes[j]) ==> step == Extraction::Discard
        }),
    decreases k,
{
    if k > 0 {
        lemma_progress(outcomes, n, k - 1);
        if forall|j: int| 0 <= j < k ==> #[trigger] outcomes[j] {
            assert(forall|j: int| 0 <= j < k - 1 ==> #[trigger] outcomes[j]);
            assert(outcomes[k - 1]);
        } else if forall|j: int| 0 <= j < k - 1 ==> #[trigger] outcomes[j] {
            assert(!outcomes[k - 1]);
        }
    }
}

} // verus!
