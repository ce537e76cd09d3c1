//! Water of canals, taken from extracts of map data.

use vstd::prelude::*;
use vstd::string::*;
use crate::bounds::{encloses, exterior_meets, polygon_intersects_bbox, Bbox, LonLat};
use crate::cells::{in_build, passage_in_build};
use crate::oracle::{call1, function1, value1};
use crate::passages::{texts, Passage};
use crate::path::{join, joined};
use crate::shapefile::{shapes, Shape, ShapeView};
use crate::text::{chars_of, lower_case, lowercase, same_text, strings};

verus! {

/// Water is taken from the passage's extract: it has one, some kinds of water
/// are wanted of it, and it lies in the build.
pub open spec fn gives_water(p: Passage, bbox: Option<Bbox>) -> bool {
    p.geofabrik_url is Some && p.water_types@.len() > 0 && in_build(p, bbox)
}

/// The passages among the first `n` that water is taken from.
pub open spec fn giving_water(passages: Seq<Passage>, bbox: Option<Bbox>, n: nat) -> Seq<usize>
    decreases n,
{
    if n == 0 {
        Seq::empty()
    } else if gives_water(passages[n - 1], bbox) {
        giving_water(passages, bbox, (n - 1) as nat).push((n - 1) as usize)
    } else {
        giving_water(passages, bbox, (n - 1) as nat)
    }
}

/// The passages to take water from, as their numbers.
pub fn canals_in_build(passages: &Vec<Passage>, bbox: Option<Bbox>) -> (r: Vec<usize>)
    requires
        forall|i: int| 0 <= i < passages@.len() ==> (#[trigger] passages@[i]).wf(),
    ensures
        r@ == giving_water(passages@, bbox, passages@.len()),
{
    let mut out: Vec<usize> = Vec::new();
    let mut i: usize = 0;
    while i < passages.len()
        invariant
            forall|k: int| 0 <= k < passages@.len() ==> (#[trigger] passages@[k]).wf(),
            i <= passages@.len(),
            out@ == giving_water(passages@, bbox, i as nat),
        decreases passages@.len() - i,
    {
        let p = &passages[i];
        if p.geofabrik_url.is_some() && p.water_types.len() > 0 && passage_in_build(p, bbox) {
            out.push(i);
        }
        i = i + 1;
    }
    out
}

/// Spaces become hyphens.
pub open spec fn hyphenated(s: Seq<char>) -> Seq<char> {
    s.map_values(
        |c: char|
            if c == ' ' {
                '-'
            } else {
                c
            },
    )
}

/// A passage's name as files are named after it.
pub open spec fn file_safe(name: Seq<char>) -> Seq<char> {
    hyphenated(lower_case(name))
}

/// Puts a hyphen in place of each space.
pub fn hyphenate(s: &str) -> (r: String)
    ensures
        r@ == hyphenated(s@),
{
    let chars = chars_of(s);
    let mut out = String::new();
    let mut i: usize = 0;
    while i < chars.len()
        invariant
            chars@ == s@,
            i <= chars@.len(),
            out@ == hyphenated(s@).take(i as int),
        decreases chars@.len() - i,
    {
        if chars[i] == ' ' {
            out.push('-');
        } else {
            out.push(chars[i]);
        }
        i = i + 1;
        assert(out@ =~= hyphenated(s@).take(i as int));
    }
    assert(hyphenated(s@).take(i as int) =~= hyphenated(s@));
    out
}

/// The files of one passage.
pub struct CanalFiles {
    /// The extract, which is kept.
    pub pbf: String,
    /// The water in it.
    pub water: String,
    /// The water as GeoJSON.
    pub geojson: String,
}

/// Names the files of a passage.
pub fn canal_files(work_dir: &str, name: &str) -> (r: CanalFiles)
    ensures
        r.pbf@ == joined(work_dir@, file_safe(name@) + ".osm.pbf"@),
        r.water@ == joined(work_dir@, file_safe(name@) + "-water.osm.pbf"@),
        r.geojson@ == joined(work_dir@, file_safe(name@) + "-water.geojson"@),
{
    let safe = hyphenate(lowercase(name).as_str());
    let mut pbf = String::from_str(safe.as_str());
    pbf.append(".osm.pbf");
    let mut water = String::from_str(safe.as_str());
    water.append("-water.osm.pbf");
    let mut geojson = safe;
    geojson.append("-water.geojson");
    CanalFiles {
        pbf: join(work_dir, pbf.as_str()),
        water: join(work_dir, water.as_str()),
        geojson: join(work_dir, geojson.as_str()),
    }
}

/// Where the files of all passages go.
pub fn canal_dir(work_dir: &str) -> (r: String)
    ensures
        r@ == joined(work_dir@, "canal-water"@),
{
    join(work_dir, "canal-water")
}

/// Arguments of `osmium` that keep the water of an extract.
pub fn filter_args(files: &CanalFiles) -> (r: Vec<String>)
    ensures
        strings(r@) == seq![
            "tags-filter"@,
            files.pbf@,
            "nwr/natural=water"@,
            "-o"@,
            files.water@,
            "--overwrite"@,
        ],
{
    let mut args: Vec<String> = Vec::new();
    args.push(String::from_str("tags-filter"));
    args.push(String::from_str(files.pbf.as_str()));
    args.push(String::from_str("nwr/natural=water"));
    args.push(String::from_str("-o"));
    args.push(String::from_str(files.water.as_str()));
    args.push(String::from_str("--overwrite"));
    assert(strings(args@) =~= seq![
        "tags-filter"@,
        files.pbf@,
        "nwr/natural=water"@,
        "-o"@,
        files.water@,
        "--overwrite"@,
    ]);
    args
}

/// Arguments of `osmium` that turn the water into GeoJSON.
pub fn export_args(files: &CanalFiles) -> (r: Vec<String>)
    ensures
        strings(r@) == seq![
            "export"@,
            files.water@,
            "-o"@,
            files.geojson@,
            "--overwrite"@,
        ],
{
    let mut args: Vec<String> = Vec::new();
    args.push(String::from_str("export"));
    args.push(String::from_str(files.water.as_str()));
    args.push(String::from_str("-o"));
    args.push(String::from_str(files.geojson.as_str()));
    args.push(String::from_str("--overwrite"));
    assert(strings(args@) =~= seq![
        "export"@,
        files.water@,
        "-o"@,
        files.geojson@,
        "--overwrite"@,
    ]);
    args
}

/// What the map says of a feature: its kind of water and its kind of nature.
pub struct Tags {
    pub water: Option<String>,
    pub natural: Option<String>,
}

/// The texts of the two tags.
pub type TagsView = (Option<Seq<char>>, Option<Seq<char>>);

pub open spec fn maybe_text(s: Option<String>) -> Option<Seq<char>> {
    match s {
        Some(t) => Some(t@),
        None => None,
    }
}

impl View for Tags {
    type V = TagsView;

    open spec fn view(&self) -> TagsView {
        (maybe_text(self.water), maybe_text(self.natural))
    }
}

/// The text of a tag, empty where it is missing.
pub open spec fn tag_text(tag: Option<Seq<char>>) -> Seq<char> {
    match tag {
        Some(t) => t,
        None => Seq::empty(),
    }
}

/// The feature is water, of a wanted kind or of none.
pub open spec fn is_wanted(tags: Option<TagsView>, types: Seq<&'static str>) -> bool {
    match tags {
        Some((water, natural)) => {
            &&& tag_text(natural) == "water"@
            &&& tag_text(water).len() == 0 || texts(types).contains(tag_text(water))
        },
        None => false,
    }
}

pub open spec fn tags_view(tags: Option<Tags>) -> Option<TagsView> {
    match tags {
        Some(t) => Some(t@),
        None => None,
    }
}

fn lists(types: &Vec<&'static str>, text: &str) -> (r: bool)
    ensures
        r == texts(types@).contains(text@),
{
    let mut i: usize = 0;
    while i < types.len()
        invariant
            i <= types@.len(),
            forall|k: int| 0 <= k < i ==> (#[trigger] types@[k])@ != text@,
        decreases types@.len() - i,
    {
        if same_text(types[i], text) {
            assert(texts(types@)[i as int] == text@);
            return true;
        }
        i = i + 1;
    }
    proof {
        if texts(types@).contains(text@) {
            let k = choose|k: int| 0 <= k < texts(types@).len() && texts(types@)[k] == text@;
            assert(types@[k]@ == text@);
        }
    }
    false
}

/// Whether a feature is taken.
pub fn keep_feature(tags: &Option<Tags>, types: &Vec<&'static str>) -> (r: bool)
    ensures
        r == is_wanted(tags_view(*tags), types@),
{
    let found = match tags {
        Some(t) => t,
        None => {
            return false;
        },
    };
    let of_kind = match &found.water {
        Some(w) => w.as_str().is_empty() || lists(types, w.as_str()),
        None => true,
    };
    let is_water = match &found.natural {
        Some(n) => same_text(n.as_str(), "water"),
        None => false,
    };
    proof {
        reveal_strlit("water");
        assert("water"@.len() == 5);
        let (water, natural) = found@;
        assert(of_kind == (tag_text(water).len() == 0 || texts(types@).contains(tag_text(water))));
        assert(is_water == (tag_text(natural) == "water"@));
    }
    of_kind && is_water
}

/// Positions of a ring, each a list of numbers.
pub type Positions<N> = Vec<Vec<N>>;

/// The geometries that polygons come from.
pub enum Geometry<N> {
    Polygon(Vec<Positions<N>>),
    MultiPolygon(Vec<Vec<Positions<N>>>),
    Other,
}

/// A geometry as the numbers of its positions.
pub ghost enum GeometryView<N> {
    Polygon(Seq<Seq<Seq<N>>>),
    MultiPolygon(Seq<Seq<Seq<Seq<N>>>>),
    Other,
}

pub open spec fn ring_view<N>(ring: Seq<Vec<N>>) -> Seq<Seq<N>> {
    ring.map_values(|c: Vec<N>| c@)
}

pub open spec fn rings_view<N>(rings: Seq<Positions<N>>) -> Seq<Seq<Seq<N>>> {
    rings.map_values(|r: Positions<N>| ring_view(r@))
}

pub open spec fn polygons_view<N>(all: Seq<Vec<Positions<N>>>) -> Seq<Seq<Seq<Seq<N>>>> {
    all.map_values(|rings: Vec<Positions<N>>| rings_view(rings@))
}

impl<N> View for Geometry<N> {
    type V = GeometryView<N>;

    open spec fn view(&self) -> GeometryView<N> {
        match self {
            Geometry::Polygon(rings) => GeometryView::Polygon(rings_view(rings@)),
            Geometry::MultiPolygon(all) => GeometryView::MultiPolygon(polygons_view(all@)),
            Geometry::Other => GeometryView::Other,
        }
    }
}

/// Every position has a longitude and a latitude.
pub open spec fn positions_ok<N>(ring: Seq<Seq<N>>) -> bool {
    forall|i: int| 0 <= i < ring.len() ==> (#[trigger] ring[i]).len() >= 2
}

pub open spec fn rings_ok<N>(rings: Seq<Seq<Seq<N>>>) -> bool {
    forall|i: int| 0 <= i < rings.len() ==> positions_ok(#[trigger] rings[i])
}

pub open spec fn polygons_ok<N>(all: Seq<Seq<Seq<Seq<N>>>>) -> bool {
    forall|i: int| 0 <= i < all.len() ==> rings_ok(#[trigger] all[i])
}

impl<N> GeometryView<N> {
    pub open spec fn ok(self) -> bool {
        match self {
            GeometryView::Polygon(rings) => rings_ok(rings),
            GeometryView::MultiPolygon(all) => polygons_ok(all),
            GeometryView::Other => true,
        }
    }

    /// The polygons of a geometry.
    pub open spec fn polygons(self) -> Seq<ShapeView<(N, N)>> {
        match self {
            GeometryView::Polygon(rings) => polygon_of(rings),
            GeometryView::MultiPolygon(all) => polygons_of(all, all.len()),
            GeometryView::Other => Seq::empty(),
        }
    }
}

/// The points of a ring.
pub open spec fn points_of<N>(ring: Seq<Seq<N>>) -> Seq<(N, N)> {
    ring.map_values(|c: Seq<N>| (c[0], c[1]))
}

/// The first ring with the others as its holes; nothing where there is none.
pub open spec fn polygon_of<N>(rings: Seq<Seq<Seq<N>>>) -> Seq<ShapeView<(N, N)>> {
    if rings.len() == 0 {
        Seq::empty()
    } else {
        seq![(points_of(rings[0]), rings.skip(1).map_values(|r: Seq<Seq<N>>| points_of(r)))]
    }
}

/// The polygons of the first `n`.
pub open spec fn polygons_of<N>(all: Seq<Seq<Seq<Seq<N>>>>, n: nat) -> Seq<ShapeView<(N, N)>>
    decreases n,
{
    if n == 0 {
        Seq::empty()
    } else {
        polygons_of(all, (n - 1) as nat) + polygon_of(all[n - 1])
    }
}

fn ring_points<N: Copy>(ring: &Positions<N>) -> (r: Vec<(N, N)>)
    requires
        positions_ok(ring_view(ring@)),
    ensures
        r@ == points_of(ring_view(ring@)),
{
    let ghost want = points_of(ring_view(ring@));
    let mut out: Vec<(N, N)> = Vec::new();
    let mut i: usize = 0;
    while i < ring.len()
        invariant
            positions_ok(ring_view(ring@)),
            want == points_of(ring_view(ring@)),
            i <= ring@.len(),
            out@ == want.take(i as int),
        decreases ring@.len() - i,
    {
        let c = &ring[i];
        assert(ring_view(ring@)[i as int] == c@);
        out.push((c[0], c[1]));
        i = i + 1;
        assert(out@ =~= want.take(i as int));
    }
    assert(want.take(i as int) =~= want);
    out
}

/// A polygon from its rings.
pub fn coords_to_polygon<N: Copy>(rings: &Vec<Positions<N>>) -> (r: Option<Shape<(N, N)>>)
    requires
        rings_ok(rings_view(rings@)),
    ensures
        match r {
            Some(shape) => polygon_of(rings_view(rings@)) == seq![shape@],
            None => polygon_of(rings_view(rings@)).len() == 0,
        },
{
    if rings.len() == 0 {
        return None;
    }
    let ghost all = rings_view(rings@);
    assert(all[0] == ring_view(rings@[0]@));
    let exterior: Vec<(N, N)> = ring_points(&rings[0]);
    let mut holes: Vec<Vec<(N, N)>> = Vec::new();
    let ghost want = all.skip(1).map_values(|r: Seq<Seq<N>>| points_of(r));
    let mut i: usize = 1;
    assert(holes@.map_values(|h: Vec<(N, N)>| h@) =~= want.take(0));
    while i < rings.len()
        invariant
            all == rings_view(rings@),
            rings_ok(all),
            1 <= i <= rings@.len(),
            want == all.skip(1).map_values(|r: Seq<Seq<N>>| points_of(r)),
            holes@.map_values(|h: Vec<(N, N)>| h@) == want.take(i - 1),
        decreases rings@.len() - i,
    {
        let ghost before = holes@.map_values(|h: Vec<(N, N)>| h@);
        assert(all[i as int] == ring_view(rings@[i as int]@));
        let hole: Vec<(N, N)> = ring_points(&rings[i]);
        holes.push(hole);
        assert(holes@.map_values(|h: Vec<(N, N)>| h@) =~= before.push(points_of(all[i as int])));
        i = i + 1;
        assert(holes@.map_values(|h: Vec<(N, N)>| h@) =~= want.take(i - 1));
    }
    assert(want.take(i - 1) =~= want);
    let shape = Shape { exterior, holes };
    assert(polygon_of(all) =~= seq![shape@]);
    Some(shape)
}

/// The polygons of a geometry.
pub fn geojson_geometry_to_polygons<N: Copy>(value: &Geometry<N>) -> (r: Vec<Shape<(N, N)>>)
    requires
        value@.ok(),
    ensures
        shapes(r@) == value@.polygons(),
{
    let mut out: Vec<Shape<(N, N)>> = Vec::new();
    assert(shapes(out@) =~= Seq::<ShapeView<(N, N)>>::empty());
    match value {
        Geometry::Polygon(rings) => {
            match coords_to_polygon(rings) {
                Some(shape) => {
                    out.push(shape);
                    assert(shapes(out@) =~= seq![shape@]);
                },
                None => {
                    assert(polygon_of(rings_view(rings@)) =~= Seq::<ShapeView<(N, N)>>::empty());
                },
            }
        },
        Geometry::MultiPolygon(all) => {
            let ghost views = polygons_view(all@);
            let mut i: usize = 0;
            while i < all.len()
                invariant
                    views == polygons_view(all@),
                    polygons_ok(views),
                    i <= all@.len(),
                    shapes(out@) == polygons_of(views, i as nat),
                decreases all@.len() - i,
            {
                let ghost before = shapes(out@);
                assert(views[i as int] == rings_view(all@[i as int]@));
                match coords_to_polygon(&all[i]) {
                    Some(shape) => {
                        out.push(shape);
                        assert(shapes(out@) =~= before + seq![shape@]);
                    },
                    None => {
                        assert(before + polygon_of(views[i as int]) =~= before);
                    },
                }
                i = i + 1;
            }
        },
        Geometry::Other => {},
    }
    out
}

/// A feature of the map: its tags and its geometry, as far as it has them.
pub type Feature<N> = (Option<Tags>, Option<Geometry<N>>);

pub type FeatureView<N> = (Option<TagsView>, Option<GeometryView<N>>);

pub open spec fn geometry_view<N>(g: Option<Geometry<N>>) -> Option<GeometryView<N>> {
    match g {
        Some(g) => Some(g@),
        None => None,
    }
}

pub open spec fn feature_view<N>(f: Feature<N>) -> FeatureView<N> {
    (tags_view(f.0), geometry_view(f.1))
}

pub open spec fn features_view<N>(features: Seq<Feature<N>>) -> Seq<FeatureView<N>> {
    features.map_values(|f: Feature<N>| feature_view(f))
}

/// Positions in nanodegrees. `position` gives that of one point.
pub open spec fn placed<N, F: Fn((N, N)) -> LonLat>(position: F, points: Seq<(N, N)>) -> Seq<LonLat> {
    points.map_values(|p: (N, N)| value1(position, p))
}

/// Those of the first `n` polygons whose exterior meets the corridor.
pub open spec fn in_corridor<N, F: Fn((N, N)) -> LonLat>(
    position: F,
    corridor: Bbox,
    list: Seq<ShapeView<(N, N)>>,
    n: nat,
) -> Seq<ShapeView<(N, N)>>
    decreases n,
{
    if n == 0 {
        Seq::empty()
    } else {
        let before = in_corridor(position, corridor, list, (n - 1) as nat);
        if exterior_meets(placed(position, list[n - 1].0), corridor) {
            before.push(list[n - 1])
        } else {
            before
        }
    }
}

/// The positions of a wanted feature are complete.
pub open spec fn readable<N>(f: FeatureView<N>, types: Seq<&'static str>) -> bool {
    is_wanted(f.0, types) ==> (f.1 matches Some(g) ==> g.ok())
}

pub open spec fn all_readable<N>(features: Seq<FeatureView<N>>, types: Seq<&'static str>) -> bool {
    forall|i: int| 0 <= i < features.len() ==> readable(#[trigger] features[i], types)
}

/// The polygons that one feature gives: those in the corridor, where it is
/// wanted.
pub open spec fn water_of<N, F: Fn((N, N)) -> LonLat>(
    position: F,
    corridor: Bbox,
    types: Seq<&'static str>,
    f: FeatureView<N>,
) -> Seq<ShapeView<(N, N)>> {
    match f.1 {
        Some(g) => if is_wanted(f.0, types) {
            in_corridor(position, corridor, g.polygons(), g.polygons().len())
        } else {
            Seq::empty()
        },
        None => Seq::empty(),
    }
}

/// The polygons of the first `n` features, in their order.
pub open spec fn water_of_all<N, F: Fn((N, N)) -> LonLat>(
    position: F,
    corridor: Bbox,
    types: Seq<&'static str>,
    features: Seq<FeatureView<N>>,
    n: nat,
) -> Seq<ShapeView<(N, N)>>
    decreases n,
{
    if n == 0 {
        Seq::empty()
    } else {
        water_of_all(position, corridor, types, features, (n - 1) as nat) + water_of(
            position,
            corridor,
            types,
            features[n - 1],
        )
    }
}

/// A polygon is taken exactly if it is one of a feature that is water, of a kind that
/// is wanted or of none, and the box of its exterior meets the corridor.
pub proof fn lemma_water_taken<N, F: Fn((N, N)) -> LonLat>(
    position: F,
    corridor: Bbox,
    types: Seq<&'static str>,
    features: Seq<FeatureView<N>>,
    n: nat,
    shape: ShapeView<(N, N)>,
)
    requires
        n <= features.len(),
    ensures
        water_of_all(position, corridor, types, features, n).contains(shape) <==> exists|i: int|
            0 <= i < n && gives(position, corridor, types, #[trigger] features[i], shape),
    decreases n,
{
    if n > 0 {
        let m = (n - 1) as nat;
        lemma_water_taken(position, corridor, types, features, m, shape);
        let before = water_of_all(position, corridor, types, features, m);
        let f = features[n - 1];
        let here = water_of(position, corridor, types, f);
        crate::cells::lemma_contains_concat(before, here, shape);
        if let Some(g) = f.1 {
            let list = g.polygons();
            lemma_in_corridor(position, corridor, list, list.len(), shape);
            assert(list.take(list.len() as int) =~= list);
            lemma_wanted(f.0, types);
            assert(here.contains(shape) <==> gives(position, corridor, types, f, shape));
        }
        if gives(position, corridor, types, f, shape) {
            assert(0 <= n - 1 < n && gives(position, corridor, types, features[n - 1], shape));
        }
    }
}

/// The feature is wanted water and the polygon, one of its own, lies at the corridor.
pub open spec fn gives<N, F: Fn((N, N)) -> LonLat>(
    position: F,
    corridor: Bbox,
    types: Seq<&'static str>,
    f: FeatureView<N>,
    shape: ShapeView<(N, N)>,
) -> bool {
    &&& f.0 matches Some((water, natural)) && natural == Some("water"@) && (water is None || water
        == Some(Seq::<char>::empty()) || exists|k: int|
        0 <= k < types.len() && water == Some((#[trigger] types[k])@))
    &&& f.1 matches Some(g) && g.polygons().contains(shape)
    &&& {
        let points = shape.0.map_values(|p: (N, N)| value1(position, p));
        exists|b: Bbox| #[trigger] encloses(b, points) && b.meets(corridor)
    }
}

/// The wanted features are those that are water, of a wanted kind or of none.
pub proof fn lemma_wanted(tags: Option<TagsView>, types: Seq<&'static str>)
    ensures
        is_wanted(tags, types) <==> (tags matches Some((water, natural)) && natural == Some(
            "water"@,
        ) && (water is None || water == Some(Seq::<char>::empty()) || exists|k: int|
            0 <= k < types.len() && water == Some((#[trigger] types[k])@))),
{
    reveal_strlit("water");
    assert("water"@.len() == 5);
    if let Some((water, natural)) = tags {
        let text = tag_text(water);
        if water is Some && text.len() == 0 {
            assert(text =~= Seq::<char>::empty());
        }
        if texts(types).contains(text) {
            let k = choose|k: int| 0 <= k < texts(types).len() && texts(types)[k] == text;
            assert(types[k]@ == text);
        }
        if exists|k: int| 0 <= k < types.len() && water == Some((#[trigger] types[k])@) {
            let k = choose|k: int| 0 <= k < types.len() && water == Some((#[trigger] types[k])@);
            assert(texts(types)[k] == text);
        }
    }
}

proof fn lemma_in_corridor<N, F: Fn((N, N)) -> LonLat>(
    position: F,
    corridor: Bbox,
    list: Seq<ShapeView<(N, N)>>,
    n: nat,
    shape: ShapeView<(N, N)>,
)
    requires
        n <= list.len(),
    ensures
        in_corridor(position, corridor, list, n).contains(shape) <==> list.take(n as int).contains(
            shape,
        ) && exterior_meets(placed(position, shape.0), corridor),
    decreases n,
{
    if n > 0 {
        let m = (n - 1) as nat;
        lemma_in_corridor(position, corridor, list, m, shape);
        let before = in_corridor(position, corridor, list, m);
        let last = list[n - 1];
        assert(list.take(n as int) =~= list.take(m as int).push(last));
        assert(list.take(m as int).push(last) =~= list.take(m as int) + seq![last]);
        assert(before.push(last) =~= before + seq![last]);
        crate::cells::lemma_contains_concat(list.take(m as int), seq![last], shape);
        crate::cells::lemma_contains_concat(before, seq![last], shape);
        assert(seq![last].contains(shape) <==> shape == last) by {
            assert(seq![last][0] == last);
        }
    }
}

/// A polygon comes from a list of rings that has any: the first is its exterior, the
/// others its holes, and each point is the first two numbers of a position.
pub proof fn lemma_polygon_of_rings<N>(rings: Seq<Seq<Seq<N>>>, h: int, i: int)
    ensures
        rings.len() == 0 ==> polygon_of(rings).len() == 0,
        rings.len() > 0 ==> {
            let p = polygon_of(rings);
            &&& p.len() == 1
            &&& p[0].0.len() == rings[0].len()
            &&& p[0].1.len() == rings.len() - 1
            &&& 0 <= i < rings[0].len() ==> p[0].0[i] == (rings[0][i][0], rings[0][i][1])
            &&& 0 < h < rings.len() ==> p[0].1[h - 1].len() == rings[h].len()
            &&& 0 < h < rings.len() && 0 <= i < rings[h].len() ==> p[0].1[h - 1][i] == (
                rings[h][i][0],
                rings[h][i][1],
            )
        },
{
}

/// A geometry of several polygons has those of each, in their order.
pub proof fn lemma_polygons_add_up<N>(all: Seq<Seq<Seq<Seq<N>>>>, more: Seq<Seq<Seq<N>>>)
    ensures
        GeometryView::MultiPolygon(all.push(more)).polygons() == GeometryView::MultiPolygon(
            all,
        ).polygons() + GeometryView::Polygon(more).polygons(),
        GeometryView::<N>::Other.polygons().len() == 0,
{
    lemma_polygons_prefix(all, all.push(more), all.len());
}

proof fn lemma_polygons_prefix<N>(
    a: Seq<Seq<Seq<Seq<N>>>>,
    b: Seq<Seq<Seq<Seq<N>>>>,
    n: nat,
)
    requires
        n <= a.len() <= b.len(),
        forall|i: int| 0 <= i < a.len() ==> #[trigger] a[i] == b[i],
    ensures
        polygons_of(a, n) == polygons_of(b, n),
    decreases n,
{
    if n > 0 {
        lemma_polygons_prefix(a, b, (n - 1) as nat);
        assert(a[n - 1] == b[n - 1]);
    }
}

/// Water is taken from a passage exactly if it has an extract, some kind of water is
/// wanted of it, and the build is not limited or its box meets the corridor. The
/// passages come in ascending order.
pub proof fn lemma_giving_water(passages: Seq<Passage>, bbox: Option<Bbox>, n: nat)
    requires
        n <= passages.len() <= usize::MAX,
    ensures
        forall|i: usize| #[trigger]
            giving_water(passages, bbox, n).contains(i) <==> i < n
                && passages[i as int].geofabrik_url is Some && passages[i as int].water_types@.len()
                > 0 && (bbox matches Some(b) ==> b.meets(passages[i as int].area())),
        forall|j: int, k: int|
            0 <= j < k < giving_water(passages, bbox, n).len() ==> #[trigger] giving_water(
                passages,
                bbox,
                n,
            )[j] < #[trigger] giving_water(passages, bbox, n)[k],
    decreases n,
{
    if n > 0 {
        let m = (n - 1) as nat;
        lemma_giving_water(passages, bbox, m);
        let before = giving_water(passages, bbox, m);
        let all = giving_water(passages, bbox, n);
        let last = (n - 1) as usize;
        assert forall|i: usize| #[trigger] all.contains(i) <==> before.contains(i) || (i == last
            && gives_water(passages[n - 1], bbox)) by {
            if gives_water(passages[n - 1], bbox) {
                assert(all =~= before + seq![last]);
                crate::cells::lemma_contains_concat(before, seq![last], i);
                assert(seq![last][0] == last);
            }
        }
        assert forall|j: int, k: int| 0 <= j < k < all.len() implies #[trigger] all[j]
            < #[trigger] all[k] by {
            assert(before.contains(before[j]));
        }
    }
}

fn place<N: Copy, F: Fn((N, N)) -> LonLat>(position: &F, points: &Vec<(N, N)>) -> (r: Vec<LonLat>)
    requires
        function1(*position),
    ensures
        r@ == placed(*position, points@),
{
    let mut out: Vec<LonLat> = Vec::new();
    let mut i: usize = 0;
    while i < points.len()
        invariant
            function1(*position),
            i <= points@.len(),
            out@ == placed(*position, points@).take(i as int),
        decreases points@.len() - i,
    {
        out.push(call1(position, points[i]));
        i = i + 1;
        assert(out@ =~= placed(*position, points@).take(i as int));
    }
    assert(placed(*position, points@).take(i as int) =~= placed(*position, points@));
    out
}

/// The list with its last entry first.
pub(crate) fn reversed<T>(list: Vec<T>) -> (r: Vec<T>)
    ensures
        r@ == list@.reverse(),
        r@.take(r@.len() as int) == r@,
{
    let ghost whole = list@;
    let mut list = list;
    let mut out: Vec<T> = Vec::new();
    while list.len() > 0
        invariant
            list@.len() + out@.len() == whole.len(),
            list@ == whole.take(list@.len() as int),
            out@ == whole.reverse().take(out@.len() as int),
        decreases list@.len(),
    {
        match list.pop() {
            Some(x) => {
                assert(x == whole.reverse()[out@.len() as int]);
                out.push(x);
                assert(out@ =~= whole.reverse().take(out@.len() as int));
                assert(list@ =~= whole.take(list@.len() as int));
            },
            None => {},
        }
    }
    assert(out@ =~= whole.reverse());
    assert(out@.take(out@.len() as int) =~= out@);
    out
}

/// The water of a passage: the polygons of the wanted features that meet its
/// corridor.
pub fn passage_water<N: Copy, F: Fn((N, N)) -> LonLat>(
    features: &Vec<Feature<N>>,
    types: &Vec<&'static str>,
    corridor: Bbox,
    position: &F,
) -> (r: Vec<Shape<(N, N)>>)
    requires
        function1(*position),
        all_readable(features_view(features@), types@),
    ensures
        shapes(r@) == water_of_all(
            *position,
            corridor,
            types@,
            features_view(features@),
            features@.len(),
        ),
{
    let ghost views = features_view(features@);
    let mut out: Vec<Shape<(N, N)>> = Vec::new();
    assert(shapes(out@) =~= Seq::<ShapeView<(N, N)>>::empty());
    let mut i: usize = 0;
    while i < features.len()
        invariant
            function1(*position),
            views == features_view(features@),
            all_readable(views, types@),
            i <= features@.len(),
            shapes(out@) == water_of_all(*position, corridor, types@, views, i as nat),
        decreases features@.len() - i,
    {
        let ghost f = views[i as int];
        assert(f == feature_view(features@[i as int]));
        assert(readable(f, types@));
        let ghost before = shapes(out@);
        let mut found: Vec<Shape<(N, N)>> = Vec::new();
        assert(shapes(found@) =~= Seq::<ShapeView<(N, N)>>::empty());
        if keep_feature(&features[i].0, types) {
            match &features[i].1 {
                Some(g) => {
                    found = kept_polygons(g, corridor, position);
                },
                None => {},
            }
        }
        let ghost some = shapes(found@);
        assert(some == water_of(*position, corridor, types@, f));
        out.append(&mut found);
        assert(shapes(out@) =~= before + some);
        i = i + 1;
    }
    out
}

/// The polygons of a geometry that meet the corridor.
fn kept_polygons<N: Copy, F: Fn((N, N)) -> LonLat>(
    g: &Geometry<N>,
    corridor: Bbox,
    position: &F,
) -> (r: Vec<Shape<(N, N)>>)
    requires
        function1(*position),
        g@.ok(),
    ensures
        shapes(r@) == in_corridor(*position, corridor, g@.polygons(), g@.polygons().len()),
{
    let list: Vec<Shape<(N, N)>> = geojson_geometry_to_polygons(g);
    let ghost whole = list@;
    let ghost all = shapes(whole);
    let mut out: Vec<Shape<(N, N)>> = Vec::new();
    assert(shapes(out@) =~= Seq::<ShapeView<(N, N)>>::empty());
    let mut rest = reversed(list);
    let ghost mut k: nat = 0;
    while rest.len() > 0
        invariant
            all == shapes(whole),
            rest@.len() + k == whole.len(),
            rest@ == whole.reverse().take(rest@.len() as int),
            function1(*position),
            shapes(out@) == in_corridor(*position, corridor, all, k),
        decreases rest@.len(),
    {
        match rest.pop() {
            Some(shape) => {
                let ghost before = shapes(out@);
                assert(shape@ == all[k as int]);
                let points = place(position, &shape.exterior);
                if polygon_intersects_bbox(&points, corridor) {
                    out.push(shape);
                    assert(shapes(out@) =~= before.push(shape@));
                }
                proof {
                    k = k + 1;
                }
                assert(rest@ =~= whole.reverse().take(rest@.len() as int));
            },
            None => {},
        }
    }
    out
}

} // verus!
