//! Water of a passage, read from the text of a map extract.

use vstd::prelude::*;
use vstd::string::*;
use geojson::{FeatureCollection, GeoJson, PolygonType, Value};
use crate::bounds::{Bbox, LonLat};
use crate::canal_water::{
    all_readable, features_view, geometry_view, feature_view, maybe_text, passage_water, reversed,
    water_of_all, Feature, FeatureView, Geometry, GeometryView, Positions, Tags, TagsView,
};
use crate::oracle::function1;
use crate::shapefile::{shapes, Shape};
use crate::text::same_text;

verus! {

/// What is said of a feature: a name, with a text where the value is one.
pub type Property = (String, Option<String>);

/// A feature as it stands in the text. The numbers of its positions are the bits
/// of floating-point numbers.
pub struct RawFeature {
    pub properties: Option<Vec<Property>>,
    pub geometry: Option<Geometry<u64>>,
}

/// What a text of this format holds.
pub enum Document {
    Geometry,
    Feature,
    Collection(Vec<RawFeature>),
}

pub type PropertyView = (Seq<char>, Option<Seq<char>>);

pub type RawView = (Option<Seq<PropertyView>>, Option<GeometryView<u64>>);

pub ghost enum DocumentView {
    Geometry,
    Feature,
    Collection(Seq<RawView>),
}

pub open spec fn properties_view(list: Seq<Property>) -> Seq<PropertyView> {
    list.map_values(|p: Property| (p.0@, maybe_text(p.1)))
}

pub open spec fn maybe_properties(list: Option<Vec<Property>>) -> Option<Seq<PropertyView>> {
    match list {
        Some(list) => Some(properties_view(list@)),
        None => None,
    }
}

impl View for RawFeature {
    type V = RawView;

    open spec fn view(&self) -> RawView {
        (maybe_properties(self.properties), geometry_view(self.geometry))
    }
}

pub open spec fn raws_view(list: Seq<RawFeature>) -> Seq<RawView> {
    list.map_values(|f: RawFeature| f@)
}

impl View for Document {
    type V = DocumentView;

    open spec fn view(&self) -> DocumentView {
        match self {
            Document::Geometry => DocumentView::Geometry,
            Document::Feature => DocumentView::Feature,
            Document::Collection(list) => DocumentView::Collection(raws_view(list@)),
        }
    }
}

/// The positions of all polygons have a longitude and a latitude.
pub open spec fn is_complete(doc: DocumentView) -> bool {
    match doc {
        DocumentView::Collection(list) => forall|i: int|
            0 <= i < list.len() ==> ((#[trigger] list[i]).1 matches Some(g) ==> g.ok()),
        _ => true,
    }
}

/// What the text holds; nothing where it is not of this format.
pub uninterp spec fn parsed_geojson(text: Seq<char>) -> Option<DocumentView>;

/// A collection of features as the `geojson` crate keeps it.
#[verifier::external_type_specification]
#[verifier::external_body]
pub struct ExFeatureCollection(geojson::FeatureCollection);

/// The features of a collection, in their order.
pub uninterp spec fn features_in(c: FeatureCollection) -> Seq<RawView>;

/// What the `geojson` crate finds in a text.
enum Parsed {
    Geometry,
    Feature,
    Collection(FeatureCollection),
}

impl View for Parsed {
    type V = DocumentView;

    closed spec fn view(&self) -> DocumentView {
        match self {
            Parsed::Geometry => DocumentView::Geometry,
            Parsed::Feature => DocumentView::Feature,
            Parsed::Collection(c) => DocumentView::Collection(features_in(*c)),
        }
    }
}

spec fn parsed_view(p: Option<Parsed>) -> Option<DocumentView> {
    match p {
        Some(p) => Some(p@),
        None => None,
    }
}

/// `FromStr` of `geojson::GeoJson`. What it makes of a text is named. It refuses
/// positions of fewer than two numbers.
#[verifier::external_body]
fn parse_geojson(text: &str) -> (r: Option<Parsed>)
    ensures
        parsed_view(r) == parsed_geojson(text@),
        r matches Some(p) ==> is_complete(p@),
{
    text.parse().ok().map(|parsed: GeoJson| match parsed {
        GeoJson::Geometry(_) => Parsed::Geometry,
        GeoJson::Feature(_) => Parsed::Feature,
        GeoJson::FeatureCollection(all) => Parsed::Collection(all),
    })
}

/// The length of `geojson::FeatureCollection::features`.
#[verifier::external_body]
fn feature_count(c: &FeatureCollection) -> (r: usize)
    ensures
        r == features_in(*c).len(),
{
    c.features.len()
}

/// `geojson::Feature::properties` of feature `i`: names and values, with a text
/// where the value is one.
#[verifier::external_body]
fn properties_at(c: &FeatureCollection, i: usize) -> (r: Option<Vec<Property>>)
    requires
        i < features_in(*c).len(),
    ensures
        maybe_properties(r) == features_in(*c)[i as int].0,
{
    let text = |v: &geojson::JsonValue| v.as_str().map(String::from);
    let properties = c.features[i].properties.as_ref();
    properties.map(|list| list.iter().map(|(name, v)| (name.clone(), text(v))).collect())
}

/// `geojson::Feature::geometry` of feature `i`, each number by its bits.
#[verifier::external_body]
fn geometry_at(c: &FeatureCollection, i: usize) -> (r: Option<Geometry<u64>>)
    requires
        i < features_in(*c).len(),
    ensures
        geometry_view(r) == features_in(*c)[i as int].1,
{
    let ring = |r: &Vec<geojson::Position>| -> Positions<u64> {
        r.iter().map(|c| c.iter().map(|x| x.to_bits()).collect()).collect()
    };
    let polygon = |p: &PolygonType| p.iter().map(ring).collect();
    c.features[i].geometry.as_ref().map(|g| match &g.value {
        Value::Polygon(p) => Geometry::Polygon(polygon(p)),
        Value::MultiPolygon(all) => Geometry::MultiPolygon(all.iter().map(polygon).collect()),
        _ => Geometry::Other,
    })
}

fn to_document(parsed: Parsed) -> (r: Document)
    ensures
        r@ == parsed@,
{
    match parsed {
        Parsed::Geometry => Document::Geometry,
        Parsed::Feature => Document::Feature,
        Parsed::Collection(c) => {
            let n: usize = feature_count(&c);
            let mut list: Vec<RawFeature> = Vec::new();
            for i in 0..n
                invariant
                    n == features_in(c).len(),
                    raws_view(list@) == features_in(c).take(i as int),
            {
                let ghost before = raws_view(list@);
                let raw = RawFeature {
                    properties: properties_at(&c, i),
                    geometry: geometry_at(&c, i),
                };
                assert(raw@ == features_in(c)[i as int]);
                list.push(raw);
                assert(raws_view(list@) =~= before.push(raw@));
                assert(raws_view(list@) =~= features_in(c).take(i + 1));
            }
            assert(features_in(c).take(n as int) =~= features_in(c));
            Document::Collection(list)
        },
    }
}

/// What the properties from `i` on say under a name: the first one counts.
pub open spec fn property_from(list: Seq<PropertyView>, name: Seq<char>, i: int) -> Option<Seq<char>>
    decreases list.len() - i,
{
    if i < 0 || i >= list.len() {
        None
    } else if list[i].0 == name {
        list[i].1
    } else {
        property_from(list, name, i + 1)
    }
}

/// The first property of the name, at place `k`, counts. Where none has the name there is
/// nothing.
pub proof fn lemma_first_property(list: Seq<PropertyView>, name: Seq<char>, i: int, k: int)
    requires
        0 <= i <= k <= list.len(),
        forall|j: int| i <= j < k ==> (#[trigger] list[j]).0 != name,
    ensures
        k == list.len() ==> property_from(list, name, i) is None,
        k < list.len() && list[k].0 == name ==> property_from(list, name, i) == list[k].1,
    decreases k - i,
{
    if i < k {
        assert(list[i].0 != name);
        lemma_first_property(list, name, i + 1, k);
    }
}

/// The two tags among the properties.
pub open spec fn tags_among(list: Option<Seq<PropertyView>>) -> Option<TagsView> {
    match list {
        Some(list) => Some(
            (property_from(list, "water"@, 0), property_from(list, "natural"@, 0)),
        ),
        None => None,
    }
}

/// The feature with what counts of its properties.
pub open spec fn feature_of(raw: RawView) -> FeatureView<u64> {
    (tags_among(raw.0), raw.1)
}

/// The features of a collection. Nothing else has any.
pub open spec fn features_of(doc: DocumentView) -> Seq<FeatureView<u64>> {
    match doc {
        DocumentView::Collection(list) => list.map_values(|raw: RawView| feature_of(raw)),
        _ => Seq::empty(),
    }
}

/// Every feature of a collection is one, in its place, with its geometry and the tags of
/// its own properties. Other documents have none.
pub proof fn lemma_features_of(list: Seq<RawView>, i: int)
    ensures
        features_of(DocumentView::Geometry).len() == 0,
        features_of(DocumentView::Feature).len() == 0,
        features_of(DocumentView::Collection(list)).len() == list.len(),
        0 <= i < list.len() ==> {
            let f = features_of(DocumentView::Collection(list))[i];
            &&& f.1 == list[i].1
            &&& f.0 is Some <==> list[i].0 is Some
            &&& list[i].0 matches Some(p) ==> f.0 == Some(
                (property_from(p, "water"@, 0), property_from(p, "natural"@, 0)),
            )
        },
{
}

fn find_property(list: &Vec<Property>, name: &str) -> (r: Option<String>)
    ensures
        maybe_text(r) == property_from(properties_view(list@), name@, 0),
{
    let ghost views = properties_view(list@);
    let mut i: usize = 0;
    while i < list.len()
        invariant
            views == properties_view(list@),
            i <= list@.len(),
            property_from(views, name@, 0) == property_from(views, name@, i as int),
        decreases list@.len() - i,
    {
        assert(views[i as int] == (list@[i as int].0@, maybe_text(list@[i as int].1)));
        if same_text(list[i].0.as_str(), name) {
            return match &list[i].1 {
                Some(text) => Some(String::from_str(text.as_str())),
                None => None,
            };
        }
        i = i + 1;
    }
    None
}

fn to_feature(raw: RawFeature) -> (r: Feature<u64>)
    ensures
        feature_view(r) == feature_of(raw@),
{
    let tags = match &raw.properties {
        Some(list) => Some(
            Tags { water: find_property(list, "water"), natural: find_property(list, "natural") },
        ),
        None => None,
    };
    (tags, raw.geometry)
}

fn to_features(doc: Document) -> (r: Vec<Feature<u64>>)
    ensures
        features_view(r@) == features_of(doc@),
{
    let mut out: Vec<Feature<u64>> = Vec::new();
    match doc {
        Document::Collection(list) => {
            let ghost whole = list@;
            let mut rest = reversed(list);
            let ghost want = features_of(doc@);
            while rest.len() > 0
                invariant
                    want == raws_view(whole).map_values(|raw: RawView| feature_of(raw)),
                    rest@.len() + out@.len() == whole.len(),
                    rest@ == whole.reverse().take(rest@.len() as int),
                    features_view(out@) == want.take(out@.len() as int),
                decreases rest@.len(),
            {
                match rest.pop() {
                    Some(raw) => {
                        let ghost before = features_view(out@);
                        let ghost k = out@.len() as int;
                        assert(raw == whole[k]);
                        assert(want[k] == feature_of(raw@));
                        out.push(to_feature(raw));
                        assert(features_view(out@) =~= before.push(want[k]));
                        assert(features_view(out@) =~= want.take(k + 1));
                        assert(rest@ =~= whole.reverse().take(rest@.len() as int));
                    },
                    None => {},
                }
            }
            assert(want.take(out@.len() as int) =~= want);
        },
        _ => {},
    }
    out
}

/// The water of a passage among the features of a document; see
/// [`passage_water`].
pub fn water_of_document<F: Fn((u64, u64)) -> LonLat>(
    doc: Document,
    types: &Vec<&'static str>,
    corridor: Bbox,
    position: &F,
) -> (r: Vec<Shape<(u64, u64)>>)
    requires
        function1(*position),
        all_readable(features_of(doc@), types@),
    ensures
        shapes(r@) == water_of_all(
            *position,
            corridor,
            types@,
            features_of(doc@),
            features_of(doc@).len(),
        ),
{
    let features = to_features(doc);
    assert(features_view(features@).len() == features@.len());
    passage_water(&features, types, corridor, position)
}

/// The water of a passage in the text of a map extract. The coordinates of what
/// comes out are bits of floating-point numbers, as `position` takes them.
/// Nothing comes out where the text is not of the format.
pub fn water_of_text<F: Fn((u64, u64)) -> LonLat>(
    text: &str,
    types: &Vec<&'static str>,
    corridor: Bbox,
    position: &F,
) -> (r: Option<Vec<Shape<(u64, u64)>>>)
    requires
        function1(*position),
    ensures
        match r {
            Some(water) => parsed_geojson(text@) matches Some(doc) && shapes(water@)
                == water_of_all(
                *position,
                corridor,
                types@,
                features_of(doc),
                features_of(doc).len(),
            ),
            None => parsed_geojson(text@) is None,
        },
{
    match parse_geojson(text) {
        Some(parsed) => {
            let doc = to_document(parsed);
            assert(all_readable(features_of(doc@), types@));
            Some(water_of_document(doc, types, corridor, position))
        },
        None => None,
    }
}

} // verus!
