//! Critical maritime passages.

use vstd::prelude::*;
use crate::bounds::{Bbox, NANODEG_PER_CENTIDEG};
use crate::h3::MAX_RESOLUTION;

verus! {

/// A passage, given by a corridor around the waterway. Inside it cells are
/// refined further than elsewhere.
pub struct Passage {
    pub name: &'static str,
    /// Least longitude and latitude, then greatest, in hundredths of a degree.
    pub corridor: (i32, i32, i32, i32),
    /// Resolution of the cells that tell what belongs to the corridor.
    pub zone_resolution: u8,
    /// Resolution down to which cells are refined there.
    pub leaf_resolution: u8,
    /// Extract of map data with the canal's water. There is none for sea-level
    /// canals and straits, where the coastline leaves the gap already.
    pub geofabrik_url: Option<&'static str>,
    /// Kinds of water to take from the extract. With none, nothing is taken.
    pub water_types: Vec<&'static str>,
}

/// The texts of a list of strings.
pub open spec fn texts(list: Seq<&'static str>) -> Seq<Seq<char>> {
    list.map_values(|s: &'static str| s@)
}

impl Passage {
    /// The corridor's coordinates are those of points on the globe, and the
    /// resolutions are those of H3.
    pub open spec fn wf(&self) -> bool {
        &&& self.zone_resolution <= MAX_RESOLUTION
        &&& self.leaf_resolution <= MAX_RESOLUTION
        &&& -18000 <= self.corridor.0 <= 18000
        &&& -9000 <= self.corridor.1 <= 9000
        &&& -18000 <= self.corridor.2 <= 18000
        &&& -9000 <= self.corridor.3 <= 9000
    }

    /// The corridor in nanodegrees.
    pub open spec fn area(&self) -> Bbox {
        Bbox {
            min_lon: (self.corridor.0 * NANODEG_PER_CENTIDEG) as i64,
            min_lat: (self.corridor.1 * NANODEG_PER_CENTIDEG) as i64,
            max_lon: (self.corridor.2 * NANODEG_PER_CENTIDEG) as i64,
            max_lat: (self.corridor.3 * NANODEG_PER_CENTIDEG) as i64,
        }
    }

    /// Computes [`Passage::area`].
    pub fn bounds(&self) -> (r: Bbox)
        requires
            self.wf(),
        ensures
            r == self.area(),
    {
        Bbox {
            min_lon: self.corridor.0 as i64 * NANODEG_PER_CENTIDEG,
            min_lat: self.corridor.1 as i64 * NANODEG_PER_CENTIDEG,
            max_lon: self.corridor.2 as i64 * NANODEG_PER_CENTIDEG,
            max_lat: self.corridor.3 as i64 * NANODEG_PER_CENTIDEG,
        }
    }

    /// A point lies in the corridor exactly if its longitude is between the first and the
    /// third number, and its latitude between the second and the fourth, which are in
    /// hundredths of a degree.
    pub proof fn lemma_in_corridor(&self, lon: i64, lat: i64)
        requires
            self.wf(),
        ensures
            self.area().has(lon, lat) <==> self.corridor.0 * 10_000_000 <= lon <= self.corridor.2
                * 10_000_000 && self.corridor.1 * 10_000_000 <= lat <= self.corridor.3 * 10_000_000,
    {
    }

    /// The passage has these properties, and zone resolution 5.
    pub open spec fn is(
        &self,
        name: Seq<char>,
        corridor: (int, int, int, int),
        leaf: u8,
        url: Option<Seq<char>>,
        types: Seq<Seq<char>>,
    ) -> bool {
        &&& self.name@ == name
        &&& self.corridor.0 == corridor.0
        &&& self.corridor.1 == corridor.1
        &&& self.corridor.2 == corridor.2
        &&& self.corridor.3 == corridor.3
        &&& self.zone_resolution == 5
        &&& self.leaf_resolution == leaf
        &&& match self.geofabrik_url {
            Some(u) => url == Some(u@),
            None => url is None,
        }
        &&& texts(self.water_types@) == types
    }
}

pub open spec fn four_types() -> Seq<Seq<char>> {
    seq!["lock"@, "reservoir"@, "lake"@, "river"@]
}

pub open spec fn five_types() -> Seq<Seq<char>> {
    seq!["lock"@, "reservoir"@, "lake"@, "river"@, "canal"@]
}

fn passage(
    name: &'static str,
    corridor: (i32, i32, i32, i32),
    leaf_resolution: u8,
    geofabrik_url: Option<&'static str>,
    water_types: Vec<&'static str>,
) -> (r: Passage)
    ensures
        r.name == name,
        r.corridor == corridor,
        r.zone_resolution == 5,
        r.leaf_resolution == leaf_resolution,
        r.geofabrik_url == geofabrik_url,
        r.water_types == water_types,
{
    Passage { name, corridor, zone_resolution: 5, leaf_resolution, geofabrik_url, water_types }
}

fn lake_and_lock_types() -> (r: Vec<&'static str>)
    ensures
        texts(r@) == four_types(),
{
    let mut list: Vec<&'static str> = Vec::new();
    list.push("lock");
    list.push("reservoir");
    list.push("lake");
    list.push("river");
    assert(texts(list@) =~= four_types());
    list
}

fn all_water_types() -> (r: Vec<&'static str>)
    ensures
        texts(r@) == five_types(),
{
    let mut list: Vec<&'static str> = lake_and_lock_types();
    let ghost before = list@;
    list.push("canal");
    assert(texts(list@) =~= texts(before).push("canal"@));
    assert(four_types().push("canal"@) =~= five_types());
    list
}

/// The passages. How far a canal is refined goes by its width: about 200 m or
/// 100 m to resolution 11, about 30 m to 13, wide straits to 10.
pub fn passages() -> (r: Vec<Passage>)
    ensures
        r@.len() == 14,
        forall|i: int|
            0 <= i < r@.len() ==> (#[trigger] r@[i]).wf() && 10 <= r@[i].leaf_resolution <= 13,
        r@[0].is(
            "Suez Canal"@,
            (3220, 2985, 3265, 3132),
            11,
            None,
            Seq::empty(),
        ),
        r@[1].is(
            "Panama Canal"@,
            (-7995, 888, -7950, 942),
            13,
            Some("https://download.geofabrik.de/central-america/panama-latest.osm.pbf"@),
            four_types(),
        ),
        r@[2].is(
            "Kiel Canal"@,
            (905, 5385, 1020, 5440),
            11,
            Some("https://download.geofabrik.de/europe/germany/schleswig-holstein-latest.osm.pbf"@),
            five_types(),
        ),
        r@[3].is(
            "Corinth Canal"@,
            (2294, 3788, 2303, 3796),
            13,
            None,
            Seq::empty(),
        ),
        r@[4].is(
            "Bosphorus"@,
            (2895, 4095, 2920, 4128),
            10,
            None,
            Seq::empty(),
        ),
        r@[5].is(
            "Dardanelles"@,
            (2610, 3995, 2675, 4050),
            10,
            None,
            Seq::empty(),
        ),
        r@[6].is(
            "Malacca Strait"@,
            (10335, 110, 10390, 140),
            10,
            None,
            Seq::empty(),
        ),
        r@[7].is(
            "Singapore Strait"@,
            (10370, 115, 10435, 130),
            10,
            None,
            Seq::empty(),
        ),
        r@[8].is(
            "Messina Strait"@,
            (1555, 3805, 1570, 3835),
            10,
            None,
            Seq::empty(),
        ),
        r@[9].is(
            "Dover Strait"@,
            (115, 5085, 170, 5120),
            10,
            None,
            Seq::empty(),
        ),
        r@[10].is(
            "Houston Ship Channel"@,
            (-9530, 2930, -9470, 2980),
            12,
            Some("https://download.geofabrik.de/north-america/us/texas-latest.osm.pbf"@),
            five_types(),
        ),
        r@[11].is(
            "Cape Cod Canal"@,
            (-7065, 4172, -7048, 4179),
            12,
            Some("https://download.geofabrik.de/north-america/us/massachusetts-latest.osm.pbf"@),
            five_types(),
        ),
        r@[12].is(
            "Chesapeake-Delaware Canal"@,
            (-7585, 3940, -7555, 3960),
            12,
            Some("https://download.geofabrik.de/north-america/us/delaware-latest.osm.pbf"@),
            five_types(),
        ),
        r@[13].is(
            "Welland Canal"@,
            (-7930, 4285, -7915, 4325),
            13,
            Some("https://download.geofabrik.de/north-america/canada/ontario-latest.osm.pbf"@),
            five_types(),
        ),
{
    let mut list: Vec<Passage> = Vec::new();
    list.push(
        passage(
            "Suez Canal",
            (3220, 2985, 3265, 3132),
            11,
            None,
            Vec::new(),
        ),
    );
    list.push(
        passage(
            "Panama Canal",
            (-7995, 888, -7950, 942),
            13,
            Some("https://download.geofabrik.de/central-america/panama-latest.osm.pbf"),
            lake_and_lock_types(),
        ),
    );
    list.push(
        passage(
            "Kiel Canal",
            (905, 5385, 1020, 5440),
            11,
            Some("https://download.geofabrik.de/europe/germany/schleswig-holstein-latest.osm.pbf"),
            all_water_types(),
        ),
    );
    list.push(
        passage(
            "Corinth Canal",
            (2294, 3788, 2303, 3796),
            13,
            None,
            Vec::new(),
        ),
    );
    list.push(
        passage(
            "Bosphorus",
            (2895, 4095, 2920, 4128),
            10,
            None,
            Vec::new(),
        ),
    );
    list.push(
        passage(
            "Dardanelles",
            (2610, 3995, 2675, 4050),
            10,
            None,
            Vec::new(),
        ),
    );
    list.push(
        passage(
            "Malacca Strait",
            (10335, 110, 10390, 140),
            10,
            None,
            Vec::new(),
        ),
    );
    list.push(
        passage(
            "Singapore Strait",
            (10370, 115, 10435, 130),
            10,
            None,
            Vec::new(),
        ),
    );
    list.push(
        passage(
            "Messina Strait",
            (1555, 3805, 1570, 3835),
            10,
            None,
            Vec::new(),
        ),
    );
    list.push(
        passage(
            "Dover Strait",
            (115, 5085, 170, 5120),
            10,
            None,
            Vec::new(),
        ),
    );
    list.push(
        passage(
            "Houston Ship Channel",
            (-9530, 2930, -9470, 2980),
            12,
            Some("https://download.geofabrik.de/north-america/us/texas-latest.osm.pbf"),
            all_water_types(),
        ),
    );
    list.push(
        passage(
            "Cape Cod Canal",
            (-7065, 4172, -7048, 4179),
            12,
            Some("https://download.geofabrik.de/north-america/us/massachusetts-latest.osm.pbf"),
            all_water_types(),
        ),
    );
    list.push(
        passage(
            "Chesapeake-Delaware Canal",
            (-7585, 3940, -7555, 3960),
            12,
            Some("https://download.geofabrik.de/north-america/us/delaware-latest.osm.pbf"),
            all_water_types(),
        ),
    );
    list.push(
        passage(
            "Welland Canal",
            (-7930, 4285, -7915, 4325),
            13,
            Some("https://download.geofabrik.de/north-america/canada/ontario-latest.osm.pbf"),
            all_water_types(),
        ),
    );
    proof {
        assert(texts(Seq::<&'static str>::empty()) =~= Seq::<Seq<char>>::empty());
    }
    list
}

} // verus!

