//! Settings of the cloud build.

use vstd::prelude::*;
use crate::bounds::{Bbox, NANODEG};
use crate::text::same_text;

verus! {

pub const HETZNER_SERVER_TYPE: &'static str = "ccx53";

pub const HETZNER_IMAGE: &'static str = "ubuntu-24.04";

pub const HETZNER_SERVER_NAME: &'static str = "asw-builder";

/// Where the source goes on the server.
pub const REMOTE_SRC_DIR: &'static str = "/opt/asw";

/// Where data goes on the server.
pub const REMOTE_DATA_DIR: &'static str = "/data/asw";

/// Where the program goes on the server.
pub const REMOTE_BIN: &'static str = "/usr/local/bin/asw";

/// Where the land polygons come from.
pub const LAND_POLYGONS_URL: &'static str =
    "https://osmdata.openstreetmap.de/download/land-polygons-split-4326.zip";

/// Packages that a new server needs.
pub const BOOTSTRAP_PACKAGES: &'static str =
    "wget unzip curl build-essential pkg-config libssl-dev osmium-tool";

/// The places of servers, in the order in which they are tried.
pub open spec fn location(i: int) -> Seq<char> {
    if i == 0 {
        "nbg1"@
    } else if i == 1 {
        "fsn1"@
    } else {
        "hel1"@
    }
}

/// Number of places.
pub const LOCATION_COUNT: usize = 3;

/// Computes [`location`].
pub fn hetzner_location(i: usize) -> (r: &'static str)
    requires
        i < LOCATION_COUNT,
    ensures
        r@ == location(i as int),
{
    if i == 0 {
        "nbg1"
    } else if i == 1 {
        "fsn1"
    } else {
        "hel1"
    }
}

/// The box of whole and half degrees, given in halves.
pub open spec fn half_degree_box(a: int, b: int, c: int, d: int) -> Bbox {
    Bbox {
        min_lon: (a * NANODEG / 2) as i64,
        min_lat: (b * NANODEG / 2) as i64,
        max_lon: (c * NANODEG / 2) as i64,
        max_lat: (d * NANODEG / 2) as i64,
    }
}

/// The areas that have a name.
pub open spec fn named_area(name: Seq<char>) -> Option<Bbox> {
    if name == "dev"@ {
        Some(half_degree_box(-10, 96, 20, 124))
    } else if name == "dev-small"@ {
        Some(half_degree_box(-2, 100, 6, 104))
    } else if name == "marmaris"@ {
        Some(half_degree_box(55, 72, 60, 74))
    } else {
        None
    }
}

/// Looks up the area of a name.
pub fn resolve_bbox(name: &str) -> (r: Option<Bbox>)
    ensures
        r == named_area(name@),
{
    if same_text(name, "dev") {
        Some(
            Bbox {
                min_lon: -5 * NANODEG,
                min_lat: 48 * NANODEG,
                max_lon: 10 * NANODEG,
                max_lat: 62 * NANODEG,
            },
        )
    } else if same_text(name, "dev-small") {
        Some(
            Bbox {
                min_lon: -1 * NANODEG,
                min_lat: 50 * NANODEG,
                max_lon: 3 * NANODEG,
                max_lat: 52 * NANODEG,
            },
        )
    } else if same_text(name, "marmaris") {
        Some(
            Bbox {
                min_lon: 27 * NANODEG + NANODEG / 2,
                min_lat: 36 * NANODEG,
                max_lon: 30 * NANODEG,
                max_lat: 37 * NANODEG,
            },
        )
    } else {
        None
    }
}

} // verus!
