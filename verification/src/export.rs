//! Export of a graph as GeoJSON.

use vstd::prelude::*;
use vstd::string::*;
use crate::bounds::Bbox;
use crate::coastline::{line_touches, touches};
use crate::h3::{is_cell, resolution, resolution_of, valid_cell, MAX_RESOLUTION};
use crate::oracle::{call1, function1, value1};
use crate::path::{file_stem, has_parent, join, joined, parent, parent_path, stem};
use crate::text::{decimal, push_decimal, strings};

verus! {

/// A coordinate pair as its two numbers are written.
pub type PointText = (String, String);

/// A position: its longitude, then its latitude.
pub open spec fn position_text(lon: Seq<char>, lat: Seq<char>) -> Seq<char> {
    seq!['['] + lon + seq![','] + lat + seq![']']
}

fn push_position(out: &mut String, lon: &str, lat: &str)
    ensures
        final(out)@ == old(out)@ + position_text(lon@, lat@),
{
    let ghost start = out@;
    out.push('[');
    out.append(lon);
    out.push(',');
    out.append(lat);
    out.push(']');
    assert(out@ =~= start + position_text(lon@, lat@));
}

/// The first `n` vertices, given as latitude and longitude, with commas between
/// them.
pub open spec fn vertices_text(boundary: Seq<PointText>, n: nat) -> Seq<char>
    decreases n,
{
    if n == 0 {
        Seq::empty()
    } else {
        let before = if n > 1 {
            vertices_text(boundary, (n - 1) as nat).push(',')
        } else {
            Seq::empty()
        };
        before + position_text(boundary[n - 1].1@, boundary[n - 1].0@)
    }
}

/// The vertices of a ring: the first comes again at the end.
pub open spec fn ring_text(boundary: Seq<PointText>) -> Seq<char> {
    if boundary.len() == 0 {
        Seq::empty()
    } else {
        vertices_text(boundary, boundary.len()).push(',') + position_text(
            boundary[0].1@,
            boundary[0].0@,
        )
    }
}

/// The feature of a cell.
pub open spec fn hex_feature(boundary: Seq<PointText>, res: nat, color: Seq<char>) -> Seq<char> {
    "{\"type\":\"Feature\",\"geometry\":{\"type\":\"Polygon\",\"coordinates\":[["@ + ring_text(
        boundary,
    ) + "]]},\"properties\":{\"layer\":\"hex-res-"@ + decimal(res) + "\",\"fill\":\""@ + color
        + "\",\"fill-opacity\":0.38,\"stroke\":\""@ + color
        + "\",\"stroke-opacity\":1.0,\"stroke-width\":1}}"@
}

/// Writes the feature of a cell. The boundary lists latitudes and longitudes.
pub fn hex_feature_string(boundary: &Vec<PointText>, res: u8, color: &str) -> (r: String)
    ensures
        r@ == hex_feature(boundary@, res as nat, color@),
{
    let mut s = String::from_str(
        "{\"type\":\"Feature\",\"geometry\":{\"type\":\"Polygon\",\"coordinates\":[[",
    );
    let ghost head = s@;
    let mut j: usize = 0;
    assert(s@ =~= head + vertices_text(boundary@, 0));
    while j < boundary.len()
        invariant
            j <= boundary@.len(),
            s@ == head + vertices_text(boundary@, j as nat),
        decreases boundary@.len() - j,
    {
        if j > 0 {
            s.push(',');
        }
        push_position(&mut s, boundary[j].1.as_str(), boundary[j].0.as_str());
        j = j + 1;
        assert(s@ =~= head + vertices_text(boundary@, j as nat));
    }
    if boundary.len() > 0 {
        s.push(',');
        push_position(&mut s, boundary[0].1.as_str(), boundary[0].0.as_str());
    }
    assert(s@ =~= head + ring_text(boundary@));
    s.append("]]},\"properties\":{\"layer\":\"hex-res-");
    push_decimal(&mut s, res as u64);
    s.append("\",\"fill\":\"");
    s.append(color);
    s.append("\",\"fill-opacity\":0.38,\"stroke\":\"");
    s.append(color);
    s.append("\",\"stroke-opacity\":1.0,\"stroke-width\":1}}");
    s
}

/// The first `n` points of a line, given as longitude and latitude, with commas
/// between them.
pub open spec fn line_text(line: Seq<PointText>, n: nat) -> Seq<char>
    decreases n,
{
    if n == 0 {
        Seq::empty()
    } else {
        let before = if n > 1 {
            line_text(line, (n - 1) as nat).push(',')
        } else {
            Seq::empty()
        };
        before + position_text(line[n - 1].0@, line[n - 1].1@)
    }
}

/// The feature of a piece of coastline.
pub open spec fn coastline_feature(seg: Seq<PointText>) -> Seq<char> {
    "{\"type\":\"Feature\",\"geometry\":{\"type\":\"LineString\",\"coordinates\":["@ + line_text(
        seg,
        seg.len(),
    ) + "]},\"properties\":{\"layer\":\"coastline\",\"stroke\":\"#ff0000\",\"stroke-width\":1.5}}"@
}

/// Writes the feature of a piece of coastline. The piece lists longitudes and
/// latitudes.
pub fn coastline_feature_string(seg: &Vec<PointText>) -> (r: String)
    ensures
        r@ == coastline_feature(seg@),
{
    let mut s = String::from_str(
        "{\"type\":\"Feature\",\"geometry\":{\"type\":\"LineString\",\"coordinates\":[",
    );
    let ghost head = s@;
    let mut j: usize = 0;
    assert(s@ =~= head + line_text(seg@, 0));
    while j < seg.len()
        invariant
            j <= seg@.len(),
            s@ == head + line_text(seg@, j as nat),
        decreases seg@.len() - j,
    {
        if j > 0 {
            s.push(',');
        }
        push_position(&mut s, seg[j].0.as_str(), seg[j].1.as_str());
        j = j + 1;
        assert(s@ =~= head + line_text(seg@, j as nat));
    }
    s.append("]},\"properties\":{\"layer\":\"coastline\",\"stroke\":\"#ff0000\",\"stroke-width\":1.5}}");
    s
}

/// The first `n` features with commas between them.
pub open spec fn features_text(features: Seq<String>, n: nat) -> Seq<char>
    decreases n,
{
    if n == 0 {
        Seq::empty()
    } else if n == 1 {
        features[0]@
    } else {
        features_text(features, (n - 1) as nat).push(',') + features[n - 1]@
    }
}

/// Each further feature is written behind a comma. Each further vertex of a cell is, its
/// longitude in front of its latitude though it is given the other way round, and each
/// further point of a line, as it is given. The first has no comma before it.
pub proof fn lemma_one_more(
    features: Seq<String>,
    boundary: Seq<PointText>,
    line: Seq<PointText>,
    n: nat,
)
    ensures
        features_text(features, 0).len() == 0,
        features_text(features, 1) == features[0]@,
        n >= 1 ==> features_text(features, n + 1) == features_text(features, n) + seq![',']
            + features[n as int]@,
        vertices_text(boundary, 0).len() == 0,
        vertices_text(boundary, 1) == seq!['['] + boundary[0].1@ + seq![','] + boundary[0].0@
            + seq![']'],
        n >= 1 ==> vertices_text(boundary, n + 1) == vertices_text(boundary, n) + seq![',', '[']
            + boundary[n as int].1@ + seq![','] + boundary[n as int].0@ + seq![']'],
        line_text(line, 0).len() == 0,
        line_text(line, 1) == seq!['['] + line[0].0@ + seq![','] + line[0].1@ + seq![']'],
        n >= 1 ==> line_text(line, n + 1) == line_text(line, n) + seq![',', '[']
            + line[n as int].0@ + seq![','] + line[n as int].1@ + seq![']'],
{
    assert(vertices_text(boundary, 1) =~= seq!['['] + boundary[0].1@ + seq![','] + boundary[0].0@
        + seq![']']);
    assert(line_text(line, 1) =~= seq!['['] + line[0].0@ + seq![','] + line[0].1@ + seq![']']);
    if n >= 1 {
        assert(features_text(features, n + 1) =~= features_text(features, n) + seq![',']
            + features[n as int]@);
        assert(vertices_text(boundary, n + 1) =~= vertices_text(boundary, n) + seq![',', '[']
            + boundary[n as int].1@ + seq![','] + boundary[n as int].0@ + seq![']']);
        assert(line_text(line, n + 1) =~= line_text(line, n) + seq![',', '[']
            + line[n as int].0@ + seq![','] + line[n as int].1@ + seq![']']);
    }
}

/// A ring is closed: behind all vertices the first comes again.
pub proof fn lemma_ring_is_closed(boundary: Seq<PointText>)
    requires
        boundary.len() > 0,
    ensures
        ring_text(boundary) == vertices_text(boundary, boundary.len()) + seq![','] + vertices_text(
            boundary,
            1,
        ),
{
    assert(vertices_text(boundary, 1) =~= position_text(boundary[0].1@, boundary[0].0@));
    assert(ring_text(boundary) =~= vertices_text(boundary, boundary.len()) + seq![',']
        + vertices_text(boundary, 1));
}

/// The collection of some features.
pub open spec fn collection_text(features: Seq<String>) -> Seq<char> {
    "{\"type\":\"FeatureCollection\",\"features\":["@ + features_text(features, features.len())
        + "]}"@
}

/// Writes a collection of features.
pub fn feature_collection(features: &Vec<String>) -> (r: String)
    ensures
        r@ == collection_text(features@),
{
    let mut s = String::from_str("{\"type\":\"FeatureCollection\",\"features\":[");
    let ghost head = s@;
    let mut j: usize = 0;
    assert(s@ =~= head + features_text(features@, 0));
    while j < features.len()
        invariant
            j <= features@.len(),
            s@ == head + features_text(features@, j as nat),
        decreases features@.len() - j,
    {
        if j > 0 {
            s.push(',');
        }
        s.append(features[j].as_str());
        j = j + 1;
        assert(s@ =~= head + features_text(features@, j as nat));
    }
    s.append("]}");
    s
}

/// The colour of cells of one resolution.
pub open spec fn color_of(res: u8) -> Seq<char> {
    if res <= 3 {
        "#0088ff"@
    } else if res <= 5 {
        "#00cc00"@
    } else if res <= 7 {
        "#ffaa00"@
    } else if res == 8 {
        "#00ffff"@
    } else {
        "#ff00ff"@
    }
}

/// Computes [`color_of`].
pub fn hex_color(res: u8) -> (r: &'static str)
    ensures
        r@ == color_of(res),
{
    match res {
        0..=3 => "#0088ff",
        4..=5 => "#00cc00",
        6..=7 => "#ffaa00",
        8 => "#00ffff",
        _ => "#ff00ff",
    }
}

/// The centre of the cell, its longitude and latitude in nanodegrees, lies in
/// the box that is exported, where there is one.
pub open spec fn exported<F: Fn(u64) -> (i64, i64)>(center: F, bbox: Option<Bbox>, cell: u64) -> bool {
    bbox matches Some(b) ==> b.has(value1(center, cell).0, value1(center, cell).1)
}

/// The cells of one resolution that are exported, of the first `n`, in their
/// order, as their numbers.
pub open spec fn layer<F: Fn(u64) -> (i64, i64)>(
    cells: Seq<u64>,
    bbox: Option<Bbox>,
    center: F,
    res: int,
    n: nat,
) -> Seq<u32>
    decreases n,
{
    if n == 0 {
        Seq::empty()
    } else {
        let before = layer(cells, bbox, center, res, (n - 1) as nat);
        if resolution_of(cells[n - 1]) == res && exported(center, bbox, cells[n - 1]) {
            before.push((n - 1) as u32)
        } else {
            before
        }
    }
}

/// The layers of the resolutions below `k`, one behind the other.
pub open spec fn layers<F: Fn(u64) -> (i64, i64)>(
    cells: Seq<u64>,
    bbox: Option<Bbox>,
    center: F,
    k: int,
) -> Seq<u32>
    decreases k,
{
    if k <= 0 {
        Seq::empty()
    } else {
        layers(cells, bbox, center, k - 1) + layer(cells, bbox, center, k - 1, cells.len())
    }
}

/// The cells to export, by resolution and then in their order, as their
/// numbers; none where one of them is no cell of the grid.
pub fn hex_nodes<F: Fn(u64) -> (i64, i64)>(
    cells: &Vec<u64>,
    bbox: Option<Bbox>,
    center: &F,
) -> (r: Option<Vec<u32>>)
    requires
        function1(*center),
        cells@.len() <= u32::MAX,
    ensures
        r is Some <==> forall|i: int| 0 <= i < cells@.len() ==> valid_cell(#[trigger] cells@[i]),
        r matches Some(list) ==> list@ == layers(cells@, bbox, *center, MAX_RESOLUTION + 1),
{
    let mut i: usize = 0;
    while i < cells.len()
        invariant
            i <= cells@.len(),
            forall|k: int| 0 <= k < i ==> valid_cell(#[trigger] cells@[k]),
        decreases cells@.len() - i,
    {
        if !is_cell(cells[i]) {
            return None;
        }
        i = i + 1;
    }
    let mut out: Vec<u32> = Vec::new();
    let mut res: u8 = 0;
    while res <= MAX_RESOLUTION
        invariant
            function1(*center),
            res <= MAX_RESOLUTION + 1,
            cells@.len() <= u32::MAX,
            forall|k: int| 0 <= k < cells@.len() ==> valid_cell(#[trigger] cells@[k]),
            out@ == layers(cells@, bbox, *center, res as int),
        decreases MAX_RESOLUTION + 1 - res,
    {
        let ghost before = out@;
        let mut j: usize = 0;
        assert(out@ =~= before + layer(cells@, bbox, *center, res as int, 0));
        while j < cells.len()
            invariant
                function1(*center),
                j <= cells@.len() <= u32::MAX,
                forall|k: int| 0 <= k < cells@.len() ==> valid_cell(#[trigger] cells@[k]),
                out@ == before + layer(cells@, bbox, *center, res as int, j as nat),
            decreases cells@.len() - j,
        {
            let cell: u64 = cells[j];
            if resolution(cell) == res {
                let kept = match bbox {
                    Some(b) => {
                        let (lon, lat): (i64, i64) = call1(center, cell);
                        b.contains_point(lon, lat)
                    },
                    None => true,
                };
                if kept {
                    out.push(j as u32);
                }
            }
            j = j + 1;
            assert(out@ =~= before + layer(cells@, bbox, *center, res as int, j as nat));
        }
        res = res + 1;
    }
    Some(out)
}

/// The layers of one resolution hold the cells of it that are exported, each
/// once.
proof fn lemma_layer<F: Fn(u64) -> (i64, i64)>(
    cells: Seq<u64>,
    bbox: Option<Bbox>,
    center: F,
    res: int,
    n: nat,
)
    requires
        n <= cells.len() <= u32::MAX,
    ensures
        ({
            let l = layer(cells, bbox, center, res, n);
            &&& l.no_duplicates()
            &&& forall|v: u32| #[trigger]
                l.contains(v) <==> v < n && resolution_of(cells[v as int]) == res && exported(
                    center,
                    bbox,
                    cells[v as int],
                )
        }),
    decreases n,
{
    if n > 0 {
        lemma_layer(cells, bbox, center, res, (n - 1) as nat);
        let before = layer(cells, bbox, center, res, (n - 1) as nat);
        let l = layer(cells, bbox, center, res, n);
        let last = (n - 1) as u32;
        assert(!before.contains(last));
        if l != before {
            assert(l == before.push(last));
            assert(l[l.len() - 1] == last);
            assert forall|v: u32| #[trigger] l.contains(v) <==> before.contains(v) || v == last by {
                if before.contains(v) {
                    let k = choose|k: int| 0 <= k < before.len() && before[k] == v;
                    assert(l[k] == v);
                }
                if l.contains(v) && v != last {
                    let k = choose|k: int| 0 <= k < l.len() && l[k] == v;
                    assert(before[k] == v);
                }
            }
        }
    }
}

/// Every exported cell of a resolution below `k` is in the list exactly once, no
/// other is, and coarser cells come before finer ones.
pub proof fn lemma_each_cell_once<F: Fn(u64) -> (i64, i64)>(
    cells: Seq<u64>,
    bbox: Option<Bbox>,
    center: F,
    k: int,
)
    requires
        cells.len() <= u32::MAX,
        0 <= k,
    ensures
        ({
            let all = layers(cells, bbox, center, k);
            &&& all.no_duplicates()
            &&& forall|v: u32| #[trigger]
                all.contains(v) <==> v < cells.len() && resolution_of(cells[v as int]) < k
                    && exported(center, bbox, cells[v as int])
            &&& forall|i: int, j: int|
                0 <= i <= j < all.len() ==> resolution_of(cells[#[trigger] all[i] as int])
                    <= resolution_of(cells[#[trigger] all[j] as int])
        }),
    decreases k,
{
    if k > 0 {
        lemma_each_cell_once(cells, bbox, center, k - 1);
        lemma_layer(cells, bbox, center, k - 1, cells.len());
        let a = layers(cells, bbox, center, k - 1);
        let b = layer(cells, bbox, center, k - 1, cells.len());
        let all = layers(cells, bbox, center, k);
        assert(all == a + b);
        assert forall|v: u32| #[trigger] all.contains(v) <==> a.contains(v) || b.contains(v) by {
            if a.contains(v) {
                let i = choose|i: int| 0 <= i < a.len() && a[i] == v;
                assert(all[i] == v);
            }
            if b.contains(v) {
                let i = choose|i: int| 0 <= i < b.len() && b[i] == v;
                assert(all[a.len() + i] == v);
            }
        }
        assert forall|i: int| 0 <= i < a.len() implies resolution_of(
            cells[#[trigger] a[i] as int],
        ) < k - 1 by {
            assert(a.contains(a[i]));
        }
        assert forall|i: int| 0 <= i < b.len() implies resolution_of(
            cells[#[trigger] b[i] as int],
        ) == k - 1 by {
            assert(b.contains(b[i]));
        }
        assert forall|i: int, j: int| 0 <= i < j < all.len() implies all[i] != all[j] by {
            if j < a.len() {
                assert(a[i] != a[j]);
            } else if i >= a.len() {
                assert(b[i - a.len()] != b[j - a.len()]);
            } else {
                assert(all[i] == a[i] && all[j] == b[j - a.len()]);
            }
        }
        assert forall|i: int, j: int| 0 <= i <= j < all.len() implies resolution_of(
            cells[#[trigger] all[i] as int],
        ) <= resolution_of(cells[#[trigger] all[j] as int]) by {
            if j < a.len() {
                assert(all[i] == a[i] && all[j] == a[j]);
            } else if i >= a.len() {
                assert(all[i] == b[i - a.len()] && all[j] == b[j - a.len()]);
            } else {
                assert(all[i] == a[i] && all[j] == b[j - a.len()]);
            }
        }
    }
}

/// A piece of coastline is exported: it has two points or more, and one of them
/// lies in the box, where there is one.
pub open spec fn coast_exported<P, F: Fn(P) -> (i64, i64)>(
    position: F,
    bbox: Option<Bbox>,
    seg: Seq<P>,
) -> bool {
    seg.len() >= 2 && (bbox matches Some(b) ==> touches(position, b, seg))
}

/// The pieces of coastline that are exported, of the first `n`, in their order,
/// as their numbers.
pub open spec fn coast_layer<P, F: Fn(P) -> (i64, i64)>(
    lines: Seq<Vec<P>>,
    bbox: Option<Bbox>,
    position: F,
    n: nat,
) -> Seq<usize>
    decreases n,
{
    if n == 0 {
        Seq::empty()
    } else {
        let before = coast_layer(lines, bbox, position, (n - 1) as nat);
        if coast_exported(position, bbox, lines[n - 1]@) {
            before.push((n - 1) as usize)
        } else {
            before
        }
    }
}

/// A piece of coastline is exported exactly if it has two points or more and, where the
/// export is limited to a box, one of them lies in it. Pieces stay in their order.
pub proof fn lemma_coast_exported<P, F: Fn(P) -> (i64, i64)>(
    lines: Seq<Vec<P>>,
    bbox: Option<Bbox>,
    position: F,
    n: nat,
)
    requires
        n <= lines.len() <= usize::MAX,
    ensures
        forall|i: usize| #[trigger]
            coast_layer(lines, bbox, position, n).contains(i) <==> i < n
                && lines[i as int]@.len() >= 2 && (bbox matches Some(b) ==> exists|k: int|
                0 <= k < lines[i as int]@.len() && b.has(
                    value1(position, #[trigger] lines[i as int]@[k]).0,
                    value1(position, lines[i as int]@[k]).1,
                )),
        forall|j: int, k: int|
            0 <= j < k < coast_layer(lines, bbox, position, n).len() ==> #[trigger] coast_layer(
                lines,
                bbox,
                position,
                n,
            )[j] < #[trigger] coast_layer(lines, bbox, position, n)[k],
    decreases n,
{
    if n > 0 {
        let m = (n - 1) as nat;
        lemma_coast_exported(lines, bbox, position, m);
        let before = coast_layer(lines, bbox, position, m);
        let all = coast_layer(lines, bbox, position, n);
        let last = (n - 1) as usize;
        assert forall|i: usize| #[trigger] all.contains(i) <==> before.contains(i) || (i == last
            && coast_exported(position, bbox, lines[n - 1]@)) by {
            if coast_exported(position, bbox, lines[n - 1]@) {
                assert(all =~= before + seq![last]);
                crate::cells::lemma_contains_concat(before, seq![last], i);
                assert(seq![last][0] == last);
            }
        }
        assert forall|j: int, k: int| 0 <= j < k < all.len() implies #[trigger] all[j]
            < #[trigger] all[k] by {
            assert(before.contains(before[j]));
        }
    }
}

/// A cell is exported exactly if the export is not limited to a box or the cell's centre
/// lies in it. The feature of a cell shows its own outline and resolution, that of a
/// piece of coastline its own points.
pub proof fn lemma_exported<F, O, T>(
    center: F,
    outline: O,
    points: T,
    bbox: Option<Bbox>,
    cells: Seq<u64>,
    nodes: Seq<u32>,
    pieces: Seq<usize>,
    i: int,
) where
    F: Fn(u64) -> (i64, i64),
    O: Fn(u64) -> Vec<PointText>,
    T: Fn(usize) -> Vec<PointText>,

    ensures
        0 <= i < cells.len() ==> exported(center, bbox, cells[i]) == (bbox matches Some(b)
            ==> b.min_lon <= value1(center, cells[i]).0 <= b.max_lon && b.min_lat <= value1(
            center,
            cells[i],
        ).1 <= b.max_lat),
        hex_texts(cells, nodes, outline).len() == nodes.len(),
        0 <= i < nodes.len() ==> hex_texts(cells, nodes, outline)[i] == hex_feature(
            value1(outline, cells[nodes[i] as int])@,
            resolution_of(cells[nodes[i] as int]) as nat,
            color_of(resolution_of(cells[nodes[i] as int])),
        ),
        coast_texts(pieces, points).len() == pieces.len(),
        0 <= i < pieces.len() ==> coast_texts(pieces, points)[i] == coastline_feature(
            value1(points, pieces[i])@,
        ),
{
}

/// The pieces of coastline to export.
pub fn coast_segments<P: Copy, F: Fn(P) -> (i64, i64)>(
    lines: &Vec<Vec<P>>,
    bbox: Option<Bbox>,
    position: &F,
) -> (r: Vec<usize>)
    requires
        function1(*position),
    ensures
        r@ == coast_layer(lines@, bbox, *position, lines@.len()),
{
    let mut out: Vec<usize> = Vec::new();
    let mut i: usize = 0;
    while i < lines.len()
        invariant
            function1(*position),
            i <= lines@.len(),
            out@ == coast_layer(lines@, bbox, *position, i as nat),
        decreases lines@.len() - i,
    {
        if lines[i].len() >= 2 {
            let kept = match bbox {
                Some(b) => line_touches(position, b, &lines[i]),
                None => true,
            };
            if kept {
                out.push(i);
            }
        }
        i = i + 1;
    }
    out
}

/// The features of an export: the cells by resolution, then the coastline.
pub struct Export {
    pub hexagons: Vec<String>,
    pub coastline: Vec<String>,
}

/// The texts of the features of cells, given by their numbers. `outline` writes
/// down a cell's boundary.
pub open spec fn hex_texts<O: Fn(u64) -> Vec<PointText>>(
    cells: Seq<u64>,
    nodes: Seq<u32>,
    outline: O,
) -> Seq<Seq<char>> {
    nodes.map_values(
        |v: u32|
            {
                let cell = cells[v as int];
                let res = resolution_of(cell);
                hex_feature(value1(outline, cell)@, res as nat, color_of(res))
            },
    )
}

/// The texts of the features of pieces of coastline, given by their numbers.
/// `points` writes down the points of one.
pub open spec fn coast_texts<T: Fn(usize) -> Vec<PointText>>(pieces: Seq<usize>, points: T) -> Seq<
    Seq<char>,
> {
    pieces.map_values(|i: usize| coastline_feature(value1(points, i)@))
}

/// Writes down all features of an export: the cells that lie in the box, and on
/// request the pieces of coastline that touch it. Nothing where one of the cells
/// is no cell of the grid.
pub fn export_geojson<P: Copy, F, O, L, T>(
    cells: &Vec<u64>,
    lines: &Vec<Vec<P>>,
    include_coastline: bool,
    bbox: Option<Bbox>,
    center: &F,
    outline: &O,
    position: &L,
    points: &T,
) -> (r: Option<Export>) where
    F: Fn(u64) -> (i64, i64),
    O: Fn(u64) -> Vec<PointText>,
    L: Fn(P) -> (i64, i64),
    T: Fn(usize) -> Vec<PointText>,

    requires
        function1(*center),
        function1(*outline),
        function1(*position),
        function1(*points),
        cells@.len() <= u32::MAX,
    ensures
        r is Some <==> forall|i: int| 0 <= i < cells@.len() ==> valid_cell(#[trigger] cells@[i]),
        r matches Some(e) ==> {
            &&& strings(e.hexagons@) == hex_texts(
                cells@,
                layers(cells@, bbox, *center, MAX_RESOLUTION + 1),
                *outline,
            )
            &&& strings(e.coastline@) == if include_coastline {
                coast_texts(coast_layer(lines@, bbox, *position, lines@.len()), *points)
            } else {
                Seq::empty()
            }
        },
{
    let nodes: Vec<u32> = match hex_nodes(cells, bbox, center) {
        Some(list) => list,
        None => {
            return None;
        },
    };
    proof {
        lemma_each_cell_once(cells@, bbox, *center, MAX_RESOLUTION + 1);
    }
    let mut hexagons: Vec<String> = Vec::new();
    let ghost want = hex_texts(cells@, nodes@, *outline);
    let mut i: usize = 0;
    assert(strings(hexagons@) =~= want.take(0));
    while i < nodes.len()
        invariant
            function1(*outline),
            forall|k: int| 0 <= k < cells@.len() ==> valid_cell(#[trigger] cells@[k]),
            forall|v: u32| #[trigger] nodes@.contains(v) ==> v < cells@.len(),
            want == hex_texts(cells@, nodes@, *outline),
            i <= nodes@.len(),
            strings(hexagons@) == want.take(i as int),
        decreases nodes@.len() - i,
    {
        assert(nodes@.contains(nodes@[i as int]));
        let cell: u64 = cells[nodes[i] as usize];
        let boundary: Vec<PointText> = call1(outline, cell);
        let res: u8 = resolution(cell);
        let ghost before = strings(hexagons@);
        let feature = hex_feature_string(&boundary, res, hex_color(res));
        assert(feature@ == want[i as int]);
        hexagons.push(feature);
        i = i + 1;
        assert(strings(hexagons@) =~= before.push(want[i - 1]));
        assert(strings(hexagons@) =~= want.take(i as int));
    }
    assert(want.take(i as int) =~= want);
    let mut coastline: Vec<String> = Vec::new();
    if include_coastline {
        let pieces: Vec<usize> = coast_segments(lines, bbox, position);
        let ghost want = coast_texts(pieces@, *points);
        let mut i: usize = 0;
        assert(strings(coastline@) =~= want.take(0));
        while i < pieces.len()
            invariant
                function1(*points),
                want == coast_texts(pieces@, *points),
                i <= pieces@.len(),
                strings(coastline@) == want.take(i as int),
            decreases pieces@.len() - i,
        {
            let line: Vec<PointText> = call1(points, pieces[i]);
            let ghost before = strings(coastline@);
            let feature = coastline_feature_string(&line);
            assert(feature@ == want[i as int]);
            coastline.push(feature);
            i = i + 1;
            assert(strings(coastline@) =~= before.push(want[i - 1]));
            assert(strings(coastline@) =~= want.take(i as int));
        }
        assert(want.take(i as int) =~= want);
    } else {
        assert(strings(coastline@) =~= Seq::<Seq<char>>::empty());
    }
    Some(Export { hexagons, coastline })
}

/// Where a layer of its own goes: beside the whole, under its name without the
/// extension and with `suffix`.
pub open spec fn layer_path_of(output: Seq<char>, suffix: Seq<char>) -> Seq<char> {
    let base = if has_parent(output) {
        parent_path(output)
    } else {
        "."@
    };
    joined(base, stem(output) + suffix)
}

/// Computes [`layer_path_of`].
pub fn layer_path(output: &str, suffix: &str) -> (r: String)
    ensures
        r@ == layer_path_of(output@, suffix@),
{
    let mut name = file_stem(output);
    name.append(suffix);
    match parent(output) {
        Some(base) => join(base.as_str(), name.as_str()),
        None => join(".", name.as_str()),
    }
}

/// The file of the cells.
pub fn hexagons_path(output: &str) -> (r: String)
    ensures
        r@ == layer_path_of(output@, "-hexagons.geojson"@),
{
    layer_path(output, "-hexagons.geojson")
}

/// The file of the coastline.
pub fn coastline_path(output: &str) -> (r: String)
    ensures
        r@ == layer_path_of(output@, "-coastline.geojson"@),
{
    layer_path(output, "-coastline.geojson")
}

/// A file of an export: its path and its text.
pub type ExportFile = (String, String);

/// Path and text of each file.
pub open spec fn file_texts(files: Seq<ExportFile>) -> Seq<(Seq<char>, Seq<char>)> {
    files.map_values(|f: ExportFile| (f.0@, f.1@))
}

impl Export {
    /// The features of the whole: the cells, then the coastline.
    pub open spec fn all(&self) -> Seq<String> {
        self.hexagons@ + self.coastline@
    }

    /// The files of the export: the cells by themselves and the coastline by
    /// itself, where there are any, and the whole.
    pub open spec fn listed(&self, output: Seq<char>) -> Seq<(Seq<char>, Seq<char>)> {
        let cells = if self.hexagons@.len() > 0 {
            seq![
                (
                    layer_path_of(output, "-hexagons.geojson"@),
                    collection_text(self.hexagons@),
                ),
            ]
        } else {
            Seq::empty()
        };
        let coast = if self.coastline@.len() > 0 {
            seq![
                (
                    layer_path_of(output, "-coastline.geojson"@),
                    collection_text(self.coastline@),
                ),
            ]
        } else {
            Seq::empty()
        };
        (cells + coast).push((output, collection_text(self.all())))
    }

    /// Writes down the whole.
    pub fn combined(&self) -> (r: String)
        ensures
            r@ == collection_text(self.all()),
    {
        let mut s = String::from_str("{\"type\":\"FeatureCollection\",\"features\":[");
        let ghost head = s@;
        let ghost all = self.all();
        let n: usize = self.hexagons.len();
        let mut j: usize = 0;
        assert(s@ =~= head + features_text(all, 0));
        while j < n
            invariant
                n == self.hexagons@.len(),
                all == self.all(),
                j <= n,
                s@ == head + features_text(all, j as nat),
            decreases n - j,
        {
            if j > 0 {
                s.push(',');
            }
            s.append(self.hexagons[j].as_str());
            j = j + 1;
            assert(all[j - 1] == self.hexagons@[j - 1]);
            assert(s@ =~= head + features_text(all, j as nat));
        }
        let mut k: usize = 0;
        while k < self.coastline.len()
            invariant
                n == self.hexagons@.len(),
                all == self.all(),
                k <= self.coastline@.len(),
                s@ == head + features_text(all, (n + k) as nat),
            decreases self.coastline@.len() - k,
        {
            if n > 0 || k > 0 {
                s.push(',');
            }
            s.append(self.coastline[k].as_str());
            k = k + 1;
            assert(all[n + k - 1] == self.coastline@[k - 1]);
            assert(s@ =~= head + features_text(all, (n + k) as nat));
        }
        s.append("]}");
        s
    }

    /// Computes [`Export::listed`].
    pub fn files(&self, output: &str) -> (r: Vec<ExportFile>)
        ensures
            file_texts(r@) == self.listed(output@),
    {
        let mut out: Vec<ExportFile> = Vec::new();
        if self.hexagons.len() > 0 {
            out.push((hexagons_path(output), feature_collection(&self.hexagons)));
        }
        if self.coastline.len() > 0 {
            out.push((coastline_path(output), feature_collection(&self.coastline)));
        }
        out.push((String::from_str(output), self.combined()));
        assert(file_texts(out@) =~= self.listed(output@));
        out
    }
}

} // verus!
