use asw::container::{check_header, frame, unframe, LoadError};
use asw::edge_list::{append_edges, edges_in_range};
use asw::graph::{quantize_shore_dist, quantize_weight, GraphBuilder, RoutingGraph};
use h3o::{CellIndex, LatLng, Resolution};

type Graph = RoutingGraph<(f32, f32)>;
type Builder = GraphBuilder<(f32, f32)>;

/// Everything of a graph that is stored, in its order.
type Stored = (
    Vec<u64>,
    Vec<u32>,
    Vec<u8>,
    Vec<u8>,
    Vec<Vec<(f32, f32)>>,
    u32,
    u32,
);

fn micro(nm: f64) -> u32 {
    (nm * 1e6).round() as u32
}

fn shore(nm: f64) -> u8 {
    quantize_shore_dist((nm * 1e6).round() as i64)
}

fn nm(weight: u16) -> f32 {
    weight as f32 / 100.0
}

fn cell(lat: f64, lng: f64) -> u64 {
    u64::from(LatLng::new(lat, lng).unwrap().to_cell(Resolution::Five))
}

fn sorted(points: &[(f64, f64)]) -> Vec<u64> {
    let mut cells: Vec<u64> = points.iter().map(|&(lat, lng)| cell(lat, lng)).collect();
    cells.sort();
    cells
}

fn index_of(cells: &[u64], lat: f64, lng: f64) -> u32 {
    cells.iter().position(|&c| c == cell(lat, lng)).unwrap() as u32
}

fn save(g: &Graph) -> Vec<u8> {
    let stored: Stored = (
        g.node_h3.clone(),
        g.offsets.clone(),
        g.edge_data.clone(),
        g.shore_dist.clone(),
        g.coastline_coords.clone(),
        g.num_nodes,
        g.num_edges,
    );
    frame(&bitcode::serialize(&stored).unwrap()).unwrap()
}

fn load(file: &[u8]) -> Result<Graph, LoadError> {
    let payload = unframe(file)?;
    let (node_h3, offsets, edge_data, shore_dist, coastline_coords, num_nodes, num_edges): Stored =
        bitcode::deserialize(&payload).unwrap();
    let g = RoutingGraph {
        node_h3,
        offsets,
        edge_data,
        shore_dist,
        coastline_coords,
        num_nodes,
        num_edges,
    };
    g.validate()?;
    Ok(g)
}

fn square_graph() -> Graph {
    let cells = sorted(&[(0.0, 0.0), (0.0, 1.0), (1.0, 0.0), (1.0, 1.0)]);
    let mut b = Builder::new();
    for &h3 in &cells {
        b.add_node(h3, 255);
    }
    let n0 = index_of(&cells, 0.0, 0.0);
    let n1 = index_of(&cells, 0.0, 1.0);
    let n2 = index_of(&cells, 1.0, 0.0);
    let n3 = index_of(&cells, 1.0, 1.0);
    b.add_edge(n0, n1, micro(1.0));
    b.add_edge(n1, n3, micro(1.0));
    b.add_edge(n0, n2, micro(2.0));
    b.add_edge(n2, n3, micro(2.0));
    b.build()
}

#[test]
fn graph_builder_counts() {
    let g = square_graph();
    assert_eq!(g.num_nodes, 4);
    assert_eq!(g.num_edges, 8); // 4 bidirectional = 8 directed
}

#[test]
fn graph_neighbors() {
    let g = square_graph();
    let n0 = g.neighbor_list(0);
    assert_eq!(n0.len(), 2);
}

#[test]
fn graph_connected_components_single() {
    let g = square_graph();
    let components = g.connected_components();
    assert_eq!(components.len(), 1);
    assert_eq!(components[0], 4);
}

#[test]
fn graph_connected_components_isolated() {
    let cells = sorted(&[(0.0, 0.0), (0.0, 1.0), (1.0, 0.0), (1.0, 1.0)]);
    let mut b = Builder::new();
    for &h3 in &cells {
        b.add_node(h3, 255);
    }
    b.add_edge(
        index_of(&cells, 0.0, 0.0),
        index_of(&cells, 0.0, 1.0),
        micro(1.0),
    );
    b.add_edge(
        index_of(&cells, 1.0, 0.0),
        index_of(&cells, 1.0, 1.0),
        micro(1.0),
    );
    let g = b.build();
    let mut components = g.connected_components();
    components.sort();
    assert_eq!(components, vec![2, 2]);
}

#[test]
fn graph_save_load_roundtrip() {
    let g = square_graph();
    let buf = save(&g);

    // Verify magic header
    assert_eq!(&buf[0..4], b"ASW\x03");

    let loaded = load(&buf).unwrap();
    assert_eq!(loaded.num_nodes, g.num_nodes);
    assert_eq!(loaded.num_edges, g.num_edges);
    assert_eq!(loaded.node_h3, g.node_h3);
    assert_eq!(loaded.offsets, g.offsets);
    assert_eq!(loaded.edge_data, g.edge_data);

    // Verify routing works after load
    assert!(loaded.has_valid_edges());
    let neighbors = loaded.neighbor_list(0);
    assert_eq!(neighbors.len(), 2);
}

#[test]
fn load_rejects_old_format() {
    let fake_old = vec![4, 0, 0, 0, 0, 0, 0, 0];
    let result = load(&fake_old);
    assert!(result.is_err());
    let err_msg = result.err().unwrap().message();
    assert!(
        err_msg.contains("ASW"),
        "Error should mention ASW format: {}",
        err_msg
    );
}

#[test]
fn neighbor_iter_decodes_edge_data() {
    let mut edge_data = Vec::new();
    asw::varint::encode(5, &mut edge_data);
    edge_data.extend_from_slice(&150u16.to_le_bytes());
    asw::varint::encode(5, &mut edge_data);
    edge_data.extend_from_slice(&200u16.to_le_bytes());
    asw::varint::encode(32, &mut edge_data);
    edge_data.extend_from_slice(&350u16.to_le_bytes());

    let end = edge_data.len() as u32;
    let graph: Graph = RoutingGraph {
        node_h3: vec![cell(0.0, 0.0)],
        offsets: vec![0, end],
        edge_data,
        shore_dist: vec![255],
        coastline_coords: vec![],
        num_nodes: 1,
        num_edges: 3,
    };

    let mut neighbors: Vec<(u32, f32)> = Vec::new();
    let mut it = graph.neighbors(0);
    while let Some((target, weight)) = it.next() {
        neighbors.push((target, nm(weight)));
    }
    assert_eq!(neighbors.len(), 3);
    assert_eq!(neighbors[0], (5, 1.50));
    assert_eq!(neighbors[1], (10, 2.00));
    assert_eq!(neighbors[2], (42, 3.50));
}

#[test]
fn builder_produces_compact_format() {
    let cells = sorted(&[(51.5, -0.1), (48.8, 2.3), (10.0, 10.0)]);
    let mut b = Builder::new();
    for &h3 in &cells {
        b.add_node(h3, 255);
    }
    let n0 = index_of(&cells, 51.5, -0.1);
    let n1 = index_of(&cells, 48.8, 2.3);
    let n2 = index_of(&cells, 10.0, 10.0);
    b.add_edge(n0, n1, micro(186.0));
    b.add_edge(n0, n2, micro(50.0));

    let g = b.build();

    assert_eq!(g.num_nodes, 3);
    assert_eq!(g.num_edges, 4);

    let n0_neighbors = g.neighbor_list(n0);
    assert_eq!(n0_neighbors.len(), 2);

    let n1_neighbors = g.neighbor_list(n1);
    assert_eq!(n1_neighbors.len(), 1);
    assert_eq!(n1_neighbors[0].0, n0);
    assert!((nm(n1_neighbors[0].1) - 186.0).abs() < 0.01);
}

fn haversine_nm(lat1: f64, lon1: f64, lat2: f64, lon2: f64) -> f64 {
    let dlat = (lat2 - lat1).to_radians();
    let dlon = (lon2 - lon1).to_radians();
    let a = (dlat / 2.0).sin().powi(2)
        + lat1.to_radians().cos() * lat2.to_radians().cos() * (dlon / 2.0).sin().powi(2);
    3440.065 * 2.0 * a.sqrt().asin()
}

fn center(bits: u64) -> (f64, f64) {
    let ll = LatLng::from(CellIndex::try_from(bits).unwrap());
    (ll.lat(), ll.lng())
}

/// Adjacent cells of resolution 13 are about 0.0033 nm apart. An edge of a
/// positive length must never be free.
#[test]
fn quantized_weight_never_zero_for_tiny_res13_edge() {
    let near_panama = u64::from(
        LatLng::new(9.08, -79.68)
            .unwrap()
            .to_cell(Resolution::Thirteen),
    );
    let neighbor = asw::h3::neighbors(near_panama)[0];

    let (lat0, lon0) = center(near_panama);
    let (lat1, lon1) = center(neighbor);
    let true_dist_nm = haversine_nm(lat0, lon0, lat1, lon1);
    assert!(
        true_dist_nm < 0.005,
        "expected a sub-0.005nm res-13 edge, got {true_dist_nm} nm"
    );

    let mut b = Builder::new();
    let n0 = b.add_node(near_panama, 255);
    let n1 = b.add_node(neighbor, 255);
    b.add_edge(n0, n1, micro(true_dist_nm));
    let g = b.build();

    let neighbors = g.neighbor_list(n0.min(n1));
    assert_eq!(neighbors.len(), 1);
    assert!(
        nm(neighbors[0].1) >= 0.01,
        "quantized weight {} nm should clamp to >= 0.01 nm (1 centi-nm), not round to 0",
        nm(neighbors[0].1)
    );
}

#[test]
fn quantize_rounds_down_and_saturates() {
    assert_eq!(shore(0.0), 0);
    assert_eq!(shore(0.019), 0); // rounds down, not nearest
    assert_eq!(shore(0.02), 1);
    assert_eq!(shore(0.199), 9); // 9.95 -> 9
    assert_eq!(shore(5.1), 255);
    assert_eq!(shore(99.0), 255); // saturates
    assert_eq!(shore(-1.0), 0); // clamps
}

#[test]
fn load_rejects_v2_files() {
    let bytes = b"ASW\x02whatever".to_vec();
    let err = load(&bytes[..]).err().unwrap();
    assert!(
        err.message().contains("Unsupported ASW graph version 2"),
        "got: {}",
        err.message()
    );
}

#[test]
fn prune_keeps_main_component_and_shore_dist() {
    // 3-node chain (main) + 1 isolated node, distinct shore_dist values.
    let coords = [(0.0, 0.0), (1.0, 0.0), (2.0, 0.0), (10.0, 10.0)];
    let mut entries: Vec<(u64, u8)> = coords
        .iter()
        .enumerate()
        .map(|(i, &(lat, lng))| (cell(lat, lng), (i as u8 + 1) * 10)) // 10,20,30,40
        .collect();
    entries.sort_by_key(|(h3, _)| *h3);

    let mut b = Builder::new();
    let mut ids = Vec::new();
    for &(h3, q) in &entries {
        ids.push(b.add_node(h3, q));
    }
    // Chain the first three entries (by sorted order); leave the last isolated.
    b.add_edge(ids[0], ids[1], micro(1.0));
    b.add_edge(ids[1], ids[2], micro(1.0));
    let g = b.build();

    let pruned = g.prune_to_main_component();
    assert_eq!(pruned.num_nodes, 3);
    // Every surviving node keeps the shore_dist of the entry with its H3 index.
    for (i, &h3) in pruned.node_h3.iter().enumerate() {
        let orig = entries.iter().find(|e| e.0 == h3).unwrap();
        assert_eq!(pruned.shore_dist[i], orig.1, "node {i} shore_dist mismatch");
    }
}

#[test]
fn shore_dist_survives_save_load_roundtrip() {
    let mut cells = vec![(cell(0.0, 0.0), 7u8), (cell(5.0, 5.0), 200u8)];
    cells.sort_by_key(|(h3, _)| *h3);

    let mut b = Builder::new();
    let mut ids = Vec::new();
    for &(h3, q) in &cells {
        ids.push(b.add_node(h3, q));
    }
    b.add_edge(ids[0], ids[1], micro(1.0));
    let g = b.build();

    let loaded = load(&save(&g)).unwrap();
    assert_eq!(loaded.shore_dist, g.shore_dist);
    assert_eq!(loaded.shore_dist.len(), loaded.num_nodes as usize);
}

#[test]
fn weights_round_to_the_nearest_centi_nm() {
    assert_eq!(quantize_weight(0), 0);
    assert_eq!(quantize_weight(1), 1);
    assert_eq!(quantize_weight(4_999), 1);
    assert_eq!(quantize_weight(14_999), 1);
    assert_eq!(quantize_weight(15_000), 2);
    assert_eq!(quantize_weight(655_350_000), 65535);
}

#[test]
fn default_builder_is_empty() {
    let g: Graph = Builder::default().build();
    assert_eq!((g.num_nodes, g.num_edges), (0, 0));
    assert_eq!(g.offsets, vec![0]);
    assert!(g.connected_components().is_empty());
    assert_eq!(g.prune_to_main_component().num_nodes, 0);
}

#[test]
fn edges_come_out_by_target() {
    let cells = sorted(&[(0.0, 0.0), (0.0, 1.0), (1.0, 0.0)]);
    let mut b = Builder::new();
    for &h3 in &cells {
        b.add_node(h3, 3);
    }
    b.add_directed_edge(0, 2, 30_000);
    b.add_directed_edge(0, 1, 20_000);
    b.add_directed_edge(2, 0, 10_000);
    let g = b.build();
    assert_eq!(g.neighbor_list(0), vec![(1, 2), (2, 3)]);
    assert_eq!(g.neighbor_list(1), vec![]);
    assert_eq!(g.neighbor_list(2), vec![(0, 1)]);
    assert_eq!(g.shore_dist, vec![3, 3, 3]);
}

#[test]
fn edge_bytes_are_distances_and_weights() {
    let mut data = vec![9];
    append_edges(&vec![(2, 1), (2, 0x0203), (130, 5)], &mut data);
    assert_eq!(data, vec![9, 2, 1, 0, 0, 3, 2, 0x80, 1, 5, 0]);
}

#[test]
fn edges_in_range_sees_broken_bytes_and_far_targets() {
    let mut data = Vec::new();
    append_edges(&vec![(0, 1), (3, 1)], &mut data);
    assert!(edges_in_range(&data, 4));
    assert!(!edges_in_range(&data, 3));
    assert!(!edges_in_range(&data[..data.len() - 1], 4));
    assert!(edges_in_range(&[], 0));
}

#[test]
fn pruning_one_component_changes_nothing() {
    let g = square_graph();
    let (cells, offsets, bytes) = (g.node_h3.clone(), g.offsets.clone(), g.edge_data.clone());
    let p = g.prune_to_main_component();
    assert_eq!((p.node_h3, p.offsets, p.edge_data), (cells, offsets, bytes));
}

#[test]
fn pruned_graph_is_one_component() {
    let cells = sorted(&[(0.0, 0.0), (0.0, 1.0), (1.0, 0.0), (1.0, 1.0), (5.0, 5.0)]);
    let mut b = Builder::new();
    for &h3 in &cells {
        b.add_node(h3, 255);
    }
    b.add_edge(0, 3, micro(1.0));
    b.add_edge(1, 2, micro(2.0));
    b.add_edge(2, 4, micro(3.0));
    let p = b.build().prune_to_main_component();
    assert_eq!(p.node_h3, vec![cells[1], cells[2], cells[4]]);
    assert_eq!(p.connected_components(), vec![3]);
    assert_eq!(p.neighbor_list(0), vec![(1, 200)]);
    assert_eq!(p.neighbor_list(1), vec![(0, 200), (2, 300)]);
    assert_eq!(p.num_edges, 4);
}

#[test]
fn components_are_largest_first() {
    let cells = sorted(&[(0.0, 0.0), (0.0, 1.0), (1.0, 0.0), (1.0, 1.0), (5.0, 5.0)]);
    let mut b = Builder::new();
    for &h3 in &cells {
        b.add_node(h3, 255);
    }
    b.add_edge(1, 4, micro(1.0));
    b.add_edge(4, 2, micro(1.0));
    assert_eq!(b.build().connected_components(), vec![3, 1, 1]);
}

#[test]
fn coastline_can_be_dropped() {
    let mut b = Builder::new();
    b.coastline_coords = vec![vec![(1.0, 2.0), (3.0, 4.0)]];
    let mut g = b.build();
    assert_eq!(g.coastline_coords.len(), 1);
    g.drop_coastline_coords();
    assert!(g.coastline_coords.is_empty());
}

#[test]
fn a_framed_payload_comes_back() {
    let payload: Vec<u8> = (0..1000u32).map(|i| (i / 7) as u8).collect();
    let file = frame(&payload).unwrap();
    assert_ne!(file[4..].to_vec(), payload);
    assert!(file.len() < payload.len());
    assert_eq!(check_header(&file), Ok(()));
    assert_eq!(unframe(&file).unwrap(), payload);
}

#[test]
fn header_errors() {
    assert_eq!(check_header(b"AS"), Err(LoadError::Truncated));
    assert_eq!(check_header(b"XSW\x03"), Err(LoadError::NotAsw));
    assert_eq!(
        check_header(b"ASW\x09"),
        Err(LoadError::UnsupportedVersion(9))
    );
    assert!(matches!(
        unframe(b"ASW\x03not a frame"),
        Err(LoadError::Compression(_))
    ));
    assert_eq!(
        LoadError::Truncated.message(),
        "failed to fill whole buffer"
    );
}

fn broken(change: impl Fn(&mut Graph)) -> LoadError {
    let mut g = square_graph();
    change(&mut g);
    g.validate().unwrap_err()
}

#[test]
fn validation_names_each_defect() {
    assert_eq!(square_graph().validate(), Ok(()));
    assert_eq!(
        broken(|g| {
            g.node_h3.pop();
        }),
        LoadError::NodeCount(3, 4)
    );
    assert_eq!(
        broken(|g| {
            g.shore_dist.pop();
        }),
        LoadError::ShoreCount(3, 4)
    );
    assert_eq!(
        broken(|g| {
            g.offsets.pop();
        }),
        LoadError::OffsetCount(4, 4)
    );
    let n = square_graph().edge_data.len();
    assert_eq!(
        broken(|g| {
            g.edge_data.pop();
        }),
        LoadError::Sentinel(n as u32, n - 1)
    );
    assert_eq!(
        broken(|g| {
            g.offsets[1] = 1000;
        }),
        LoadError::NotMonotonic(2)
    );
    assert_eq!(
        broken(|g| {
            g.node_h3[2] = 7;
        }),
        LoadError::InvalidCell(2)
    );
    let cells = square_graph().node_h3;
    let err = broken(|g| {
        g.node_h3.swap(0, 1);
    });
    assert_eq!(err, LoadError::NotSorted(cells[1], cells[0]));
    assert_eq!(
        err.message(),
        format!("node_h3 not strictly sorted: {} >= {}", cells[1], cells[0])
    );
}

#[test]
fn load_error_messages() {
    assert_eq!(
        LoadError::NodeCount(3, 4).message(),
        "node_h3 length 3 != num_nodes 4"
    );
    assert_eq!(
        LoadError::ShoreCount(3, 4).message(),
        "shore_dist length 3 != num_nodes 4"
    );
    assert_eq!(
        LoadError::OffsetCount(4, 4).message(),
        "offsets length 4 != num_nodes + 1 (5)"
    );
    assert_eq!(
        LoadError::Sentinel(8, 7).message(),
        "offsets sentinel 8 != edge_data.len() 7"
    );
    assert_eq!(
        LoadError::NotMonotonic(2).message(),
        "offsets not monotonic at index 2"
    );
    assert_eq!(
        LoadError::InvalidCell(2).message(),
        "invalid H3 index at node 2"
    );
    assert_eq!(LoadError::Compression("bad".to_string()).message(), "bad");
}

#[test]
fn a_graph_of_few_edges_can_be_built() {
    let mut b = Builder::new();
    b.add_node(1, 0);
    b.add_node(2, 0);
    b.add_edge(0, 1, micro(1.0));
    let g = b.try_build().unwrap();
    assert_eq!(g.neighbor_list(1), vec![(0, 100)]);
}
