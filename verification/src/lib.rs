//! Maritime routing over a graph of H3 cells.

pub mod api;
pub mod assembly;
pub mod astar_pool;
pub mod bench;
pub mod board;
pub mod bounds;
pub mod boxtree;
pub mod build_graph;
pub mod canal_water;
pub mod cell_list;
pub mod cells;
pub mod cli;
pub mod clock;
pub mod coastline;
pub mod components;
pub mod config;
pub mod container;
pub mod download;
pub mod edge_list;
pub mod edges;
pub mod export;
pub mod figures;
pub mod geo_index;
pub mod graph;
pub mod h3;
pub mod heap;
pub mod hetzner;
pub mod notation;
pub mod oracle;
pub mod passages;
pub mod path;
pub mod pipeline;
pub mod prune;
pub mod range_min;
pub mod report;
pub mod route;
pub mod routing;
pub mod seam;
pub mod search;
pub mod shapefile;
pub mod smoothing;
pub mod sort;
pub mod source;
pub mod srcdir;
pub mod ssh;
pub mod state;
pub mod survey;
pub mod text;
pub mod varint;
pub mod water_text;

use vstd::prelude::*;

verus! {

/// Resolution of the coarsest ocean cells.
pub const H3_RES_BASE: u8 = 3;

/// Resolution of the finest shoreline cells outside passages.
pub const H3_RES_LEAF: u8 = 10;

/// Most vertices in one piece of coastline.
pub const COASTLINE_SUBDIVIDE_MAX: usize = 256;

} // verus!
