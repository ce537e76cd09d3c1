//! Graph files: a magic header with the format's version, then the compressed
//! payload; and the tests that a decoded graph has to pass.

use vstd::prelude::*;
use vstd::string::*;
use std::io::{Read, Write};
use crate::graph::RoutingGraph;
use crate::h3::{is_cell, valid_cell};
use crate::text::{decimal, push_decimal};

verus! {

/// The version that this library writes and reads.
pub const FORMAT_VERSION: u8 = 3;

/// Level at which payloads are compressed.
pub const COMPRESSION_LEVEL: i32 = 19;

/// What can be wrong with a graph file.
#[derive(Debug, PartialEq, Eq)]
pub enum LoadError {
    /// Fewer than four bytes.
    Truncated,
    /// The header does not start with `ASW`.
    NotAsw,
    /// A version other than [`FORMAT_VERSION`].
    UnsupportedVersion(u8),
    /// The payload could not be compressed or decompressed.
    Compression(String),
    /// `node_h3` has another length than `num_nodes`.
    NodeCount(usize, u32),
    /// `shore_dist` has another length than `num_nodes`.
    ShoreCount(usize, u32),
    /// `offsets` does not hold one more than `num_nodes`.
    OffsetCount(usize, u32),
    /// The last offset is not the length of `edge_data`.
    Sentinel(u32, usize),
    /// The offset at this index is smaller than the one before.
    NotMonotonic(usize),
    /// This node's H3 index is none.
    InvalidCell(usize),
    /// This H3 index is not smaller than the next.
    NotSorted(u64, u64),
}

impl LoadError {
    /// The error in words.
    pub open spec fn text(self) -> Seq<char> {
        match self {
            LoadError::Truncated => "failed to fill whole buffer"@,
            LoadError::NotAsw => "Not an ASW graph file (expected ASW magic header). Rebuild required."@,
            LoadError::UnsupportedVersion(v) => "Unsupported ASW graph version "@ + decimal(v as nat) + " (expected 3). Rebuild required."@,
            LoadError::Compression(e) => e@,
            LoadError::NodeCount(len, n) => "node_h3 length "@ + decimal(len as nat) + " != num_nodes "@ + decimal(n as nat),
            LoadError::ShoreCount(len, n) => "shore_dist length "@ + decimal(len as nat) + " != num_nodes "@ + decimal(n as nat),
            LoadError::OffsetCount(len, n) => "offsets length "@ + decimal(len as nat) + " != num_nodes + 1 ("@ + decimal((n + 1) as nat) + ")"@,
            LoadError::Sentinel(last, len) => "offsets sentinel "@ + decimal(last as nat) + " != edge_data.len() "@ + decimal(len as nat),
            LoadError::NotMonotonic(i) => "offsets not monotonic at index "@ + decimal(i as nat),
            LoadError::InvalidCell(i) => "invalid H3 index at node "@ + decimal(i as nat),
            LoadError::NotSorted(a, b) => "node_h3 not strictly sorted: "@ + decimal(a as nat) + " >= "@ + decimal(b as nat),
        }
    }

    /// The error in words.
    pub fn message(&self) -> (r: String)
        ensures
            r@ == self.text(),
    {
        let mut out: String = String::new();
        match self {
            LoadError::Truncated => {
                out.append("failed to fill whole buffer");
            },
            LoadError::NotAsw => {
                out.append("Not an ASW graph file (expected ASW magic header). Rebuild required.");
            },
            LoadError::UnsupportedVersion(v) => {
                out.append("Unsupported ASW graph version ");
                push_decimal(&mut out, *v as u64);
                out.append(" (expected 3). Rebuild required.");
            },
            LoadError::Compression(e) => {
                out.append(e.as_str());
            },
            LoadError::NodeCount(len, n) => {
                out.append("node_h3 length ");
                push_decimal(&mut out, *len as u64);
                out.append(" != num_nodes ");
                push_decimal(&mut out, *n as u64);
            },
            LoadError::ShoreCount(len, n) => {
                out.append("shore_dist length ");
                push_decimal(&mut out, *len as u64);
                out.append(" != num_nodes ");
                push_decimal(&mut out, *n as u64);
            },
            LoadError::OffsetCount(len, n) => {
                out.append("offsets length ");
                push_decimal(&mut out, *len as u64);
                out.append(" != num_nodes + 1 (");
                push_decimal(&mut out, *n as u64 + 1);
                out.append(")");
            },
            LoadError::Sentinel(last, len) => {
                out.append("offsets sentinel ");
                push_decimal(&mut out, *last as u64);
                out.append(" != edge_data.len() ");
                push_decimal(&mut out, *len as u64);
            },
            LoadError::NotMonotonic(i) => {
                out.append("offsets not monotonic at index ");
                push_decimal(&mut out, *i as u64);
            },
            LoadError::InvalidCell(i) => {
                out.append("invalid H3 index at node ");
                push_decimal(&mut out, *i as u64);
            },
            LoadError::NotSorted(a, b) => {
                out.append("node_h3 not strictly sorted: ");
                push_decimal(&mut out, *a as u64);
                out.append(" >= ");
                push_decimal(&mut out, *b as u64);
            },
        }
        assert(out@ =~= self.text());
        out
    }
}

/// The header of every graph file.
pub open spec fn magic() -> Seq<u8> {
    seq![0x41, 0x53, 0x57, FORMAT_VERSION]
}

/// What zstd compresses `payload` to at `level`.
pub uninterp spec fn zstd_compressed(payload: Seq<u8>, level: i32) -> Seq<u8>;

/// What zstd makes of `data`: nothing where it is not made of whole frames.
pub uninterp spec fn zstd_decompressed(data: Seq<u8>) -> Option<Seq<u8>>;

/// `zstd::Encoder` into memory: writes all of `payload` into one compressed
/// frame, at one of the levels that there are. Into memory nothing of this fails,
/// as long as there is memory to be had. What comes out is named; decompressing
/// it gives `payload` back.
#[verifier::external_body]
fn zstd_encode(payload: &[u8], level: i32) -> (r: Result<Vec<u8>, String>)
    requires
        1 <= level <= 22,
    ensures
        r is Ok,
        r matches Ok(data) ==> data@ == zstd_compressed(payload@, level) && zstd_decompressed(data@)
            == Some(payload@),
{
    let mut encoder = zstd::Encoder::new(Vec::new(), level).map_err(|e| e.to_string())?;
    encoder.write_all(payload).map_err(|e| e.to_string())?;
    encoder.finish().map_err(|e| e.to_string())
}

/// `zstd::Decoder` out of memory: reads `data` to its end, with as much memory as
/// it takes. What comes out, and of which data nothing does, is named.
#[verifier::external_body]
fn zstd_decode(data: &[u8]) -> (r: Result<Vec<u8>, String>)
    ensures
        match r {
            Ok(payload) => zstd_decompressed(data@) == Some(payload@),
            Err(_) => zstd_decompressed(data@) is None,
        },
{
    let mut decoder = zstd::Decoder::new(data).map_err(|e| e.to_string())?;
    let mut payload = Vec::new();
    decoder.read_to_end(&mut payload).map_err(|e| e.to_string())?;
    Ok(payload)
}

/// The file consists of the header and the compressed payload, and decompressing
/// the rest gives the payload back.
pub open spec fn is_frame_of(file: Seq<u8>, payload: Seq<u8>) -> bool {
    &&& file == magic() + zstd_compressed(payload, COMPRESSION_LEVEL)
    &&& zstd_decompressed(file.skip(4)) == Some(payload)
}

/// The bytes of a graph file: the header, then the compressed payload.
pub fn frame(payload: &[u8]) -> (r: Result<Vec<u8>, LoadError>)
    ensures
        r matches Ok(file) && is_frame_of(file@, payload@),
{
    match zstd_encode(payload, COMPRESSION_LEVEL) {
        Ok(mut data) => {
            let mut file: Vec<u8> = Vec::new();
            file.push(0x41);
            file.push(0x53);
            file.push(0x57);
            file.push(FORMAT_VERSION);
            let ghost body = data@;
            file.append(&mut data);
            assert(file@ =~= magic() + body);
            assert(file@.skip(4) =~= body);
            Ok(file)
        },
        Err(e) => Err(LoadError::Compression(e)),
    }
}

/// What the header of a file says: `None` where the payload may be read.
pub open spec fn header_error(file: Seq<u8>) -> Option<LoadError> {
    if file.len() < 4 {
        Some(LoadError::Truncated)
    } else if file[0] != 0x41 || file[1] != 0x53 || file[2] != 0x57 {
        Some(LoadError::NotAsw)
    } else if file[3] != FORMAT_VERSION {
        Some(LoadError::UnsupportedVersion(file[3]))
    } else {
        None
    }
}

/// Tests the header of a graph file.
pub fn check_header(file: &[u8]) -> (r: Result<(), LoadError>)
    ensures
        match r {
            Ok(_) => header_error(file@) is None,
            Err(e) => header_error(file@) == Some(e),
        },
{
    if file.len() < 4 {
        return Err(LoadError::Truncated);
    }
    if file[0] != 0x41 || file[1] != 0x53 || file[2] != 0x57 {
        return Err(LoadError::NotAsw);
    }
    if file[3] != FORMAT_VERSION {
        return Err(LoadError::UnsupportedVersion(file[3]));
    }
    Ok(())
}

/// `r` is what reading the file gives: the payload behind an accepted header, the
/// header's error, or that of the decompression where there is no payload.
pub open spec fn is_read_of(file: Seq<u8>, r: Result<Vec<u8>, LoadError>) -> bool {
    match r {
        Ok(payload) => header_error(file) is None && zstd_decompressed(file.skip(4)) == Some(
            payload@,
        ),
        Err(e) => match header_error(file) {
            Some(h) => e == h,
            None => e is Compression && zstd_decompressed(file.skip(4)) is None,
        },
    }
}

/// The payload of a graph file.
pub fn unframe(file: &[u8]) -> (r: Result<Vec<u8>, LoadError>)
    ensures
        is_read_of(file@, r),
{
    match check_header(file) {
        Err(e) => Err(e),
        Ok(_) => {
            let data = vstd::slice::slice_subrange(file, 4, file.len());
            assert(data@ =~= file@.skip(4));
            match zstd_decode(data) {
                Ok(payload) => Ok(payload),
                Err(e) => Err(LoadError::Compression(e)),
            }
        },
    }
}

/// Reading gives back what was written: of a file that [`frame`] made of
/// `payload`, [`unframe`] returns `payload`.
pub proof fn lemma_frame_roundtrip(
    payload: Seq<u8>,
    file: Seq<u8>,
    read: Result<Vec<u8>, LoadError>,
)
    requires
        is_frame_of(file, payload),
        is_read_of(file, read),
    ensures
        file.take(4) == magic(),
        read matches Ok(back) && back@ == payload,
{
    assert(file.take(4) =~= magic());
}

/// The first index whose offset is smaller than the one before, from `i` on.
pub open spec fn first_drop(offsets: Seq<u32>, i: int) -> Option<int>
    decreases offsets.len() - i,
{
    if i < 1 || i >= offsets.len() {
        None
    } else if offsets[i] < offsets[i - 1] {
        Some(i)
    } else {
        first_drop(offsets, i + 1)
    }
}

/// The first node from `i` on whose index is no cell.
pub open spec fn first_invalid(cells: Seq<u64>, i: int) -> Option<int>
    decreases cells.len() - i,
{
    if i < 0 || i >= cells.len() {
        None
    } else if !valid_cell(cells[i]) {
        Some(i)
    } else {
        first_invalid(cells, i + 1)
    }
}

/// The first position from `i` on whose cell is not below the next one.
pub open spec fn first_unsorted(cells: Seq<u64>, i: int) -> Option<int>
    decreases cells.len() - i,
{
    if i < 0 || i + 1 >= cells.len() {
        None
    } else if cells[i] >= cells[i + 1] {
        Some(i)
    } else {
        first_unsorted(cells, i + 1)
    }
}

/// The offset that is named is smaller than the one before, and no earlier one is.
pub proof fn lemma_first_drop(offsets: Seq<u32>, i: int)
    requires
        1 <= i,
    ensures
        match first_drop(offsets, i) {
            Some(k) => i <= k < offsets.len() && offsets[k] < offsets[k - 1] && forall|j: int|
                i <= j < k ==> #[trigger] offsets[j] >= offsets[j - 1],
            None => forall|j: int|
                i <= j < offsets.len() ==> #[trigger] offsets[j] >= offsets[j - 1],
        },
    decreases offsets.len() - i,
{
    if i < offsets.len() && offsets[i] >= offsets[i - 1] {
        lemma_first_drop(offsets, i + 1);
    }
}

/// The node that is named has no cell, and every earlier one has.
pub proof fn lemma_first_invalid(cells: Seq<u64>, i: int)
    requires
        0 <= i,
    ensures
        match first_invalid(cells, i) {
            Some(k) => i <= k < cells.len() && !valid_cell(cells[k]) && forall|j: int|
                i <= j < k ==> valid_cell(#[trigger] cells[j]),
            None => forall|j: int| i <= j < cells.len() ==> valid_cell(#[trigger] cells[j]),
        },
    decreases cells.len() - i,
{
    if i < cells.len() && valid_cell(cells[i]) {
        lemma_first_invalid(cells, i + 1);
    }
}

/// The cell that is named is not below the next one, and every earlier one is.
pub proof fn lemma_first_unsorted(cells: Seq<u64>, i: int)
    requires
        0 <= i,
    ensures
        match first_unsorted(cells, i) {
            Some(k) => i <= k < cells.len() - 1 && cells[k] >= cells[k + 1] && forall|j: int|
                i <= j < k ==> #[trigger] cells[j] < cells[j + 1],
            None => forall|j: int| i <= j < cells.len() - 1 ==> #[trigger] cells[j] < cells[j + 1],
        },
    decreases cells.len() - i,
{
    if i + 1 < cells.len() && cells[i] < cells[i + 1] {
        lemma_first_unsorted(cells, i + 1);
    }
}

/// Cells in strictly ascending order.
pub open spec fn strictly_sorted(cells: Seq<u64>) -> bool {
    forall|i: int, j: int| 0 <= i < j < cells.len() ==> #[trigger] cells[i] < #[trigger] cells[j]
}

impl<P> RoutingGraph<P> {
    /// What is wrong with a decoded graph: the first of the tests that fails.
    pub open spec fn defect(&self) -> Option<LoadError> {
        let n = self.num_nodes as int;
        if self.node_h3@.len() != n {
            Some(LoadError::NodeCount(self.node_h3@.len() as usize, self.num_nodes))
        } else if self.shore_dist@.len() != n {
            Some(LoadError::ShoreCount(self.shore_dist@.len() as usize, self.num_nodes))
        } else if self.offsets@.len() != n + 1 {
            Some(LoadError::OffsetCount(self.offsets@.len() as usize, self.num_nodes))
        } else if self.offsets@[n] != self.edge_data@.len() {
            Some(LoadError::Sentinel(self.offsets@[n], self.edge_data@.len() as usize))
        } else if let Some(i) = first_drop(self.offsets@, 1) {
            Some(LoadError::NotMonotonic(i as usize))
        } else if let Some(i) = first_invalid(self.node_h3@, 0) {
            Some(LoadError::InvalidCell(i as usize))
        } else if let Some(i) = first_unsorted(self.node_h3@, 0) {
            Some(LoadError::NotSorted(self.node_h3@[i], self.node_h3@[i + 1]))
        } else {
            None
        }
    }

    /// Tests a decoded graph: lengths, offsets, H3 indices and their order.
    #[verifier::loop_isolation(false)]
    pub fn validate(&self) -> (r: Result<(), LoadError>)
        ensures
            match r {
                Ok(_) => self.defect() is None,
                Err(e) => self.defect() == Some(e),
            },
            r is Ok ==> self.shape() && strictly_sorted(self.node_h3@) && forall|i: int|
                0 <= i < self.node_h3@.len() ==> valid_cell(#[trigger] self.node_h3@[i]),
    {
        let n: usize = self.num_nodes as usize;
        if self.node_h3.len() != n {
            return Err(LoadError::NodeCount(self.node_h3.len(), self.num_nodes));
        }
        if self.shore_dist.len() != n {
            return Err(LoadError::ShoreCount(self.shore_dist.len(), self.num_nodes));
        }
        if self.offsets.len() == 0 || self.offsets.len() - 1 != n {
            return Err(LoadError::OffsetCount(self.offsets.len(), self.num_nodes));
        }
        if self.offsets[n] as usize != self.edge_data.len() {
            return Err(LoadError::Sentinel(self.offsets[n], self.edge_data.len()));
        }
        let mut i: usize = 1;
        while i < self.offsets.len()
            invariant
                1 <= i <= self.offsets@.len(),
                first_drop(self.offsets@, 1) == first_drop(self.offsets@, i as int),
                forall|a: int, b: int|
                    0 <= a <= b < i ==> #[trigger] self.offsets@[a] <= #[trigger] self.offsets@[b],
            decreases self.offsets@.len() - i,
        {
            if self.offsets[i] < self.offsets[i - 1] {
                return Err(LoadError::NotMonotonic(i));
            }
            i = i + 1;
        }
        let mut i: usize = 0;
        while i < n
            invariant
                n == self.node_h3@.len(),
                i <= n,
                first_invalid(self.node_h3@, 0) == first_invalid(self.node_h3@, i as int),
                forall|a: int| 0 <= a < i ==> valid_cell(#[trigger] self.node_h3@[a]),
            decreases n - i,
        {
            if !is_cell(self.node_h3[i]) {
                return Err(LoadError::InvalidCell(i));
            }
            i = i + 1;
        }
        let mut i: usize = 0;
        while n - i > 1
            invariant
                n == self.node_h3@.len(),
                i <= n,
                first_unsorted(self.node_h3@, 0) == first_unsorted(self.node_h3@, i as int),
                forall|a: int, b: int|
                    0 <= a < b <= i && b < n ==> #[trigger] self.node_h3@[a]
                        < #[trigger] self.node_h3@[b],
            decreases n - i,
        {
            if self.node_h3[i] >= self.node_h3[i + 1] {
                return Err(LoadError::NotSorted(self.node_h3[i], self.node_h3[i + 1]));
            }
            i = i + 1;
        }
        Ok(())
    }
}

/// A sound graph of cells in ascending order, such as a build makes, is accepted
/// when it is read again.
pub proof fn lemma_sound_graph_is_accepted<P>(g: &RoutingGraph<P>)
    requires
        g.shape(),
        strictly_sorted(g.node_h3@),
        forall|i: int| 0 <= i < g.node_h3@.len() ==> valid_cell(#[trigger] g.node_h3@[i]),
    ensures
        g.defect() is None,
{
    lemma_no_drop(g.offsets@, 1);
    lemma_no_invalid(g.node_h3@, 0);
    lemma_no_unsorted(g.node_h3@, 0);
}

proof fn lemma_no_drop(offsets: Seq<u32>, i: int)
    requires
        1 <= i,
        forall|a: int, b: int|
            0 <= a <= b < offsets.len() ==> #[trigger] offsets[a] <= #[trigger] offsets[b],
    ensures
        first_drop(offsets, i) is None,
    decreases offsets.len() - i,
{
    if i < offsets.len() {
        assert(offsets[i - 1] <= offsets[i]);
        lemma_no_drop(offsets, i + 1);
    }
}

proof fn lemma_no_invalid(cells: Seq<u64>, i: int)
    requires
        0 <= i,
        forall|k: int| 0 <= k < cells.len() ==> valid_cell(#[trigger] cells[k]),
    ensures
        first_invalid(cells, i) is None,
    decreases cells.len() - i,
{
    if i < cells.len() {
        lemma_no_invalid(cells, i + 1);
    }
}

proof fn lemma_no_unsorted(cells: Seq<u64>, i: int)
    requires
        0 <= i,
        strictly_sorted(cells),
    ensures
        first_unsorted(cells, i) is None,
    decreases cells.len() - i,
{
    if i + 1 < cells.len() {
        assert(cells[i] < cells[i + 1]);
        lemma_no_unsorted(cells, i + 1);
    }
}

} // verus!
