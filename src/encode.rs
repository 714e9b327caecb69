//! The little-endian byte layout handed to the renderer.
//!
//! Header: commit count (4 bytes), edge count (4 bytes). Then one 14-byte
//! row per commit in visitation order: lane (2), position (4), timestamp as
//! a double (8). Then one 24-byte row per edge: child (4), parent (4), and
//! four single-precision control values: child lane, 0.5, parent lane, 0.5.

use crate::float_bits::{f32_bits, f32_bits_of, f64_bits, f64_bits_of};
use vstd::prelude::*;

verus! {

/// The single-precision pattern of 0.5.
pub const HALF_F32_BITS: u32 = 0x3F00_0000;

/// Why a layout could not be produced.
#[derive(Debug, PartialEq, Eq)]
pub enum LayoutError {
    /// The input text did not decode into commit records.
    InvalidInput { message: String },
    /// An edge names a commit outside `0..len`.
    EdgeOutOfBounds { from: usize, to: usize, len: usize },
    /// The computation failed unexpectedly.
    InternalFault { message: String },
}

pub open spec fn le16(v: u16) -> Seq<u8> {
    seq![(v % 256) as u8, (v / 256) as u8]
}

pub open spec fn le32(v: u32) -> Seq<u8> {
    seq![
        (v % 256) as u8,
        ((v / 256) % 256) as u8,
        ((v / 65536) % 256) as u8,
        (v / 16777216) as u8,
    ]
}

pub open spec fn le64(v: u64) -> Seq<u8> {
    le32((v % 0x1_0000_0000) as u32) + le32((v / 0x1_0000_0000) as u32)
}

/// The low 32 bits of a count or position.
pub open spec fn low32(x: int) -> u32 {
    (x % 0x1_0000_0000) as u32
}

/// The low 16 bits of a lane.
pub open spec fn low16(x: int) -> u16 {
    (x % 0x1_0000) as u16
}

/// The row of the commit at position `pos` of the order.
pub open spec fn commit_row(lane: usize, pos: int, ts: i64) -> Seq<u8> {
    le16(low16(lane as int)) + le32(low32(pos)) + le64(f64_bits_of(ts))
}

/// The row of the edge from `child` to `parent`.
pub open spec fn edge_row(child: usize, parent: usize, child_lane: usize, parent_lane: usize) -> Seq<
    u8,
> {
    le32(low32(child as int)) + le32(low32(parent as int)) + le32(
        f32_bits_of(low16(child_lane as int)),
    ) + le32(HALF_F32_BITS) + le32(f32_bits_of(low16(parent_lane as int))) + le32(HALF_F32_BITS)
}

/// The rows of the first `k` commits of `order`.
pub open spec fn commit_rows(order: Seq<usize>, lanes: Seq<usize>, ts: Seq<i64>, k: nat) -> Seq<u8>
    decreases k,
{
    if k == 0 {
        Seq::empty()
    } else {
        let c = order[k - 1];
        commit_rows(order, lanes, ts, (k - 1) as nat) + commit_row(
            lanes[c as int],
            k - 1,
            ts[c as int],
        )
    }
}

/// The rows of the first `k` edges.
pub open spec fn edge_rows(edges: Seq<(usize, usize)>, lanes: Seq<usize>, k: nat) -> Seq<u8>
    decreases k,
{
    if k == 0 {
        Seq::empty()
    } else {
        let e = edges[k - 1];
        edge_rows(edges, lanes, (k - 1) as nat) + edge_row(
            e.0,
            e.1,
            lanes[e.0 as int],
            lanes[e.1 as int],
        )
    }
}

/// Both ends of every edge name a commit below `n`.
pub open spec fn edges_in_range(edges: Seq<(usize, usize)>, n: nat) -> bool {
    forall|i: int| 0 <= i < edges.len() ==> (#[trigger] edges[i].0 as int) < n && (edges[i].1 as int) < n
}

/// The whole buffer.
#[verifier::opaque]
pub open spec fn encoded(
    order: Seq<usize>,
    lanes: Seq<usize>,
    ts: Seq<i64>,
    edges: Seq<(usize, usize)>,
) -> Seq<u8> {
    le32(low32(lanes.len() as int)) + le32(low32(edges.len() as int)) + commit_rows(
        order,
        lanes,
        ts,
        order.len(),
    ) + edge_rows(edges, lanes, edges.len())
}

fn put_u16(buf: &mut Vec<u8>, v: u16)
    ensures
        final(buf)@ == old(buf)@ + le16(v),
{
    buf.push((v % 256) as u8);
    buf.push((v / 256) as u8);
    assert(final(buf)@ =~= old(buf)@ + le16(v));
}

fn put_u32(buf: &mut Vec<u8>, v: u32)
    ensures
        final(buf)@ == old(buf)@ + le32(v),
{
    buf.push((v % 256) as u8);
    buf.push(((v / 256) % 256) as u8);
    buf.push(((v / 65536) % 256) as u8);
    buf.push((v / 16777216) as u8);
    assert(final(buf)@ =~= old(buf)@ + le32(v));
}

fn put_u64(buf: &mut Vec<u8>, v: u64)
    ensures
        final(buf)@ == old(buf)@ + le64(v),
{
    put_u32(buf, (v % 0x1_0000_0000) as u32);
    put_u32(buf, (v / 0x1_0000_0000) as u32);
    assert(final(buf)@ =~= old(buf)@ + le64(v));
}

/// The first edge with an end outside `0..n`, checked from edge `i` on.
pub open spec fn first_bad_edge(edges: Seq<(usize, usize)>, n: nat, i: int) -> Option<(usize, usize)>
    decreases edges.len() - i,
{
    if i < 0 || i >= edges.len() {
        None
    } else if (edges[i].0 as int) >= n || (edges[i].1 as int) >= n {
        Some(edges[i])
    } else {
        first_bad_edge(edges, n, i + 1)
    }
}

pub proof fn lemma_first_bad_edge(edges: Seq<(usize, usize)>, n: nat, i: int)
    requires
        0 <= i <= edges.len(),
        forall|k: int| 0 <= k < i ==> (#[trigger] edges[k].0 as int) < n && (edges[k].1 as int) < n,
    ensures
        first_bad_edge(edges, n, i) is None <==> edges_in_range(edges, n),
    decreases edges.len() - i,
{
    if i < edges.len() {
        if !((edges[i].0 as int) >= n || (edges[i].1 as int) >= n) {
            lemma_first_bad_edge(edges, n, i + 1);
        }
    }
}

/// Encodes the commit table (in visitation order) and the edge table.
/// Fails, writing nothing, when an edge names a commit outside the table.
pub fn encode_layout(
    order: &Vec<usize>,
    lanes: &Vec<usize>,
    timestamps: &Vec<i64>,
    edges: &Vec<(usize, usize)>,
) -> (r: Result<Vec<u8>, LayoutError>)
    requires
        order.len() == lanes.len(),
        timestamps.len() == lanes.len(),
        forall|k: int| 0 <= k < order.len() ==> (#[trigger] order[k] as int) < lanes.len(),
    ensures
        match r {
            Ok(buf) => edges_in_range(edges@, lanes.len() as nat) && buf@ == encoded(
                order@,
                lanes@,
                timestamps@,
                edges@,
            ),
            Err(LayoutError::EdgeOutOfBounds { from, to, len }) => len == lanes.len()
                && first_bad_edge(edges@, lanes.len() as nat, 0) == Some((from, to)),
            Err(_) => false,
        },
{
    let n = lanes.len();
    let mut i: usize = 0;
    while i < edges.len()
        invariant
            i <= edges.len(),
            n == lanes.len(),
            forall|k: int| 0 <= k < i ==> (#[trigger] edges@[k].0 as int) < n && (edges@[k].1 as int) < n,
            first_bad_edge(edges@, n as nat, 0) == first_bad_edge(edges@, n as nat, i as int),
        decreases edges.len() - i,
    {
        let (from, to) = edges[i];
        if from >= n || to >= n {
            return Err(LayoutError::EdgeOutOfBounds { from, to, len: n });
        }
        i = i + 1;
    }
    proof {
        lemma_first_bad_edge(edges@, n as nat, i as int);
    }
    let mut buf: Vec<u8> = Vec::new();
    put_u32(&mut buf, (n as u64 % 0x1_0000_0000) as u32);
    put_u32(&mut buf, (edges.len() as u64 % 0x1_0000_0000) as u32);
    let ghost header = buf@;
    let mut k: usize = 0;
    while k < order.len()
        invariant
            order.len() == lanes.len(),
            timestamps.len() == lanes.len(),
            forall|j: int| 0 <= j < order.len() ==> (#[trigger] order[j] as int) < lanes.len(),
            k <= order.len(),
            buf@ == header + commit_rows(order@, lanes@, timestamps@, k as nat),
        decreases order.len() - k,
    {
        let c = order[k];
        put_u16(&mut buf, (lanes[c] % 0x1_0000) as u16);
        put_u32(&mut buf, (k as u64 % 0x1_0000_0000) as u32);
        put_u64(&mut buf, f64_bits(timestamps[c]));
        k = k + 1;
        assert(buf@ =~= header + commit_rows(order@, lanes@, timestamps@, k as nat));
    }
    let ghost table = buf@;
    let mut t: usize = 0;
    while t < edges.len()
        invariant
            n == lanes.len(),
            edges_in_range(edges@, n as nat),
            t <= edges.len(),
            buf@ == table + edge_rows(edges@, lanes@, t as nat),
        decreases edges.len() - t,
    {
        let (from, to) = edges[t];
        assert((from as int) < n && (to as int) < n) by {
            assert(edges@[t as int].0 == from);
        }
        put_u32(&mut buf, (from as u64 % 0x1_0000_0000) as u32);
        put_u32(&mut buf, (to as u64 % 0x1_0000_0000) as u32);
        put_u32(&mut buf, f32_bits((lanes[from] % 0x1_0000) as u16));
        put_u32(&mut buf, HALF_F32_BITS);
        put_u32(&mut buf, f32_bits((lanes[to] % 0x1_0000) as u16));
        put_u32(&mut buf, HALF_F32_BITS);
        t = t + 1;
        assert(buf@ =~= table + edge_rows(edges@, lanes@, t as nat));
    }
    reveal(encoded);
    assert(buf@ =~= encoded(order@, lanes@, timestamps@, edges@));
    Ok(buf)
}

} // verus!
