//! The whole layout: index, links, visitation order, lanes, edges and the
//! byte buffer, with the guarantees callers rely on.

use crate::commit_index::{
    build_index, commit_links, lemma_sha_index_bounded, parents_of, resolve,
    resolve_links, sha_index, CommitRecord,
};
use crate::encode::{
    commit_rows, edge_rows, edges_in_range, encode_layout, encoded, first_bad_edge, le32,
    lemma_first_bad_edge, low32, LayoutError,
};
use crate::lanes::{assign_lanes, lane_table};
use crate::schedule::{
    collect_edges, edges_of, edges_upto, is_visitation_order, lemma_visitation_order_unique,
    links_wf, visitation_order,
};
use vstd::prelude::*;

verus! {

/// The encoded layout of a commit set.
pub struct LaneResult {
    buf: Vec<u8>,
}

impl View for LaneResult {
    type V = Seq<u8>;

    closed spec fn view(&self) -> Seq<u8> {
        self.buf@
    }
}

impl LaneResult {
    /// The encoded bytes.
    pub fn buffer(&self) -> (r: Vec<u8>)
        ensures
            r@ == self@,
    {
        let mut r: Vec<u8> = Vec::new();
        let mut i: usize = 0;
        while i < self.buf.len()
            invariant
                i <= self.buf.len(),
                r@ == self.buf@.take(i as int),
            decreases self.buf.len() - i,
        {
            r.push(self.buf[i]);
            i = i + 1;
            assert(r@ =~= self.buf@.take(i as int));
        }
        assert(self.buf@.take(i as int) =~= self.buf@);
        r
    }
}

/// The timestamps of the records, by position.
pub open spec fn commit_timestamps(cs: Seq<CommitRecord>) -> Seq<i64> {
    Seq::new(cs.len(), |i: int| cs[i].timestamp)
}

/// The visitation order of the records.
pub open spec fn layout_order(cs: Seq<CommitRecord>) -> Seq<usize> {
    choose|o: Seq<usize>| is_visitation_order(commit_links(cs), commit_timestamps(cs), o)
}

/// The lane of each record.
pub open spec fn layout_lanes(cs: Seq<CommitRecord>) -> Seq<usize> {
    lane_table(commit_links(cs), layout_order(cs))
}

/// The buffer that lays out the records.
pub open spec fn layout_bytes(cs: Seq<CommitRecord>) -> Seq<u8> {
    encoded(
        layout_order(cs),
        layout_lanes(cs),
        commit_timestamps(cs),
        edges_of(commit_links(cs)),
    )
}

proof fn lemma_resolve_bounded(idx: Map<Seq<char>, usize>, ps: Seq<String>, bound: int)
    requires
        forall|k: Seq<char>| #[trigger] idx.contains_key(k) ==> (idx[k] as int) < bound,
    ensures
        forall|i: int| 0 <= i < resolve(idx, ps).len() ==> (#[trigger] resolve(idx, ps)[i] as int)
            < bound,
    decreases ps.len(),
{
    if ps.len() > 0 {
        lemma_resolve_bounded(idx, ps.drop_last(), bound);
        let prev = resolve(idx, ps.drop_last());
        if idx.contains_key(ps.last()@) {
            assert forall|i: int| 0 <= i < resolve(idx, ps).len() implies (#[trigger] resolve(
                idx,
                ps,
            )[i] as int) < bound by {
                if i < prev.len() {
                    assert(resolve(idx, ps)[i] == prev[i]);
                }
            }
        }
    }
}

/// Every resolved parent names a record of the set.
pub proof fn lemma_commit_links_wf(cs: Seq<CommitRecord>)
    requires
        cs.len() <= usize::MAX,
    ensures
        links_wf(commit_links(cs)),
{
    lemma_sha_index_bounded(cs);
    assert forall|i: int, k: int|
        0 <= i < commit_links(cs).len() && 0 <= k < commit_links(cs)[i].len() implies (
        #[trigger] commit_links(cs)[i][k] as int) < commit_links(cs).len() by {
        lemma_resolve_bounded(sha_index(cs), cs[i].parents@, cs.len() as int);
        assert(commit_links(cs)[i] == parents_of(cs, i));
    }
}

proof fn lemma_edges_upto_in_range(links: Seq<Seq<usize>>, n: nat)
    requires
        links_wf(links),
        n <= links.len() <= usize::MAX,
    ensures
        edges_in_range(edges_upto(links, n), links.len()),
    decreases n,
{
    if n > 0 {
        lemma_edges_upto_in_range(links, (n - 1) as nat);
        let prev = edges_upto(links, (n - 1) as nat);
        let row = links[n - 1].map_values(|p: usize| ((n - 1) as usize, p));
        assert forall|i: int| 0 <= i < edges_upto(links, n).len() implies (#[trigger] edges_upto(
            links,
            n,
        )[i].0 as int) < links.len() && (edges_upto(links, n)[i].1 as int) < links.len() by {
            if i < prev.len() {
                assert(edges_upto(links, n)[i] == prev[i]);
            } else {
                assert(edges_upto(links, n)[i] == row[i - prev.len()]);
                assert(links[n - 1][i - prev.len()] < links.len());
            }
        }
    }
}

proof fn lemma_commit_rows_len(order: Seq<usize>, lanes: Seq<usize>, ts: Seq<i64>, k: nat)
    ensures
        commit_rows(order, lanes, ts, k).len() == 14 * k,
    decreases k,
{
    if k > 0 {
        lemma_commit_rows_len(order, lanes, ts, (k - 1) as nat);
    }
}

proof fn lemma_edge_rows_len(edges: Seq<(usize, usize)>, lanes: Seq<usize>, k: nat)
    ensures
        edge_rows(edges, lanes, k).len() == 24 * k,
    decreases k,
{
    if k > 0 {
        lemma_edge_rows_len(edges, lanes, (k - 1) as nat);
    }
}

/// The buffer holds an 8-byte header giving the commit and edge counts, one
/// 14-byte row per commit and one 24-byte row per resolvable parent
/// reference.
pub proof fn lemma_layout_sizes(
    order: Seq<usize>,
    lanes: Seq<usize>,
    ts: Seq<i64>,
    edges: Seq<(usize, usize)>,
)
    ensures
        encoded(order, lanes, ts, edges).len() == 8 + 14 * order.len() + 24 * edges.len(),
        encoded(order, lanes, ts, edges).take(8) == le32(low32(lanes.len() as int)) + le32(
            low32(edges.len() as int),
        ),
{
    reveal(encoded);
    lemma_commit_rows_len(order, lanes, ts, order.len());
    lemma_edge_rows_len(edges, lanes, edges.len());
    assert(encoded(order, lanes, ts, edges).take(8) =~= le32(low32(lanes.len() as int)) + le32(
        low32(edges.len() as int),
    ));
}

/// The timestamps of the records, by position.
fn timestamps_of(commits: &Vec<CommitRecord>) -> (r: Vec<i64>)
    ensures
        r@ == commit_timestamps(commits@),
{
    let ghost cs = commits@;
    let mut timestamps: Vec<i64> = Vec::new();
    let mut i: usize = 0;
    while i < commits.len()
        invariant
            i <= commits.len(),
            cs == commits@,
            timestamps@ == commit_timestamps(cs).take(i as int),
        decreases commits.len() - i,
    {
        timestamps.push(commits[i].timestamp);
        i = i + 1;
        assert(timestamps@ =~= commit_timestamps(cs).take(i as int));
    }
    assert(timestamps@ =~= commit_timestamps(cs));
    timestamps
}

proof fn lemma_layout_bytes_from_parts(
    cs: Seq<CommitRecord>,
    order: Seq<usize>,
    lanes: Seq<usize>,
    ts: Seq<i64>,
    edges: Seq<(usize, usize)>,
)
    requires
        order == layout_order(cs),
        lanes == lane_table(commit_links(cs), order),
        ts == commit_timestamps(cs),
        edges == edges_of(commit_links(cs)),
    ensures
        encoded(order, lanes, ts, edges) == layout_bytes(cs),
{
}

proof fn lemma_order_is_layout_order(cs: Seq<CommitRecord>, order: Seq<usize>)
    requires
        is_visitation_order(commit_links(cs), commit_timestamps(cs), order),
    ensures
        order == layout_order(cs),
        is_visitation_order(commit_links(cs), commit_timestamps(cs), layout_order(cs)),
{
    let links = commit_links(cs);
    let ts = commit_timestamps(cs);
    assert(exists|o: Seq<usize>| is_visitation_order(links, ts, o));
    lemma_visitation_order_unique(links, ts, order, layout_order(cs));
}

proof fn lemma_no_bad_edge(edges: Seq<(usize, usize)>, n: nat)
    requires
        edges_in_range(edges, n),
    ensures
        first_bad_edge(edges, n, 0) is None,
{
    lemma_first_bad_edge(edges, n, 0);
}

/// Lays out a commit set: the visitation order, each commit's lane and the
/// in-set edges, encoded as one buffer. Never fails on records.
#[verifier::rlimit(60)]
pub fn build_lanes(commits: &Vec<CommitRecord>) -> (r: Result<LaneResult, LayoutError>)
    ensures
        is_visitation_order(
            commit_links(commits@),
            commit_timestamps(commits@),
            layout_order(commits@),
        ),
        r matches Ok(res) && res@ == layout_bytes(commits@),
        r matches Ok(res) && res@.len() == 8 + 14 * commits.len() + 24 * edges_of(
            commit_links(commits@),
        ).len(),
        r matches Ok(res) && res@.take(8) == le32(low32(commits.len() as int)) + le32(
            low32(edges_of(commit_links(commits@)).len() as int),
        ),
{
    let ghost cs = commits@;
    assert(cs.len() == commits.len());
    let index = build_index(commits);
    let links = resolve_links(commits, &index);
    proof {
        lemma_commit_links_wf(cs);
    }
    let timestamps = timestamps_of(commits);
    let edges = collect_edges(&links);
    assert(edges@.len() == edges.len());
    let order = visitation_order(&links, &timestamps);
    proof {
        lemma_order_is_layout_order(cs, order@);
    }
    let lanes = assign_lanes(&links, &order);
    proof {
        lemma_edges_upto_in_range(commit_links(cs), cs.len());
        assert(commit_links(cs).len() == cs.len());
        assert(edges@ == edges_upto(commit_links(cs), cs.len()));
        assert(edges_in_range(edges@, lanes.len() as nat));
        lemma_layout_sizes(order@, lanes@, timestamps@, edges@);
    }
    match encode_layout(&order, &lanes, &timestamps, &edges) {
        Ok(buf) => {
            proof {
                lemma_layout_bytes_from_parts(cs, order@, lanes@, timestamps@, edges@);
            }
            Ok(LaneResult { buf })
        },
        Err(e) => {
            proof {
                lemma_no_bad_edge(edges@, lanes.len() as nat);
            }
            Err(e)
        },
    }
}

/// Lays out the outcome of decoding the input text: a decoding failure
/// becomes an input error carrying its message, and records are laid out as
/// `build_lanes` does.
pub fn build_lanes_from_parsed(parsed: Result<Vec<CommitRecord>, String>) -> (r: Result<
    LaneResult,
    LayoutError,
>)
    ensures
        parsed matches Err(m) ==> (r matches Err(LayoutError::InvalidInput { message })
            && message@ == m@),
        parsed matches Ok(cs) ==> (r matches Ok(res) && res@ == layout_bytes(cs@)),
{
    match parsed {
        Err(message) => Err(LayoutError::InvalidInput { message }),
        Ok(commits) => build_lanes(&commits),
    }
}

} // verus!
