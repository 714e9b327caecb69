use gitpow_graph::commit_index::CommitRecord;
use gitpow_graph::encode::{encode_layout, LayoutError};
use gitpow_graph::lanes::assign_lanes;
use gitpow_graph::layout::{build_lanes, build_lanes_from_parsed};
use gitpow_graph::schedule::{collect_edges, readiness_counts, visitation_order};

fn rec(sha: &str, parents: &[&str], timestamp: i64) -> CommitRecord {
    CommitRecord {
        sha: sha.to_string(),
        parents: parents.iter().map(|p| p.to_string()).collect(),
        timestamp,
        author: None,
        message: None,
    }
}

struct Decoded {
    commit_count: u32,
    edge_count: u32,
    rows: Vec<(u16, u32, f64)>,
    edges: Vec<(u32, u32, f32, f32, f32, f32)>,
}

fn u16_at(b: &[u8], i: usize) -> u16 {
    u16::from_le_bytes([b[i], b[i + 1]])
}

fn u32_at(b: &[u8], i: usize) -> u32 {
    u32::from_le_bytes([b[i], b[i + 1], b[i + 2], b[i + 3]])
}

fn f32_at(b: &[u8], i: usize) -> f32 {
    f32::from_bits(u32_at(b, i))
}

fn f64_at(b: &[u8], i: usize) -> f64 {
    let mut a = [0u8; 8];
    a.copy_from_slice(&b[i..i + 8]);
    f64::from_le_bytes(a)
}

fn decode(b: &[u8]) -> Decoded {
    let commit_count = u32_at(b, 0);
    let edge_count = u32_at(b, 4);
    let mut at = 8;
    let mut rows = Vec::new();
    for _ in 0..commit_count {
        rows.push((u16_at(b, at), u32_at(b, at + 2), f64_at(b, at + 6)));
        at += 14;
    }
    let mut edges = Vec::new();
    for _ in 0..edge_count {
        edges.push((
            u32_at(b, at),
            u32_at(b, at + 4),
            f32_at(b, at + 8),
            f32_at(b, at + 12),
            f32_at(b, at + 16),
            f32_at(b, at + 20),
        ));
        at += 24;
    }
    assert_eq!(at, b.len());
    Decoded { commit_count, edge_count, rows, edges }
}

fn layout(commits: &Vec<CommitRecord>) -> Vec<u8> {
    build_lanes(commits).unwrap().buffer()
}

fn links_of(commits: &Vec<CommitRecord>) -> Vec<Vec<usize>> {
    let index = gitpow_graph::commit_index::build_index(commits);
    gitpow_graph::commit_index::resolve_links(commits, &index)
}

#[test]
fn chain_is_visited_children_first() {
    let commits = vec![rec("c1", &[], 1), rec("c2", &["c1"], 2), rec("c3", &["c2"], 3)];
    let links = links_of(&commits);
    let order = visitation_order(&links, &vec![1, 2, 3]);
    assert_eq!(order, vec![2, 1, 0]);
    let lanes = assign_lanes(&links, &order);
    assert_eq!(lanes, vec![0, 0, 0]);
    let d = decode(&layout(&commits));
    assert_eq!(d.rows, vec![(0, 0, 3.0), (0, 1, 2.0), (0, 2, 1.0)]);
    assert_eq!(d.edges, vec![(1, 0, 0.0, 0.5, 0.0, 0.5), (2, 1, 0.0, 0.5, 0.0, 0.5)]);
}

#[test]
fn two_tips_earliest_first_each_own_lane() {
    let commits = vec![rec("b", &[], 20), rec("a", &[], 10)];
    let links = links_of(&commits);
    assert_eq!(readiness_counts(&links), vec![0, 0]);
    let order = visitation_order(&links, &vec![20, 10]);
    assert_eq!(order, vec![1, 0]);
    let lanes = assign_lanes(&links, &order);
    assert_eq!(lanes[1], 0);
    assert_eq!(lanes[0], 1);
}

#[test]
fn merge_commit_before_its_parents() {
    let commits = vec![rec("m", &["left", "right"], 3), rec("left", &[], 1), rec("right", &[], 2)];
    let links = links_of(&commits);
    assert_eq!(links, vec![vec![1, 2], vec![], vec![]]);
    let order = visitation_order(&links, &vec![3, 1, 2]);
    assert_eq!(order, vec![0, 1, 2]);
    let lanes = assign_lanes(&links, &order);
    // The merge opens lane 0, its first parent continues it, the other opens lane 1.
    assert_eq!(lanes, vec![0, 0, 1]);
}

#[test]
fn merge_lane_continues_to_first_listed_parent() {
    let links = vec![vec![1, 2], vec![], vec![]];
    assert_eq!(assign_lanes(&links, &vec![0, 1, 2]), vec![0, 0, 1]);
    assert_eq!(assign_lanes(&links, &vec![0, 2, 1]), vec![0, 0, 1]);
    let swapped = vec![vec![2, 1], vec![], vec![]];
    assert_eq!(assign_lanes(&swapped, &vec![0, 1, 2]), vec![0, 1, 0]);
}

#[test]
fn long_chain_uses_one_lane() {
    let mut commits = vec![rec("c0", &[], 0)];
    for i in 1..50 {
        let parent = format!("c{}", i - 1);
        commits.push(rec(&format!("c{}", i), &[parent.as_str()], i as i64));
    }
    let links = links_of(&commits);
    let order = visitation_order(&links, &commits.iter().map(|c| c.timestamp).collect());
    assert!(assign_lanes(&links, &order).iter().all(|&l| l == 0));
}

#[test]
fn converging_lines_free_a_lane() {
    // Two children of one parent: the second child's line ends at the parent,
    // and its lane is reused by a root placed afterwards.
    let commits = vec![
        rec("p", &[], 1),
        rec("a", &["p"], 5),
        rec("b", &["p"], 4),
        rec("early", &[], 0),
        rec("late", &[], 10),
    ];
    let links = links_of(&commits);
    let order = visitation_order(&links, &vec![1, 5, 4, 0, 10]);
    assert_eq!(order, vec![3, 2, 1, 0, 4]);
    // early: 0, b: 1 (kept for p), a: 2 (kept for p), p: 1 (slot 2 freed), late: 2.
    assert_eq!(assign_lanes(&links, &order), vec![1, 2, 1, 0, 2]);
}

#[test]
fn malformed_input_is_an_input_error() {
    let r = build_lanes_from_parsed(Err("expected value at line 1 column 1".to_string()));
    match r {
        Err(LayoutError::InvalidInput { message }) => {
            assert_eq!(message, "expected value at line 1 column 1")
        }
        _ => panic!("expected an input error"),
    }
}

#[test]
fn parsed_records_are_laid_out() {
    let commits = vec![rec("a", &[], 5)];
    let r = build_lanes_from_parsed(Ok(commits.clone_records())).unwrap().buffer();
    assert_eq!(r, layout(&commits));
}

trait CloneRecords {
    fn clone_records(&self) -> Vec<CommitRecord>;
}

impl CloneRecords for Vec<CommitRecord> {
    fn clone_records(&self) -> Vec<CommitRecord> {
        self.iter()
            .map(|c| CommitRecord {
                sha: c.sha.clone(),
                parents: c.parents.clone(),
                timestamp: c.timestamp,
                author: c.author.clone(),
                message: c.message.clone(),
            })
            .collect()
    }
}

#[test]
fn table_sizes_match_commits_and_resolvable_parents() {
    let commits = vec![
        rec("a", &["b", "missing"], 3),
        rec("b", &["c"], 2),
        rec("c", &[], 1),
    ];
    let buf = layout(&commits);
    assert_eq!(buf.len(), 8 + 3 * 14 + 2 * 24);
    let d = decode(&buf);
    assert_eq!(d.commit_count, 3);
    assert_eq!(d.edge_count, 2);
    assert_eq!(d.edges[0].0, 0);
    assert_eq!(d.edges[0].1, 1);
    assert_eq!(d.edges[1].0, 1);
    assert_eq!(d.edges[1].1, 2);
    assert_eq!(d.edges[0].3, 0.5);
    assert_eq!(d.edges[0].5, 0.5);
}

#[test]
fn parents_follow_children_without_cycles() {
    let commits = vec![
        rec("r", &[], 1),
        rec("x", &["r"], 5),
        rec("y", &["r"], 2),
        rec("m", &["x", "y"], 9),
        rec("z", &["y"], 3),
    ];
    let links = links_of(&commits);
    let order = visitation_order(&links, &commits.iter().map(|c| c.timestamp).collect());
    let pos = |c: usize| order.iter().position(|&o| o == c).unwrap();
    for (c, ps) in links.iter().enumerate() {
        for &p in ps {
            assert!(pos(p) > pos(c));
        }
    }
    assert_eq!(order, vec![4, 3, 2, 1, 0]);
}

#[test]
fn layout_is_deterministic() {
    let commits = vec![
        rec("a", &["b"], 7),
        rec("b", &["c", "d"], 7),
        rec("c", &[], 7),
        rec("d", &[], 7),
    ];
    assert_eq!(layout(&commits), layout(&commits));
}

#[test]
fn cycle_members_follow_in_position_order() {
    let commits = vec![rec("a", &["b"], 1), rec("b", &["a"], 2), rec("c", &[], 3)];
    let links = links_of(&commits);
    let order = visitation_order(&links, &vec![1, 2, 3]);
    assert_eq!(order, vec![2, 0, 1]);
}

#[test]
fn isolated_commits_appear_once() {
    let commits = vec![rec("a", &[], 4), rec("b", &["a"], 5), rec("lone", &["nowhere"], 1)];
    let links = links_of(&commits);
    let order = visitation_order(&links, &vec![4, 5, 1]);
    assert_eq!(order, vec![2, 1, 0]);
    assert_eq!(order.iter().filter(|&&o| o == 2).count(), 1);
}

#[test]
fn lanes_never_exceed_commit_count() {
    let commits = vec![
        rec("a", &[], 1),
        rec("b", &[], 2),
        rec("c", &["a", "b"], 3),
        rec("d", &["c"], 4),
        rec("e", &["c"], 5),
    ];
    let links = links_of(&commits);
    let order = visitation_order(&links, &vec![1, 2, 3, 4, 5]);
    let lanes = assign_lanes(&links, &order);
    assert!(lanes.iter().all(|&l| l < commits.len()));
}

#[test]
fn duplicate_identifier_binds_last_position() {
    let commits = vec![rec("x", &[], 1), rec("y", &["x"], 2), rec("x", &[], 3)];
    let links = links_of(&commits);
    assert_eq!(links, vec![vec![], vec![2], vec![]]);
    assert_eq!(collect_edges(&links), vec![(1, 2)]);
}

#[test]
fn empty_input_gives_header_only() {
    let buf = layout(&Vec::new());
    assert_eq!(buf, vec![0, 0, 0, 0, 0, 0, 0, 0]);
}

#[test]
fn single_commit_exact_bytes() {
    let buf = layout(&vec![rec("a", &[], 2)]);
    let mut expected = vec![1, 0, 0, 0, 0, 0, 0, 0, 0, 0, 0, 0, 0, 0];
    expected.extend_from_slice(&2.0f64.to_le_bytes());
    assert_eq!(buf, expected);
}

#[test]
fn edge_row_carries_lanes_as_floats() {
    let commits = vec![rec("m", &["p"], 2), rec("p", &[], 1), rec("q", &[], 3)];
    let d = decode(&layout(&commits));
    // Order m, p, q: m takes lane 0, p continues it, q opens lane 1.
    assert_eq!(d.edges, vec![(0, 1, 0.0, 0.5, 0.0, 0.5)]);
    assert_eq!(d.rows, vec![(0, 0, 2.0), (0, 1, 1.0), (1, 2, 3.0)]);
}

#[test]
fn out_of_range_edge_is_rejected() {
    let r = encode_layout(&vec![0, 1], &vec![0, 1], &vec![1, 2], &vec![(0, 1), (0, 5), (7, 0)]);
    assert_eq!(r, Err(LayoutError::EdgeOutOfBounds { from: 0, to: 5, len: 2 }));
}

#[test]
fn encoder_writes_rows_in_order() {
    let r = encode_layout(&vec![1, 0], &vec![3, 4], &vec![-1, 1], &vec![(1, 0)]).unwrap();
    let d = decode(&r);
    assert_eq!(d.rows, vec![(4, 0, 1.0), (3, 1, -1.0)]);
    assert_eq!(d.edges, vec![(1, 0, 4.0, 0.5, 3.0, 0.5)]);
}

#[test]
fn commit_after_placed_parent_takes_its_lane() {
    // A cycle between d and e: nothing is eligible, so all four follow in
    // position order, and each commit finds its first parent already placed.
    let commits = vec![
        rec("p", &[], 1),
        rec("c", &["p"], 2),
        rec("d", &["c", "e"], 3),
        rec("e", &["d"], 4),
    ];
    let links = links_of(&commits);
    let order = visitation_order(&links, &vec![1, 2, 3, 4]);
    assert_eq!(order, vec![0, 1, 2, 3]);
    assert_eq!(assign_lanes(&links, &order), vec![0, 0, 0, 0]);
}

#[test]
fn placed_parent_lane_is_taken_from_first_listed() {
    // Parents 1 and 2 are placed before 0; 0 lists 2 first.
    let links = vec![vec![2, 1], vec![], vec![]];
    assert_eq!(assign_lanes(&links, &vec![1, 2, 0]), vec![1, 0, 1]);
    // The child takes over its placed parent's slot; a later root opens lane 1.
    let links = vec![vec![1], vec![], vec![]];
    assert_eq!(assign_lanes(&links, &vec![1, 0, 2]), vec![0, 0, 1]);
}

#[test]
fn earlier_tip_emitted_first_with_equal_timestamps() {
    let commits = vec![rec("x", &[], 7), rec("y", &[], 7), rec("z", &["y"], 7)];
    let links = links_of(&commits);
    let order = visitation_order(&links, &vec![7, 7, 7]);
    assert_eq!(order, vec![0, 2, 1]);
}
