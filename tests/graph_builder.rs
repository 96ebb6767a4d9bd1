use cochange::builder::{ApplyError, GraphBuilder};
use cochange::edge::ChangeEdge;
use cochange::graph::CoChangeGraph;
use cochange::registry::{ChangeSetEdit, FileRegistry};
use cochange::snapshot::{DecodeError, Snapshot, SnapshotEdge, SnapshotNode};

fn edits(paths: &[&str]) -> Vec<ChangeSetEdit> {
    paths.iter().map(|p| ChangeSetEdit::new(p.to_string())).collect()
}

fn id_of(b: &GraphBuilder, path: &str) -> usize {
    b.lookup(&path.to_string()).expect("path is known")
}

#[test]
fn two_change_sets_build_weights() {
    let mut b = GraphBuilder::new();
    b.apply(1, Some("first".to_string()), &edits(&["a.txt", "b.txt"]));
    assert_eq!(b.node_count(), 2);
    assert_eq!(b.edge_count(), 1);
    let (a, bb) = (id_of(&b, "a.txt"), id_of(&b, "b.txt"));
    assert_eq!(b.edge_weight(a, bb), 1);

    b.apply(2, Some("second".to_string()), &edits(&["a.txt", "b.txt", "c.txt"]));
    let c = id_of(&b, "c.txt");
    assert_eq!(b.node_count(), 3);
    assert_eq!(b.edge_count(), 3);
    assert_eq!(b.edge_weight(a, bb), 2);
    assert_eq!(b.edge_weight(bb, a), 2);
    assert_eq!(b.edge_weight(a, c), 1);
    assert_eq!(b.edge_weight(bb, c), 1);
}

#[test]
fn unseen_former_path_merges_into_current_holder() {
    let mut b = GraphBuilder::new();
    b.apply(1, None, &edits(&["a.txt", "b.txt"]));
    b.apply(2, None, &edits(&["a.txt", "b.txt", "c.txt"]));
    let before = id_of(&b, "b.txt");
    let ids = b.apply(
        3,
        None,
        &vec![ChangeSetEdit::renamed("b.txt".to_string(), "old_b.txt".to_string())],
    );
    assert_eq!(ids, vec![before]);
    assert_eq!(b.node_count(), 3);
    assert_eq!(b.lookup(&"old_b.txt".to_string()), None);
    let snap = b.export();
    let named_b = snap.nodes.iter().filter(|n| n.path == "b.txt").count();
    assert_eq!(named_b, 1);
}

#[test]
fn single_file_change_set_makes_no_edge() {
    let mut b = GraphBuilder::new();
    let ids = b.apply(7, Some("only".to_string()), &edits(&["solo.rs"]));
    assert_eq!(ids, vec![0]);
    assert_eq!(b.node_count(), 1);
    assert_eq!(b.edge_count(), 0);
}

#[test]
fn empty_run_exports_empty_snapshot() {
    let b = GraphBuilder::new();
    let snap = b.export();
    assert!(snap.nodes.is_empty());
    assert!(snap.edges.is_empty());
}

#[test]
fn empty_change_set_changes_nothing() {
    let mut b = GraphBuilder::new();
    let ids = b.apply(1, None, &Vec::new());
    assert!(ids.is_empty());
    assert_eq!(b.node_count(), 0);
    assert_eq!(b.edge_count(), 0);
}

#[test]
fn rename_keeps_identity_and_history() {
    let mut b = GraphBuilder::new();
    b.apply(1, None, &edits(&["src/old.rs", "lib.rs"]));
    let old_id = id_of(&b, "src/old.rs");
    let ids = b.apply(
        2,
        None,
        &vec![
            ChangeSetEdit::renamed("src/new.rs".to_string(), "src/old.rs".to_string()),
            ChangeSetEdit::new("lib.rs".to_string()),
        ],
    );
    assert_eq!(ids[0], old_id);
    assert_eq!(b.node_count(), 2);
    let node = b.registry().node(old_id);
    assert_eq!(node.current_name(), "src/new.rs");
    assert_eq!(node.previous_names(), &vec!["src/old.rs".to_string()]);
    assert_eq!(id_of(&b, "src/new.rs"), old_id);
    assert_eq!(id_of(&b, "src/old.rs"), old_id);
    let lib = id_of(&b, "lib.rs");
    assert_eq!(b.edge_weight(old_id, lib), 2);
}

#[test]
fn rename_chain_keeps_one_identity() {
    let mut b = GraphBuilder::new();
    b.apply(1, None, &edits(&["a"]));
    b.apply(2, None, &vec![ChangeSetEdit::renamed("b".to_string(), "a".to_string())]);
    b.apply(3, None, &vec![ChangeSetEdit::renamed("c".to_string(), "b".to_string())]);
    assert_eq!(b.node_count(), 1);
    let node = b.registry().node(0);
    assert_eq!(node.current_name(), "c");
    assert_eq!(node.previous_names(), &vec!["a".to_string(), "b".to_string()]);
}

#[test]
fn rename_onto_path_held_by_other_node_merges_there() {
    let mut b = GraphBuilder::new();
    b.apply(1, None, &edits(&["x", "y"]));
    let ids = b.apply(2, None, &vec![ChangeSetEdit::renamed("y".to_string(), "x".to_string())]);
    assert_eq!(ids, vec![1]);
    assert_eq!(b.registry().node(0).current_name(), "x");
    assert_eq!(b.registry().node(1).current_name(), "y");
}

#[test]
fn repeated_file_in_change_set_makes_no_self_edge() {
    let mut b = GraphBuilder::new();
    b.apply(1, None, &edits(&["a", "a", "b"]));
    assert_eq!(b.node_count(), 2);
    assert_eq!(b.edge_count(), 1);
    assert_eq!(b.edge_weight(0, 0), 0);
    assert_eq!(b.edge_weight(0, 1), 1);
}

#[test]
fn weight_counts_distinct_change_ids() {
    let mut g = CoChangeGraph::new();
    g.get_or_create_node(1);
    assert_eq!(g.node_count(), 2);
    g.reinforce_edge(0, 1, 5, None);
    assert_eq!(g.edge_weight(0, 1), 1);
    g.reinforce_edge(1, 0, 5, Some("c1".to_string()));
    assert_eq!(g.edge_weight(0, 1), 1);
    g.reinforce_edge(0, 1, 6, Some("c1".to_string()));
    assert_eq!(g.edge_weight(0, 1), 2);
    assert_eq!(g.edge_count(), 1);
    let (lo, hi, data) = g.edge(0);
    assert_eq!((lo, hi), (0, 1));
    assert_eq!(data.pr_numbers(), &vec![5, 6]);
    assert_eq!(data.commit_numbers(), &vec!["c1".to_string()]);
}

#[test]
fn self_pair_changes_nothing() {
    let mut g = CoChangeGraph::new();
    g.get_or_create_node(2);
    g.reinforce_edge(1, 1, 9, Some("m".to_string()));
    assert_eq!(g.edge_count(), 0);
    assert_eq!(g.edge_weight(1, 1), 0);
}

#[test]
fn get_or_create_node_is_idempotent() {
    let mut g = CoChangeGraph::new();
    g.get_or_create_node(3);
    g.get_or_create_node(3);
    g.get_or_create_node(1);
    assert_eq!(g.node_count(), 4);
}

#[test]
fn edges_stay_simple() {
    let mut g = CoChangeGraph::new();
    g.get_or_create_node(2);
    for c in 0..4u64 {
        g.reinforce_edge(0, 2, c, None);
        g.reinforce_edge(2, 0, c + 10, None);
    }
    assert_eq!(g.edge_count(), 1);
    assert!(g.contains_edge(0, 2));
    assert!(!g.contains_edge(0, 1));
    assert_eq!(g.edge_weight(2, 0), 8);
}

#[test]
fn export_round_trip() {
    let mut b = GraphBuilder::new();
    b.apply(1, Some("m1".to_string()), &edits(&["a", "b", "c"]));
    b.apply(2, Some("m2".to_string()), &edits(&["b", "c"]));
    b.apply(3, None, &vec![ChangeSetEdit::renamed("d".to_string(), "a".to_string())]);
    let first = b.export();
    let decoded = GraphBuilder::decode(&first).ok().expect("export decodes");
    let second = decoded.export();
    assert_eq!(first.nodes.len(), second.nodes.len());
    for (x, y) in first.nodes.iter().zip(second.nodes.iter()) {
        assert_eq!(x.id, y.id);
        assert_eq!(x.path, y.path);
    }
    assert_eq!(first.edges.len(), second.edges.len());
    for (x, y) in first.edges.iter().zip(second.edges.iter()) {
        assert_eq!((x.source, x.target), (y.source, y.target));
        assert_eq!(x.change_ids, y.change_ids);
        assert_eq!(x.sub_change_ids, y.sub_change_ids);
    }
    assert_eq!(first.nodes[0].path, "d");
    assert_eq!(first.edges[2].change_ids, vec![1, 2]);
    assert_eq!(first.edges[2].sub_change_ids, vec!["m1".to_string(), "m2".to_string()]);
}

fn node(id: usize, path: &str) -> SnapshotNode {
    SnapshotNode { id, path: path.to_string() }
}

fn edge(source: usize, target: usize, ids: Vec<u64>) -> SnapshotEdge {
    SnapshotEdge { source, target, change_ids: ids, sub_change_ids: Vec::new() }
}

#[test]
fn decode_rejects_node_id_mismatch() {
    let s = Snapshot { nodes: vec![node(1, "a")], edges: Vec::new() };
    assert!(matches!(GraphBuilder::decode(&s), Err(DecodeError::NodeIdMismatch)));
}

#[test]
fn decode_rejects_duplicate_path() {
    let s = Snapshot { nodes: vec![node(0, "a"), node(1, "a")], edges: Vec::new() };
    assert!(matches!(GraphBuilder::decode(&s), Err(DecodeError::DuplicatePath)));
}

#[test]
fn decode_rejects_invalid_edges() {
    let nodes = || vec![node(0, "a"), node(1, "b")];
    let cases = vec![
        vec![edge(1, 0, vec![1])],
        vec![edge(0, 0, vec![1])],
        vec![edge(0, 2, vec![1])],
        vec![edge(0, 1, vec![1]), edge(0, 1, vec![2])],
        vec![edge(0, 1, vec![3, 3])],
        vec![SnapshotEdge {
            source: 0,
            target: 1,
            change_ids: vec![1],
            sub_change_ids: vec!["m".to_string(), "m".to_string()],
        }],
    ];
    for edges in cases {
        let s = Snapshot { nodes: nodes(), edges };
        assert!(matches!(GraphBuilder::decode(&s), Err(DecodeError::InvalidEdge)));
    }
}

#[test]
fn decode_accepts_valid_snapshot() {
    let s = Snapshot {
        nodes: vec![node(0, "a"), node(1, "b"), node(2, "c")],
        edges: vec![edge(0, 2, vec![4, 5])],
    };
    let b = GraphBuilder::decode(&s).ok().expect("valid snapshot");
    assert_eq!(b.node_count(), 3);
    assert_eq!(b.edge_weight(2, 0), 2);
    assert_eq!(b.lookup(&"c".to_string()), Some(2));
    let empty = GraphBuilder::decode(&Snapshot::empty()).ok().expect("empty snapshot");
    assert_eq!(empty.node_count(), 0);
}

#[test]
fn skipped_change_set_changes_nothing() {
    let mut b = GraphBuilder::new();
    b.apply(1, None, &edits(&["a", "b"]));
    let r = b.apply_fetched(2, None, None);
    assert!(matches!(r, Err(ApplyError::Skipped { change_id: 2 })));
    assert_eq!(b.node_count(), 2);
    assert_eq!(b.edge_weight(0, 1), 1);
    let r = b.apply_fetched(3, None, Some(edits(&["a", "b"])));
    assert_eq!(r.ok(), Some(vec![0, 1]));
    assert_eq!(b.edge_weight(0, 1), 2);
}

#[test]
fn change_edge_sets_stay_deduplicated() {
    let mut e = ChangeEdge::new(1, "fix".to_string());
    e.add_pr(1);
    e.add_pr(2);
    e.add_commit("fix".to_string());
    e.add_commit("feat".to_string());
    assert_eq!(e.pr_numbers(), &vec![1, 2]);
    assert_eq!(e.commit_numbers(), &vec!["fix".to_string(), "feat".to_string()]);
    assert_eq!(e.weight(), 2);
    assert!(ChangeEdge::from_lists(vec![1, 2], vec!["x".to_string()]).is_some());
    assert!(ChangeEdge::from_lists(vec![2, 2], Vec::new()).is_none());
    assert_eq!(ChangeEdge::with_change(4).weight(), 1);
}

#[test]
fn registry_resolution_table() {
    let mut r = FileRegistry::new();
    assert_eq!(r.resolve_or_create(&ChangeSetEdit::new("p".to_string())), 0);
    assert_eq!(r.resolve_or_create(&ChangeSetEdit::new("p".to_string())), 0);
    assert_eq!(r.resolve_or_create(&ChangeSetEdit::renamed("q".to_string(), "zz".to_string())), 1);
    assert_eq!(r.resolve_or_create(&ChangeSetEdit::renamed("s".to_string(), "p".to_string())), 0);
    assert_eq!(r.len(), 2);
    assert_eq!(r.lookup(&"p".to_string()), Some(0));
    assert_eq!(r.lookup(&"s".to_string()), Some(0));
    assert_eq!(r.lookup(&"zz".to_string()), None);
    assert_eq!(r.node(0).node_index(), 0);
}

#[test]
fn rename_onto_former_path_of_other_node_merges_there() {
    let mut b = GraphBuilder::new();
    b.apply(1, None, &edits(&["c", "q"]));
    b.apply(2, None, &vec![ChangeSetEdit::renamed("d".to_string(), "c".to_string())]);
    let x = id_of(&b, "d");
    let y = id_of(&b, "q");
    assert_ne!(x, y);
    let ids = b.apply(3, None, &vec![ChangeSetEdit::renamed("c".to_string(), "q".to_string())]);
    assert_eq!(ids, vec![x]);
    assert_eq!(id_of(&b, "c"), x);
    assert_eq!(b.registry().node(x).current_name(), "d");
    assert_eq!(b.registry().node(x).previous_names(), &vec!["c".to_string()]);
    assert_eq!(b.registry().node(y).current_name(), "q");
    assert!(b.registry().node(y).previous_names().is_empty());
    assert_eq!(b.node_count(), 2);
}

#[test]
fn rename_back_keeps_history_append_only() {
    let mut b = GraphBuilder::new();
    b.apply(1, None, &edits(&["a"]));
    b.apply(2, None, &vec![ChangeSetEdit::renamed("b".to_string(), "a".to_string())]);
    b.apply(3, None, &vec![ChangeSetEdit::renamed("a".to_string(), "b".to_string())]);
    let node = b.registry().node(0);
    assert_eq!(node.current_name(), "a");
    assert_eq!(node.previous_names(), &vec!["a".to_string(), "b".to_string()]);
    assert_eq!(id_of(&b, "a"), 0);
    assert_eq!(id_of(&b, "b"), 0);
}

#[test]
fn grow_to_keeps_edges() {
    let mut g = CoChangeGraph::new();
    g.grow_to(2);
    g.reinforce_edge(0, 1, 1, None);
    g.grow_to(5);
    assert_eq!(g.node_count(), 5);
    assert_eq!(g.edge_weight(1, 0), 1);
}
