//! The snapshot: a flat node and edge form of the graph, ready to be
//! written out, with dense node identifiers.
use vstd::prelude::*;
use crate::graph::{EdgeView, edges_valid};

verus! {

/// One node of a snapshot as a value: its identifier and its path.
pub type NodeRow = (int, Seq<char>);

/// A snapshot as a value: its nodes and its edges.
pub type SnapshotView = (Seq<NodeRow>, Seq<EdgeView>);

/// One node of a snapshot.
pub struct SnapshotNode {
    pub id: usize,
    pub path: String,
}

/// One edge of a snapshot: its endpoints, as node identifiers of the
/// snapshot, lower first, and the identifiers that contributed to it.
pub struct SnapshotEdge {
    pub source: usize,
    pub target: usize,
    pub change_ids: Vec<u64>,
    pub sub_change_ids: Vec<String>,
}

/// The whole graph as nodes and edges.
pub struct Snapshot {
    pub nodes: Vec<SnapshotNode>,
    pub edges: Vec<SnapshotEdge>,
}

impl View for SnapshotNode {
    type V = NodeRow;

    open spec fn view(&self) -> NodeRow {
        (self.id as int, self.path@)
    }
}

impl View for SnapshotEdge {
    type V = EdgeView;

    open spec fn view(&self) -> EdgeView {
        (
            self.source as int,
            self.target as int,
            self.change_ids@,
            self.sub_change_ids.deep_view(),
        )
    }
}

impl View for Snapshot {
    type V = SnapshotView;

    open spec fn view(&self) -> SnapshotView {
        (
            self.nodes@.map_values(|n: SnapshotNode| n@),
            self.edges@.map_values(|e: SnapshotEdge| e@),
        )
    }
}

/// Each node's identifier is its position.
pub open spec fn ids_dense(nodes: Seq<NodeRow>) -> bool {
    forall|i: int| 0 <= i < nodes.len() ==> (#[trigger] nodes[i]).0 == i
}

/// No two nodes share a path.
pub open spec fn paths_distinct(nodes: Seq<NodeRow>) -> bool {
    forall|i: int, j: int|
        0 <= i < nodes.len() && 0 <= j < nodes.len() && i != j ==> (#[trigger] nodes[i]).1 != (
        #[trigger] nodes[j]).1
}

/// A snapshot that describes a graph: dense identifiers, distinct paths, and
/// valid edges between its nodes.
pub open spec fn snapshot_valid(s: SnapshotView) -> bool {
    &&& ids_dense(s.0)
    &&& paths_distinct(s.0)
    &&& edges_valid(s.1, s.0.len())
}

/// Why a snapshot describes no graph.
pub enum DecodeError {
    /// A node's identifier is not its position.
    NodeIdMismatch,
    /// Two nodes share a path.
    DuplicatePath,
    /// An edge joins a node to itself or to a missing node, lists its
    /// endpoints higher first, repeats another edge's endpoints, or lists an
    /// identifier twice.
    InvalidEdge,
}

impl Snapshot {
    /// A snapshot with no nodes and no edges.
    pub fn empty() -> (r: Snapshot)
        ensures
            r@.0.len() == 0,
            r@.1.len() == 0,
    {
        Snapshot { nodes: Vec::new(), edges: Vec::new() }
    }
}

} // verus!
