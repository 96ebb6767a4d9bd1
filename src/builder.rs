//! The builder context of one run: the registry and the graph, updated one
//! change-set at a time, exported to a snapshot and rebuilt from one.
use vstd::prelude::*;
use crate::edge::{copy_strings, copy_u64s, ChangeEdge};
use crate::graph::{
    edges_valid, reinforced, sub_view, weight_of, CoChangeGraph, EdgeView,
};
use crate::registry::{
    current_paths_unique, empty_registry, lemma_wf_paths_unique, prev_view, registry_wf, resolve_spec,
    ChangeSetEdit, FileRegistry, RegistryView,
};
use crate::snapshot::{
    ids_dense, paths_distinct, snapshot_valid, DecodeError, Snapshot, SnapshotEdge,
    SnapshotNode, SnapshotView,
};

verus! {

/// An edit as a value: the path edited and the former path it claims.
pub open spec fn edit_view(e: ChangeSetEdit) -> (Seq<char>, Option<Seq<char>>) {
    (e.path@, prev_view(e.previous_path))
}

/// The edits of a change-set as values.
pub open spec fn edits_view(edits: Seq<ChangeSetEdit>) -> Seq<(Seq<char>, Option<Seq<char>>)> {
    edits.map_values(|e: ChangeSetEdit| edit_view(e))
}

/// Resolves `edits` in order, starting from registry `v`: the registry after
/// the last one, and the node identity of each.
pub open spec fn resolve_all(v: RegistryView, edits: Seq<(Seq<char>, Option<Seq<char>>)>) -> (
    RegistryView,
    Seq<nat>,
)
    decreases edits.len(),
{
    if edits.len() == 0 {
        (v, Seq::empty())
    } else {
        let (w, ids) = resolve_all(v, edits.drop_last());
        let (w2, id) = resolve_spec(w, edits.last().0, edits.last().1);
        (w2, ids.push(id))
    }
}

/// The edges after node `x` co-changed with each of `ids[0..k]`, in order.
pub open spec fn reinforce_with(
    es: Seq<EdgeView>,
    ids: Seq<nat>,
    k: int,
    x: nat,
    change_id: u64,
    sub: Option<Seq<char>>,
) -> Seq<EdgeView>
    decreases k,
{
    if k <= 0 {
        es
    } else {
        reinforced(
            reinforce_with(es, ids, k - 1, x, change_id, sub),
            ids[k - 1] as int,
            x as int,
            change_id,
            sub,
        )
    }
}

/// The edges after every pair of distinct positions among `ids[0..n]`
/// co-changed: for each later position in turn, with each earlier one.
pub open spec fn reinforce_pairs(
    es: Seq<EdgeView>,
    ids: Seq<nat>,
    n: int,
    change_id: u64,
    sub: Option<Seq<char>>,
) -> Seq<EdgeView>
    decreases n,
{
    if n <= 0 {
        es
    } else {
        reinforce_with(
            reinforce_pairs(es, ids, n - 1, change_id, sub),
            ids,
            n - 1,
            ids[n - 1],
            change_id,
            sub,
        )
    }
}

/// Why a change-set was not applied.
pub enum ApplyError {
    /// Its file list could not be had; nothing of it was applied.
    Skipped { change_id: u64 },
}

/// A copy of an optional sub-change identifier.
fn copy_sub(o: &Option<String>) -> (r: Option<String>)
    ensures
        sub_view(r) == sub_view(*o),
{
    match o {
        Some(s) => Some(s.clone()),
        None => None,
    }
}

/// The registry and the graph of one run.
pub struct GraphBuilder {
    registry: FileRegistry,
    graph: CoChangeGraph,
}

impl GraphBuilder {
    /// The registry, as a value.
    pub closed spec fn files(&self) -> RegistryView {
        self.registry@
    }

    /// The edges, as values, in order of creation.
    pub closed spec fn edges(&self) -> Seq<EdgeView> {
        self.graph.edges()
    }

    /// The registry and the graph are well formed, with one graph node for
    /// each registry node.
    pub closed spec fn wf(&self) -> bool {
        &&& self.registry.wf()
        &&& self.graph.wf()
        &&& self.graph.nodes() == self.registry@.0.len()
    }

    /// The snapshot that `export` gives, as a value: each node with its
    /// identity and its current path, and the edges.
    pub open spec fn export_view(&self) -> SnapshotView {
        (Seq::new(self.files().0.len(), |i: int| (i, self.files().0[i].0)), self.edges())
    }

    /// What a well-formed builder always satisfies.
    pub proof fn lemma_wf(&self)
        requires
            self.wf(),
        ensures
            registry_wf(self.files()),
            current_paths_unique(self.files()),
            edges_valid(self.edges(), self.files().0.len()),
    {
        self.registry.lemma_wf();
        self.graph.lemma_wf();
        lemma_wf_paths_unique(self.files());
    }

    /// An empty builder: no files, no edges.
    pub fn new() -> (r: GraphBuilder)
        ensures
            r.wf(),
            r.files() == empty_registry(),
            r.edges() == Seq::<EdgeView>::empty(),
    {
        GraphBuilder { registry: FileRegistry::new(), graph: CoChangeGraph::new() }
    }

    /// The registry.
    pub fn registry(&self) -> (r: &FileRegistry)
        ensures
            r@ == self.files(),
            self.wf() ==> r.wf(),
    {
        &self.registry
    }

    /// The graph.
    pub fn graph(&self) -> (r: &CoChangeGraph)
        ensures
            r.edges() == self.edges(),
            self.wf() ==> r.wf() && r.nodes() == self.files().0.len(),
    {
        &self.graph
    }

    /// The number of nodes.
    pub fn node_count(&self) -> (r: usize)
        ensures
            r == self.files().0.len(),
    {
        self.registry.len()
    }

    /// The number of edges.
    pub fn edge_count(&self) -> (r: usize)
        ensures
            r == self.edges().len(),
    {
        self.graph.edge_count()
    }

    /// The weight of the edge between nodes `a` and `b`, or 0 where there is
    /// none.
    pub fn edge_weight(&self, a: usize, b: usize) -> (r: usize)
        requires
            self.wf(),
        ensures
            r == weight_of(self.edges(), a as int, b as int),
    {
        self.graph.edge_weight(a, b)
    }

    /// The node that `path` resolves to, if any.
    pub fn lookup(&self, path: &String) -> (r: Option<usize>)
        requires
            self.wf(),
        ensures
            r == (if self.files().1.contains_key(path@) {
                Some(self.files().1[path@] as usize)
            } else {
                None::<usize>
            }),
    {
        self.registry.lookup(path)
    }

    /// Applies one change-set, `change_id`, within sub-change `sub_change_id`
    /// if there is one: resolves each edit to its node in order, then
    /// reinforces the edge of every pair of distinct positions in the edit
    /// list. Returns the node of each edit.
    pub fn apply(
        &mut self,
        change_id: u64,
        sub_change_id: Option<String>,
        edits: &Vec<ChangeSetEdit>,
    ) -> (ids: Vec<usize>)
        requires
            old(self).wf(),
        ensures
            final(self).wf(),
            ({
                let (v, rids) = resolve_all(old(self).files(), edits_view(edits@));
                &&& final(self).files() == v
                &&& ids@.map_values(|x: usize| x as nat) == rids
                &&& final(self).edges() == reinforce_pairs(
                    old(self).edges(),
                    rids,
                    rids.len() as int,
                    change_id,
                    sub_view(sub_change_id),
                )
            }),
    {
        let ghost v0 = self.registry@;
        let ghost es0 = self.graph.edges();
        let ghost ev = edits_view(edits@);
        let mut ids: Vec<usize> = Vec::new();
        let mut k: usize = 0;
        assert(ev.subrange(0, 0) =~= Seq::<(Seq<char>, Option<Seq<char>>)>::empty());
        assert(ids@.map_values(|x: usize| x as nat) =~= Seq::<nat>::empty());
        while k < edits.len()
            invariant
                self.wf(),
                k <= edits.len(),
                ev == edits_view(edits@),
                self.graph.edges() == es0,
                (self.registry@, ids@.map_values(|x: usize| x as nat)) == resolve_all(
                    v0,
                    ev.subrange(0, k as int),
                ),
                ids.len() == k,
                forall|i: int| 0 <= i < ids.len() ==> ids@[i] < self.registry@.0.len(),
            decreases edits.len() - k,
        {
            let id = self.registry.resolve_or_create(&edits[k]);
            self.graph.grow_to(self.registry.len());
            let ghost old_ids = ids@.map_values(|x: usize| x as nat);
            ids.push(id);
            k += 1;
            proof {
                assert(ev.subrange(0, k as int).drop_last() =~= ev.subrange(0, k - 1));
                assert(ev.subrange(0, k as int).last() == edit_view(edits@[k - 1]));
                assert(ids@.map_values(|x: usize| x as nat) =~= old_ids.push(id as nat));
            }
        }
        assert(ev.subrange(0, edits.len() as int) =~= ev);
        let ghost rids = ids@.map_values(|x: usize| x as nat);
        let ghost subv = sub_view(sub_change_id);
        let n = ids.len();
        let mut j: usize = 0;
        while j < n
            invariant
                self.wf(),
                n == ids.len(),
                j <= n,
                rids == ids@.map_values(|x: usize| x as nat),
                subv == sub_view(sub_change_id),
                forall|i: int| 0 <= i < ids.len() ==> ids@[i] < self.graph.nodes(),
                self.registry@ == resolve_all(v0, ev).0,
                self.graph.edges() == reinforce_pairs(es0, rids, j as int, change_id, subv),
            decreases n - j,
        {
            let mut i: usize = 0;
            while i < j
                invariant
                    self.wf(),
                    n == ids.len(),
                    i <= j < n,
                    rids == ids@.map_values(|x: usize| x as nat),
                    subv == sub_view(sub_change_id),
                    forall|t: int| 0 <= t < ids.len() ==> ids@[t] < self.graph.nodes(),
                    self.registry@ == resolve_all(v0, ev).0,
                    self.graph.edges() == reinforce_with(
                        reinforce_pairs(es0, rids, j as int, change_id, subv),
                        rids,
                        i as int,
                        rids[j as int],
                        change_id,
                        subv,
                    ),
                decreases j - i,
            {
                let sub = copy_sub(&sub_change_id);
                let ghost prior = self.graph.edges();
                self.graph.reinforce_edge(ids[i], ids[j], change_id, sub);
                proof {
                    assert(rids[i as int] == ids@[i as int] as nat);
                    assert(rids[j as int] == ids@[j as int] as nat);
                    assert(self.graph.edges() == reinforced(
                        prior,
                        rids[i as int] as int,
                        rids[j as int] as int,
                        change_id,
                        subv,
                    ));
                }
                i += 1;
            }
            j += 1;
        }
        ids
    }

    /// Applies a change-set whose file list was fetched, or skips it whole
    /// where it could not be had (`None`): nothing of it is applied, and the
    /// skip is reported.
    pub fn apply_fetched(
        &mut self,
        change_id: u64,
        sub_change_id: Option<String>,
        fetched: Option<Vec<ChangeSetEdit>>,
    ) -> (r: Result<Vec<usize>, ApplyError>)
        requires
            old(self).wf(),
        ensures
            final(self).wf(),
            fetched is None ==> r == Err::<Vec<usize>, ApplyError>(
                ApplyError::Skipped { change_id },
            ) && final(self).files() == old(self).files() && final(self).edges() == old(
                self,
            ).edges(),
            fetched matches Some(edits) ==> r is Ok && ({
                let (v, rids) = resolve_all(old(self).files(), edits_view(edits@));
                &&& final(self).files() == v
                &&& r->Ok_0@.map_values(|x: usize| x as nat) == rids
                &&& final(self).edges() == reinforce_pairs(
                    old(self).edges(),
                    rids,
                    rids.len() as int,
                    change_id,
                    sub_view(sub_change_id),
                )
            }),
    {
        match fetched {
            Some(edits) => Ok(self.apply(change_id, sub_change_id, &edits)),
            None => Err(ApplyError::Skipped { change_id }),
        }
    }
}

impl GraphBuilder {
    /// The snapshot of the graph: every node once, with its identity and its
    /// current path, and every edge once, in order of creation. The builder
    /// is left as it is.
    pub fn export(&self) -> (r: Snapshot)
        requires
            self.wf(),
        ensures
            r@ == self.export_view(),
    {
        let ghost ex = self.export_view();
        let n = self.registry.len();
        let mut nodes: Vec<SnapshotNode> = Vec::new();
        let mut i: usize = 0;
        while i < n
            invariant
                self.wf(),
                ex == self.export_view(),
                n == self.files().0.len(),
                i <= n,
                nodes@.map_values(|x: SnapshotNode| x@) == ex.0.subrange(0, i as int),
            decreases n - i,
        {
            let path = self.registry.node(i).current_name().clone();
            let ghost before = nodes@.map_values(|x: SnapshotNode| x@);
            nodes.push(SnapshotNode { id: i, path });
            assert(nodes@.map_values(|x: SnapshotNode| x@) =~= before.push(ex.0[i as int]));
            i += 1;
            assert(ex.0.subrange(0, i as int) =~= ex.0.subrange(0, i - 1).push(ex.0[i - 1]));
        }
        let m = self.graph.edge_count();
        let mut edges: Vec<SnapshotEdge> = Vec::new();
        let mut k: usize = 0;
        while k < m
            invariant
                self.wf(),
                ex == self.export_view(),
                m == self.edges().len(),
                k <= m,
                edges@.map_values(|x: SnapshotEdge| x@) == ex.1.subrange(0, k as int),
            decreases m - k,
        {
            let (lo, hi, data) = self.graph.edge(k);
            let e = SnapshotEdge {
                source: lo,
                target: hi,
                change_ids: copy_u64s(data.pr_numbers()),
                sub_change_ids: copy_strings(data.commit_numbers()),
            };
            let ghost before = edges@.map_values(|x: SnapshotEdge| x@);
            edges.push(e);
            assert(edges@.map_values(|x: SnapshotEdge| x@) =~= before.push(ex.1[k as int]));
            k += 1;
            assert(ex.1.subrange(0, k as int) =~= ex.1.subrange(0, k - 1).push(ex.1[k - 1]));
        }
        let r = Snapshot { nodes, edges };
        assert(r@.0 =~= ex.0.subrange(0, n as int));
        assert(r@.1 =~= ex.1.subrange(0, m as int));
        assert(r@.0 =~= ex.0);
        assert(r@.1 =~= ex.1);
        r
    }

    /// Rebuilds a graph from a snapshot. The snapshot is accepted exactly
    /// where it describes a graph; the graph then has a node for each node of
    /// the snapshot, with its path and an empty history, and the snapshot's
    /// edges, so that exporting it gives the snapshot back.
    pub fn decode(s: &Snapshot) -> (r: Result<GraphBuilder, DecodeError>)
        ensures
            r is Ok <==> snapshot_valid(s@),
            r matches Ok(b) ==> b.wf() && b.export_view() == s@,
            (r matches Err(DecodeError::NodeIdMismatch)) <==> !ids_dense(s@.0),
            (r matches Err(DecodeError::DuplicatePath)) <==> ids_dense(s@.0) && !paths_distinct(
                s@.0,
            ),
            (r matches Err(DecodeError::InvalidEdge)) <==> ids_dense(s@.0) && paths_distinct(s@.0)
                && !edges_valid(s@.1, s@.0.len()),
    {
        let ghost sv = s@;
        let n = s.nodes.len();
        let mut i: usize = 0;
        while i < n
            invariant
                sv == s@,
                n == sv.0.len(),
                i <= n,
                forall|k: int| 0 <= k < i ==> (#[trigger] sv.0[k]).0 == k,
            decreases n - i,
        {
            if s.nodes[i].id != i {
                assert(sv.0[i as int].0 != i);
                return Err(DecodeError::NodeIdMismatch);
            }
            i += 1;
        }
        assert(ids_dense(sv.0));
        let mut registry = FileRegistry::new();
        let mut i: usize = 0;
        while i < n
            invariant
                sv == s@,
                n == sv.0.len(),
                i <= n,
                ids_dense(sv.0),
                registry.wf(),
                registry@.0 == Seq::new(i as nat, |k: int| (sv.0[k].1, Seq::<Seq<char>>::empty())),
                forall|k: int|
                    0 <= k < i ==> registry@.1.contains_key(#[trigger] sv.0[k].1)
                        && registry@.1[sv.0[k].1] == k,
                forall|p: Seq<char>| #[trigger]
                    registry@.1.contains_key(p) ==> exists|k: int| 0 <= k < i && sv.0[k].1 == p,
                paths_distinct(sv.0.subrange(0, i as int)),
            decreases n - i,
        {
            let ghost before = registry@;
            let ghost p = sv.0[i as int].1;
            let edit = ChangeSetEdit::new(s.nodes[i].path.clone());
            let id = registry.resolve_or_create(&edit);
            if id != i {
                proof {
                    assert(before.1.contains_key(p));
                    let k = choose|k: int| 0 <= k < i && sv.0[k].1 == p;
                    assert(!paths_distinct(sv.0)) by {
                        assert(sv.0[k].1 == sv.0[i as int].1);
                    }
                }
                return Err(DecodeError::DuplicatePath);
            }
            proof {
                assert(!before.1.contains_key(p));
                assert(registry@.0 =~= Seq::new(
                    (i + 1) as nat,
                    |k: int| (sv.0[k].1, Seq::<Seq<char>>::empty()),
                ));
                assert forall|p2: Seq<char>| #[trigger] registry@.1.contains_key(p2) implies exists|
                    k: int,
                | 0 <= k < i + 1 && sv.0[k].1 == p2 by {
                    if p2 != p {
                        assert(before.1.contains_key(p2));
                    }
                }
                let sub = sv.0.subrange(0, i + 1);
                assert forall|a: int, b: int|
                    0 <= a < sub.len() && 0 <= b < sub.len() && a != b implies (
                    #[trigger] sub[a]).1 != (#[trigger] sub[b]).1 by {
                    if a < i && b < i {
                        assert(sv.0.subrange(0, i as int)[a] == sub[a]);
                        assert(sv.0.subrange(0, i as int)[b] == sub[b]);
                    } else if a == i {
                        assert(before.1.contains_key(sv.0[b].1));
                    } else {
                        assert(before.1.contains_key(sv.0[a].1));
                    }
                }
            }
            i += 1;
        }
        assert(sv.0.subrange(0, n as int) =~= sv.0);
        let mut graph = CoChangeGraph::new();
        graph.grow_to(n);
        let m = s.edges.len();
        let mut k: usize = 0;
        while k < m
            invariant
                sv == s@,
                n == sv.0.len(),
                m == sv.1.len(),
                k <= m,
                ids_dense(sv.0),
                paths_distinct(sv.0),
                registry.wf(),
                registry@.0 == Seq::new(n as nat, |k: int| (sv.0[k].1, Seq::<Seq<char>>::empty())),
                graph.wf(),
                graph.nodes() == n,
                graph.edges() == sv.1.subrange(0, k as int),
            decreases m - k,
        {
            let e = &s.edges[k];
            let ghost ek = sv.1[k as int];
            assert(ek == e@);
            if !(e.source < e.target && e.target < n) {
                return Err(DecodeError::InvalidEdge);
            }
            if graph.contains_edge(e.source, e.target) {
                proof {
                    let es = graph.edges();
                    let j = choose|j: int|
                        0 <= j < es.len() && es[j].0 == e.source && es[j].1 == e.target;
                    assert(sv.1[j].0 == sv.1[k as int].0 && sv.1[j].1 == sv.1[k as int].1);
                }
                return Err(DecodeError::InvalidEdge);
            }
            let data = match ChangeEdge::from_lists(
                copy_u64s(&e.change_ids),
                copy_strings(&e.sub_change_ids),
            ) {
                Some(d) => d,
                None => {
                    return Err(DecodeError::InvalidEdge);
                },
            };
            graph.insert_new_edge(e.source, e.target, data);
            k += 1;
            assert(graph.edges() =~= sv.1.subrange(0, k as int));
        }
        assert(sv.1.subrange(0, m as int) =~= sv.1);
        proof {
            graph.lemma_wf();
        }
        let b = GraphBuilder { registry, graph };
        assert(b.export_view().0 =~= sv.0);
        Ok(b)
    }
}

/// Export round trip, first half: the snapshot of any well-formed builder is
/// valid. Combined with the contract of `decode`, which accepts exactly the
/// valid snapshots and returns a builder whose export is the snapshot it was
/// given, this gives that exporting, decoding and exporting again yields the
/// first snapshot.
pub proof fn lemma_export_round_trip(g: &GraphBuilder)
    requires
        g.wf(),
    ensures
        snapshot_valid(g.export_view()),
{
    g.lemma_wf();
}

} // verus!
