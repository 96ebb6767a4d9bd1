//! The co-change graph: file nodes and weighted, undirected, simple edges,
//! with constant-time lookup of the edge between two nodes.
use vstd::prelude::*;
use std::collections::HashMap;
use crate::edge::ChangeEdge;

verus! {

broadcast use vstd::std_specs::hash::group_hash_axioms;

/// One edge as a value: its endpoints, lower first, its change-set
/// identifiers and its sub-change identifiers, each in order of first
/// contribution.
pub type EdgeView = (int, int, Seq<u64>, Seq<Seq<char>>);

/// The two endpoints of an unordered pair, lower first.
pub open spec fn ordered(a: int, b: int) -> (int, int) {
    if a <= b {
        (a, b)
    } else {
        (b, a)
    }
}

/// Where the edge with endpoints `lo` and `hi` stands in `es`, if it does.
pub open spec fn edge_at(es: Seq<EdgeView>, lo: int, hi: int) -> Option<int> {
    if exists|i: int| 0 <= i < es.len() && es[i].0 == lo && es[i].1 == hi {
        Some(choose|i: int| 0 <= i < es.len() && es[i].0 == lo && es[i].1 == hi)
    } else {
        None
    }
}

/// No two edges join the same pair of nodes.
pub open spec fn edges_simple(es: Seq<EdgeView>) -> bool {
    forall|i: int, j: int|
        0 <= i < es.len() && 0 <= j < es.len() && i != j ==> (#[trigger] es[i]).0 != (
        #[trigger] es[j]).0 || es[i].1 != es[j].1
}

/// Every edge joins two distinct nodes among the first `n`, lower first, and
/// neither of its lists holds a value twice.
pub open spec fn edges_valid(es: Seq<EdgeView>, n: nat) -> bool {
    &&& edges_simple(es)
    &&& forall|i: int|
        0 <= i < es.len() ==> {
            &&& 0 <= (#[trigger] es[i]).0 < es[i].1 < n
            &&& es[i].2.no_duplicates()
            &&& es[i].3.no_duplicates()
        }
}

/// The change-sets that contributed to the edge between `a` and `b`.
pub open spec fn change_id_set(es: Seq<EdgeView>, a: int, b: int) -> Set<u64> {
    match edge_at(es, ordered(a, b).0, ordered(a, b).1) {
        Some(i) => es[i].2.to_set(),
        None => Set::empty(),
    }
}

/// The weight of the edge between `a` and `b`: the number of change-sets
/// that contributed to it, or 0 where there is none.
pub open spec fn weight_of(es: Seq<EdgeView>, a: int, b: int) -> nat {
    match edge_at(es, ordered(a, b).0, ordered(a, b).1) {
        Some(i) => es[i].2.len(),
        None => 0,
    }
}

/// `s` with `x` added at its end, unless it holds `x` already.
pub open spec fn add_unique<A>(s: Seq<A>, x: A) -> Seq<A> {
    if s.contains(x) {
        s
    } else {
        s.push(x)
    }
}

/// The sub-change identifiers of `s` with `sub` added, if there is one.
pub open spec fn add_sub(s: Seq<Seq<char>>, sub: Option<Seq<char>>) -> Seq<Seq<char>> {
    match sub {
        Some(x) => add_unique(s, x),
        None => s,
    }
}

/// The edges after the pair `a`, `b` co-changed in change-set `change_id`,
/// within sub-change `sub` if there is one.
pub open spec fn reinforced(
    es: Seq<EdgeView>,
    a: int,
    b: int,
    change_id: u64,
    sub: Option<Seq<char>>,
) -> Seq<EdgeView> {
    let (lo, hi) = ordered(a, b);
    if a == b {
        es
    } else {
        match edge_at(es, lo, hi) {
            Some(i) => es.update(
                i,
                (lo, hi, add_unique(es[i].2, change_id), add_sub(es[i].3, sub)),
            ),
            None => es.push((lo, hi, seq![change_id], add_sub(Seq::empty(), sub))),
        }
    }
}

/// The optional sub-change identifier as a value.
pub open spec fn sub_view(o: Option<String>) -> Option<Seq<char>> {
    match o {
        Some(s) => Some(s@),
        None => None,
    }
}

/// Adding `x` where it is missing adds it to the set of elements.
proof fn lemma_add_unique_to_set<A>(s: Seq<A>, x: A)
    ensures
        add_unique(s, x).to_set() == s.to_set().insert(x),
{
    broadcast use vstd::seq_lib::lemma_seq_contains_after_push;

    if s.contains(x) {
        assert(s.to_set().insert(x) =~= s.to_set());
    } else {
        assert(s.push(x).to_set() =~= s.to_set().insert(x));
    }
}

/// The key of the edge index for the pair `lo`, `hi`.
pub open spec fn pair_key(lo: int, hi: int) -> int {
    lo * 0x1_0000_0000_0000_0000 + hi
}

/// Distinct pairs of 64-bit values have distinct keys.
proof fn lemma_pair_key_injective(a: int, b: int, c: int, d: int)
    requires
        0 <= a < 0x1_0000_0000_0000_0000,
        0 <= b < 0x1_0000_0000_0000_0000,
        0 <= c < 0x1_0000_0000_0000_0000,
        0 <= d < 0x1_0000_0000_0000_0000,
        pair_key(a, b) == pair_key(c, d),
    ensures
        a == c && b == d,
{
    assert(a == c) by (nonlinear_arith)
        requires
            0 <= b < 0x1_0000_0000_0000_0000,
            0 <= d < 0x1_0000_0000_0000_0000,
            a * 0x1_0000_0000_0000_0000 + b == c * 0x1_0000_0000_0000_0000 + d,
    ;
}

/// The key of the edge index for the pair `lo`, `hi`.
fn key_of(lo: usize, hi: usize) -> (r: u128)
    ensures
        r == pair_key(lo as int, hi as int),
{
    let l = lo as u128;
    let h = hi as u128;
    assert(l * 0x1_0000_0000_0000_0000u128 + h <= u128::MAX) by (nonlinear_arith)
        requires
            l < 0x1_0000_0000_0000_0000,
            h < 0x1_0000_0000_0000_0000,
    ;
    l * 0x1_0000_0000_0000_0000u128 + h
}

/// An undirected, simple graph of file nodes, identified by `0..node_count`,
/// and of edges weighted by the change-sets in which their endpoints
/// co-changed.
pub struct CoChangeGraph {
    node_count: usize,
    endpoints: Vec<(usize, usize)>,
    data: Vec<ChangeEdge>,
    index: HashMap<u128, usize>,
}

impl CoChangeGraph {
    /// The number of nodes.
    pub closed spec fn nodes(&self) -> nat {
        self.node_count as nat
    }

    /// The edges, in order of creation.
    pub closed spec fn edges(&self) -> Seq<EdgeView> {
        Seq::new(
            self.data.len() as nat,
            |i: int|
                (
                    self.endpoints@[i].0 as int,
                    self.endpoints@[i].1 as int,
                    self.data@[i].change_ids(),
                    self.data@[i].sub_change_ids(),
                ),
        )
    }

    /// The edges are valid, and the edge index maps the key of each edge's
    /// endpoints to its position, and nothing else.
    pub closed spec fn wf(&self) -> bool {
        &&& self.endpoints.len() == self.data.len()
        &&& edges_valid(self.edges(), self.nodes())
        &&& forall|k: u128| #[trigger]
            self.index@.contains_key(k) ==> {
                &&& self.index@[k] < self.data.len()
                &&& k == pair_key(
                    self.endpoints@[self.index@[k] as int].0 as int,
                    self.endpoints@[self.index@[k] as int].1 as int,
                )
            }
        &&& forall|i: int|
            0 <= i < self.data.len() ==> {
                let k = pair_key(
                    (#[trigger] self.endpoints@[i]).0 as int,
                    self.endpoints@[i].1 as int,
                ) as u128;
                &&& self.index@.contains_key(k)
                &&& self.index@[k] == i
            }
    }

    /// A well-formed graph has valid edges.
    pub proof fn lemma_wf(&self)
        requires
            self.wf(),
        ensures
            edges_valid(self.edges(), self.nodes()),
    {
    }

    /// A graph with no nodes and no edges.
    pub fn new() -> (r: CoChangeGraph)
        ensures
            r.wf(),
            r.nodes() == 0,
            r.edges() == Seq::<EdgeView>::empty(),
    {
        let r = CoChangeGraph {
            node_count: 0,
            endpoints: Vec::new(),
            data: Vec::new(),
            index: HashMap::new(),
        };
        assert(r.edges() =~= Seq::<EdgeView>::empty());
        r
    }

    /// Makes sure node `id` exists: the node count becomes at least `id + 1`.
    /// Calling it again changes nothing.
    pub fn get_or_create_node(&mut self, id: usize)
        requires
            old(self).wf(),
            id < usize::MAX,
        ensures
            final(self).wf(),
            final(self).nodes() == if id < old(self).nodes() {
                old(self).nodes()
            } else {
                id as nat + 1
            },
            final(self).edges() == old(self).edges(),
    {
        if id >= self.node_count {
            self.node_count = id + 1;
            assert(self.edges() =~= old(self).edges());
        }
    }

    /// Makes the node count `count`, which is no lower than before: the nodes
    /// already present are kept, and the edges too.
    pub fn grow_to(&mut self, count: usize)
        requires
            old(self).wf(),
            count >= old(self).nodes(),
        ensures
            final(self).wf(),
            final(self).nodes() == count,
            final(self).edges() == old(self).edges(),
    {
        self.node_count = count;
        assert(self.edges() =~= old(self).edges());
    }

    /// The number of nodes.
    pub fn node_count(&self) -> (r: usize)
        ensures
            r == self.nodes(),
    {
        self.node_count
    }

    /// The number of edges.
    pub fn edge_count(&self) -> (r: usize)
        ensures
            r == self.edges().len(),
    {
        self.data.len()
    }

    /// The edge at position `i`: its endpoints, lower first, and its data.
    pub fn edge(&self, i: usize) -> (r: (usize, usize, &ChangeEdge))
        requires
            self.wf(),
            i < self.edges().len(),
        ensures
            r.0 == self.edges()[i as int].0,
            r.1 == self.edges()[i as int].1,
            r.2.change_ids() == self.edges()[i as int].2,
            r.2.sub_change_ids() == self.edges()[i as int].3,
    {
        (self.endpoints[i].0, self.endpoints[i].1, &self.data[i])
    }

    /// The position of the edge between `lo` and `hi`, if there is one.
    fn find_edge(&self, lo: usize, hi: usize) -> (r: Option<usize>)
        requires
            self.wf(),
        ensures
            r == (match edge_at(self.edges(), lo as int, hi as int) {
                Some(i) => Some(i as usize),
                None => None::<usize>,
            }),
            r matches Some(i) ==> i < self.edges().len() && self.edges()[i as int].0 == lo
                && self.edges()[i as int].1 == hi,
    {
        let key = key_of(lo, hi);
        let es = Ghost(self.edges());
        match self.index.get(&key) {
            Some(pos) => {
                let pos = *pos;
                let ghost p = self.endpoints@[pos as int];
                proof {
                    lemma_pair_key_injective(p.0 as int, p.1 as int, lo as int, hi as int);
                    assert(es@[pos as int].0 == lo && es@[pos as int].1 == hi);
                    let j = choose|j: int|
                        0 <= j < es@.len() && es@[j].0 == lo && es@[j].1 == hi;
                    assert(es@[j].0 == es@[pos as int].0 && es@[j].1 == es@[pos as int].1);
                }
                Some(pos)
            },
            None => {
                proof {
                    if exists|j: int| 0 <= j < es@.len() && es@[j].0 == lo && es@[j].1 == hi {
                        let j = choose|j: int|
                            0 <= j < es@.len() && es@[j].0 == lo && es@[j].1 == hi;
                        assert(self.index@.contains_key(
                            pair_key(self.endpoints@[j].0 as int, self.endpoints@[j].1 as int)
                                as u128,
                        ));
                    }
                }
                None
            },
        }
    }

    /// The weight of the edge between `a` and `b`, in either order: the number
    /// of distinct change-sets that contributed to it, or 0 where there is none.
    pub fn edge_weight(&self, a: usize, b: usize) -> (r: usize)
        requires
            self.wf(),
        ensures
            r == weight_of(self.edges(), a as int, b as int),
    {
        let (lo, hi) = if a <= b {
            (a, b)
        } else {
            (b, a)
        };
        match self.find_edge(lo, hi) {
            Some(i) => self.data[i].weight(),
            None => 0,
        }
    }
}

impl CoChangeGraph {
    /// Records that nodes `a` and `b` co-changed in change-set `change_id`,
    /// within sub-change `sub_change_id` if there is one. The edge between
    /// them is created where there is none, and otherwise gains the
    /// identifiers that it lacks. A pair of a node with itself changes
    /// nothing.
    pub fn reinforce_edge(&mut self, a: usize, b: usize, change_id: u64, sub_change_id: Option<String>)
        requires
            old(self).wf(),
            a < old(self).nodes(),
            b < old(self).nodes(),
        ensures
            final(self).wf(),
            final(self).nodes() == old(self).nodes(),
            final(self).edges() == reinforced(
                old(self).edges(),
                a as int,
                b as int,
                change_id,
                sub_view(sub_change_id),
            ),
            a == b ==> final(self).edges() == old(self).edges(),
            weight_of(final(self).edges(), a as int, b as int) >= weight_of(
                old(self).edges(),
                a as int,
                b as int,
            ),
            a != b ==> change_id_set(final(self).edges(), a as int, b as int) == change_id_set(
                old(self).edges(),
                a as int,
                b as int,
            ).insert(change_id),
    {
        if a == b {
            return;
        }
        let ghost es = self.edges();
        let (lo, hi) = if a < b {
            (a, b)
        } else {
            (b, a)
        };
        match self.find_edge(lo, hi) {
            Some(pos) => {
                self.data[pos].add_pr(change_id);
                match sub_change_id {
                    Some(s) => self.data[pos].add_commit(s),
                    None => {},
                }
                let ghost ne = self.edges();
                assert(ne =~= reinforced(es, a as int, b as int, change_id, sub_view(sub_change_id)));
                proof {
                    self.lemma_edges_frame(es, pos as int);
                    assert(ne[pos as int].0 == lo && ne[pos as int].1 == hi);
                    assert(edge_at(ne, lo as int, hi as int) == Some(pos as int)) by {
                        let j = choose|j: int|
                            0 <= j < ne.len() && ne[j].0 == lo && ne[j].1 == hi;
                        assert(ne[j].0 == ne[pos as int].0 && ne[j].1 == ne[pos as int].1);
                    }
                    lemma_add_unique_to_set(es[pos as int].2, change_id);
                }
            },
            None => {
                let e = match sub_change_id {
                    Some(s) => ChangeEdge::new(change_id, s),
                    None => ChangeEdge::with_change(change_id),
                };
                self.insert_new_edge(lo, hi, e);
                let ghost ne = self.edges();
                let ghost pos = es.len() as int;
                assert(ne =~= reinforced(es, a as int, b as int, change_id, sub_view(sub_change_id)));
                proof {
                    assert(ne[pos].0 == lo && ne[pos].1 == hi);
                    assert(edge_at(ne, lo as int, hi as int) == Some(pos)) by {
                        let j = choose|j: int|
                            0 <= j < ne.len() && ne[j].0 == lo && ne[j].1 == hi;
                        if j != pos {
                            assert(es[j].0 == lo && es[j].1 == hi);
                        }
                    }
                    lemma_add_unique_to_set(Seq::<u64>::empty(), change_id);
                    assert(Seq::<u64>::empty().to_set() =~= Set::<u64>::empty());
                }
            },
        }
    }

    /// Whether there is an edge between `lo` and `hi`.
    pub fn contains_edge(&self, lo: usize, hi: usize) -> (r: bool)
        requires
            self.wf(),
        ensures
            r == edge_at(self.edges(), lo as int, hi as int) is Some,
    {
        self.find_edge(lo, hi).is_some()
    }

    /// Adds an edge between `lo` and `hi`, where there is none, with the
    /// contributions of `data`.
    pub fn insert_new_edge(&mut self, lo: usize, hi: usize, data: ChangeEdge)
        requires
            old(self).wf(),
            lo < hi < old(self).nodes(),
            edge_at(old(self).edges(), lo as int, hi as int) is None,
            data.wf(),
        ensures
            final(self).wf(),
            final(self).nodes() == old(self).nodes(),
            final(self).edges() == old(self).edges().push(
                (lo as int, hi as int, data.change_ids(), data.sub_change_ids()),
            ),
    {
        let ghost es = self.edges();
        let pos = self.data.len();
        let key = key_of(lo, hi);
        self.endpoints.push((lo, hi));
        self.data.push(data);
        self.index.insert(key, pos);
        let ghost ne = self.edges();
        assert(ne =~= es.push((lo as int, hi as int, data.change_ids(), data.sub_change_ids())));
        proof {
            assert forall|k: u128| #[trigger] self.index@.contains_key(k) implies {
                &&& self.index@[k] < self.data.len()
                &&& k == pair_key(
                    self.endpoints@[self.index@[k] as int].0 as int,
                    self.endpoints@[self.index@[k] as int].1 as int,
                )
            } by {
                if k != key {
                    assert(old(self).index@.contains_key(k));
                }
            }
            assert forall|i: int| 0 <= i < self.data.len() implies {
                let k = pair_key(
                    (#[trigger] self.endpoints@[i]).0 as int,
                    self.endpoints@[i].1 as int,
                ) as u128;
                &&& self.index@.contains_key(k)
                &&& self.index@[k] == i
            } by {
                if i < pos {
                    let p = self.endpoints@[i];
                    assert(old(self).endpoints@[i] == p);
                    assert(es[i].0 == p.0 && es[i].1 == p.1);
                    if pair_key(p.0 as int, p.1 as int) == pair_key(lo as int, hi as int) {
                        lemma_pair_key_injective(p.0 as int, p.1 as int, lo as int, hi as int);
                    }
                }
            }
            assert forall|i: int, j: int|
                0 <= i < ne.len() && 0 <= j < ne.len() && i != j implies (#[trigger] ne[i]).0
                != (#[trigger] ne[j]).0 || ne[i].1 != ne[j].1 by {
                if i == pos && j < pos {
                    assert(es[j].0 == ne[j].0);
                }
                if j == pos && i < pos {
                    assert(es[i].0 == ne[i].0);
                }
            }
        }
    }

    /// The edge index and the edge list outside position `pos` are as they
    /// were in a well-formed graph with edges `es`, and the data at `pos`
    /// kept its change-set identifiers free of duplicates.
    proof fn lemma_edges_frame(&self, es: Seq<EdgeView>, pos: int)
        requires
            0 <= pos < es.len(),
            self.endpoints.len() == self.data.len(),
            self.edges().len() == es.len(),
            edges_valid(es, self.nodes()),
            forall|i: int| 0 <= i < es.len() && i != pos ==> #[trigger] self.edges()[i] == es[i],
            self.edges()[pos].0 == es[pos].0,
            self.edges()[pos].1 == es[pos].1,
            self.edges()[pos].2.no_duplicates(),
            self.edges()[pos].3.no_duplicates(),
        ensures
            edges_valid(self.edges(), self.nodes()),
    {
        let ne = self.edges();
        assert forall|i: int, j: int|
            0 <= i < ne.len() && 0 <= j < ne.len() && i != j implies (#[trigger] ne[i]).0 != (
            #[trigger] ne[j]).0 || ne[i].1 != ne[j].1 by {
            assert(es[i].0 == ne[i].0 && es[i].1 == ne[i].1);
            assert(es[j].0 == ne[j].0 && es[j].1 == ne[j].1);
        }
        assert forall|i: int| 0 <= i < ne.len() implies {
            &&& 0 <= (#[trigger] ne[i]).0 < ne[i].1 < self.nodes()
            &&& ne[i].2.no_duplicates()
            &&& ne[i].3.no_duplicates()
        } by {
            if i != pos {
                assert(ne[i] == es[i]);
            }
        }
    }
}

/// Edge simplicity: in a well-formed graph no two edges join the same pair of
/// nodes, however many reinforcements built it.
pub proof fn lemma_edges_simple(g: &CoChangeGraph)
    requires
        g.wf(),
    ensures
        edges_simple(g.edges()),
{
}

/// Weight: in a well-formed graph the weight of the edge between any two
/// nodes is the number of distinct change-sets that contributed to it.
pub proof fn lemma_weight_counts_change_ids(g: &CoChangeGraph, a: int, b: int)
    requires
        g.wf(),
    ensures
        weight_of(g.edges(), a, b) == change_id_set(g.edges(), a, b).len(),
{
    let es = g.edges();
    match edge_at(es, ordered(a, b).0, ordered(a, b).1) {
        Some(i) => {
            assert(0 <= i < es.len() && es[i].0 == ordered(a, b).0);
            es[i].2.unique_seq_to_set();
        },
        None => {},
    }
}

/// Adding an element where it is missing keeps a sequence free of duplicates.
proof fn lemma_add_unique_no_duplicates<A>(s: Seq<A>, x: A)
    requires
        s.no_duplicates(),
    ensures
        add_unique(s, x).no_duplicates(),
{
    if !s.contains(x) {
        let t = s.push(x);
        assert forall|i: int, j: int| 0 <= i < t.len() && 0 <= j < t.len() && i != j implies t[i]
            != t[j] by {
            if i == s.len() {
                assert(s[j] == t[j]);
            } else if j == s.len() {
                assert(s[i] == t[i]);
            }
        }
    }
}

/// One reinforcement keeps the edges of a graph with `n` nodes valid, adds
/// `change_id` to the contributions of the pair `a`, `b`, and leaves its
/// weight no lower.
pub proof fn lemma_reinforced_valid(
    es: Seq<EdgeView>,
    n: nat,
    a: int,
    b: int,
    change_id: u64,
    sub: Option<Seq<char>>,
)
    requires
        edges_valid(es, n),
        0 <= a < n,
        0 <= b < n,
    ensures
        edges_valid(reinforced(es, a, b, change_id, sub), n),
        a != b ==> change_id_set(reinforced(es, a, b, change_id, sub), a, b) == change_id_set(
            es,
            a,
            b,
        ).insert(change_id),
        weight_of(reinforced(es, a, b, change_id, sub), a, b) >= weight_of(es, a, b),
{
    let ne = reinforced(es, a, b, change_id, sub);
    let (lo, hi) = ordered(a, b);
    if a != b {
        match edge_at(es, lo, hi) {
            Some(i) => {
                lemma_add_unique_no_duplicates(es[i].2, change_id);
                if let Some(x) = sub {
                    lemma_add_unique_no_duplicates(es[i].3, x);
                }
                assert forall|p: int, q: int|
                    0 <= p < ne.len() && 0 <= q < ne.len() && p != q implies (
                    #[trigger] ne[p]).0 != (#[trigger] ne[q]).0 || ne[p].1 != ne[q].1 by {
                    assert(es[p].0 == ne[p].0 && es[p].1 == ne[p].1);
                    assert(es[q].0 == ne[q].0 && es[q].1 == ne[q].1);
                }
                assert forall|p: int| 0 <= p < ne.len() implies {
                    &&& 0 <= (#[trigger] ne[p]).0 < ne[p].1 < n
                    &&& ne[p].2.no_duplicates()
                    &&& ne[p].3.no_duplicates()
                } by {
                    if p != i {
                        assert(ne[p] == es[p]);
                    }
                }
                assert(edge_at(ne, lo, hi) == Some(i)) by {
                    assert(ne[i].0 == lo && ne[i].1 == hi);
                    let j = choose|j: int| 0 <= j < ne.len() && ne[j].0 == lo && ne[j].1 == hi;
                    assert(ne[j].0 == ne[i].0 && ne[j].1 == ne[i].1);
                }
                lemma_add_unique_to_set(es[i].2, change_id);
                if es[i].2.contains(change_id) {
                } else {
                    assert(add_unique(es[i].2, change_id).len() == es[i].2.len() + 1);
                }
            },
            None => {
                let e = (lo, hi, seq![change_id], add_sub(Seq::<Seq<char>>::empty(), sub));
                assert(ne == es.push(e));
                let pos = es.len() as int;
                lemma_add_unique_no_duplicates(Seq::<u64>::empty(), change_id);
                if let Some(x) = sub {
                    lemma_add_unique_no_duplicates(Seq::<Seq<char>>::empty(), x);
                }
                assert forall|p: int, q: int|
                    0 <= p < ne.len() && 0 <= q < ne.len() && p != q implies (
                    #[trigger] ne[p]).0 != (#[trigger] ne[q]).0 || ne[p].1 != ne[q].1 by {
                    if p == pos {
                        assert(es[q].0 == ne[q].0 && es[q].1 == ne[q].1);
                    } else if q == pos {
                        assert(es[p].0 == ne[p].0 && es[p].1 == ne[p].1);
                    } else {
                        assert(es[p] == ne[p] && es[q] == ne[q]);
                    }
                }
                assert forall|p: int| 0 <= p < ne.len() implies {
                    &&& 0 <= (#[trigger] ne[p]).0 < ne[p].1 < n
                    &&& ne[p].2.no_duplicates()
                    &&& ne[p].3.no_duplicates()
                } by {
                    if p != pos {
                        assert(ne[p] == es[p]);
                    }
                }
                assert(edge_at(ne, lo, hi) == Some(pos)) by {
                    assert(ne[pos].0 == lo && ne[pos].1 == hi);
                    let j = choose|j: int| 0 <= j < ne.len() && ne[j].0 == lo && ne[j].1 == hi;
                    assert(ne[j].0 == ne[pos].0 && ne[j].1 == ne[pos].1);
                }
                lemma_add_unique_to_set(Seq::<u64>::empty(), change_id);
                assert(Seq::<u64>::empty().to_set() =~= Set::<u64>::empty());
            },
        }
    }
}

/// The edges after the pair `a`, `b` co-changed in each change-set of
/// `calls` in turn, each with its optional sub-change.
pub open spec fn reinforced_by_all(
    es: Seq<EdgeView>,
    a: int,
    b: int,
    calls: Seq<(u64, Option<Seq<char>>)>,
) -> Seq<EdgeView>
    decreases calls.len(),
{
    if calls.len() == 0 {
        es
    } else {
        let prior = reinforced_by_all(es, a, b, calls.drop_last());
        reinforced(prior, a, b, calls.last().0, calls.last().1)
    }
}

/// The change-set identifiers of `calls`, as a set.
pub open spec fn call_ids(calls: Seq<(u64, Option<Seq<char>>)>) -> Set<u64> {
    calls.map_values(|c: (u64, Option<Seq<char>>)| c.0).to_set()
}

/// Weight monotonicity: after any number of reinforcements of the pair `a`,
/// `b` of distinct nodes, the edges are still valid, the pair's weight is no
/// lower than before, and its contributing change-sets are those it had plus
/// the distinct identifiers supplied, so that from no edge its weight is the
/// number of distinct identifiers supplied.
pub proof fn lemma_weight_monotone(
    es: Seq<EdgeView>,
    n: nat,
    a: int,
    b: int,
    calls: Seq<(u64, Option<Seq<char>>)>,
)
    requires
        edges_valid(es, n),
        0 <= a < n,
        0 <= b < n,
        a != b,
    ensures
        edges_valid(reinforced_by_all(es, a, b, calls), n),
        weight_of(reinforced_by_all(es, a, b, calls), a, b) >= weight_of(es, a, b),
        change_id_set(reinforced_by_all(es, a, b, calls), a, b) == change_id_set(es, a, b).union(
            call_ids(calls),
        ),
        weight_of(reinforced_by_all(es, a, b, calls), a, b) == change_id_set(
            reinforced_by_all(es, a, b, calls),
            a,
            b,
        ).len(),
        edge_at(es, ordered(a, b).0, ordered(a, b).1) is None ==> weight_of(
            reinforced_by_all(es, a, b, calls),
            a,
            b,
        ) == call_ids(calls).len(),
    decreases calls.len(),
{
    let f = |c: (u64, Option<Seq<char>>)| c.0;
    if calls.len() == 0 {
        assert(calls.map_values(f).to_set() =~= Set::<u64>::empty());
        assert(change_id_set(es, a, b).union(call_ids(calls)) =~= change_id_set(es, a, b));
    } else {
        let prior = reinforced_by_all(es, a, b, calls.drop_last());
        lemma_weight_monotone(es, n, a, b, calls.drop_last());
        lemma_reinforced_valid(prior, n, a, b, calls.last().0, calls.last().1);
        assert(calls.map_values(f) =~= calls.drop_last().map_values(f).push(calls.last().0));
        lemma_add_unique_to_set(calls.drop_last().map_values(f), calls.last().0);
        assert(calls.drop_last().map_values(f).push(calls.last().0).to_set() =~= calls.drop_last().map_values(f).to_set().insert(calls.last().0)) by {
            broadcast use vstd::seq_lib::lemma_seq_contains_after_push;
        }
        assert(change_id_set(es, a, b).union(call_ids(calls)) =~= change_id_set(es, a, b).union(
            call_ids(calls.drop_last()),
        ).insert(calls.last().0));
    }
    let r = reinforced_by_all(es, a, b, calls);
    match edge_at(r, ordered(a, b).0, ordered(a, b).1) {
        Some(i) => {
            assert(0 <= i < r.len() && r[i].0 == ordered(a, b).0);
            r[i].2.unique_seq_to_set();
        },
        None => {},
    }
    if edge_at(es, ordered(a, b).0, ordered(a, b).1) is None {
        assert(change_id_set(es, a, b).union(call_ids(calls)) =~= call_ids(calls));
    }
}

} // verus!
