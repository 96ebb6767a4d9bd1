//! The file registry: gives each logical file one stable node identity and
//! follows it across renames.
use vstd::prelude::*;

verus! {

/// What the registry knows of one node: its current path and, oldest first,
/// the paths it had before.
pub type NodeView = (Seq<char>, Seq<Seq<char>>);

/// The registry as a value: its nodes, where a node's identity is its
/// position, and the path index from every path seen to the node it resolves to.
pub type RegistryView = (Seq<NodeView>, Map<Seq<char>, nat>);

/// The registry in which nothing was seen yet.
pub open spec fn empty_registry() -> RegistryView {
    (Seq::empty(), Map::empty())
}

/// Every indexed path resolves to a node that has it as its current or a
/// previous path, and every path a node ever had, current or previous,
/// resolves to that node.
pub open spec fn registry_wf(v: RegistryView) -> bool {
    &&& forall|p: Seq<char>| #[trigger]
        v.1.contains_key(p) ==> {
            &&& v.1[p] < v.0.len()
            &&& (v.0[v.1[p] as int].0 == p || v.0[v.1[p] as int].1.contains(p))
        }
    &&& forall|n: int|
        0 <= n < v.0.len() ==> v.1.contains_key(#[trigger] v.0[n].0) && v.1[v.0[n].0] == n
    &&& forall|n: int, k: int|
        0 <= n < v.0.len() && 0 <= k < v.0[n].1.len() ==> v.1.contains_key(
            #[trigger] v.0[n].1[k],
        ) && v.1[v.0[n].1[k]] == n
}

/// No two nodes share a current path.
pub open spec fn current_paths_unique(v: RegistryView) -> bool {
    forall|n: int, m: int|
        0 <= n < v.0.len() && 0 <= m < v.0.len() && #[trigger] v.0[n].0 == #[trigger] v.0[m].0
            ==> n == m
}

/// Whether `path` already resolves to a node other than the one that `prev`
/// resolves to: it is, or was, the path of another file.
pub open spec fn held_by_other(v: RegistryView, path: Seq<char>, prev: Seq<char>) -> bool {
    &&& v.1.contains_key(path)
    &&& v.1[path] != v.1[prev]
}

/// Whether an edit of `path`, formerly `prev`, is a rename of a known node:
/// `prev` resolves to a node, and `path` resolves to no other node.
pub open spec fn is_rename(v: RegistryView, path: Seq<char>, prev: Option<Seq<char>>) -> bool {
    &&& prev is Some
    &&& v.1.contains_key(prev.unwrap())
    &&& !held_by_other(v, path, prev.unwrap())
}

/// A node renamed to `path`: unchanged where that is already its path, else
/// its current path moves to the end of its history.
///
/// The history is append-only: a file renamed back to a former path (`a`,
/// then `b`, then `a` again) keeps that path in its history as well, so the
/// history may then hold the current path.
pub open spec fn renamed(n: NodeView, path: Seq<char>) -> NodeView {
    if n.0 == path {
        n
    } else {
        (path, n.1.push(n.0))
    }
}

/// The decision table of path resolution: the registry after an edit of
/// `path` that claims the former path `prev`, and the identity of the edited
/// file.
///
/// - A rename of a known node updates that node and resolves `path` to it.
/// - Otherwise, a known `path` resolves to its node, with nothing changed.
///   This covers a claimed former path that was never seen, and a rename onto
///   a path that another node has or had: the edit merges into the node that
///   `path` resolves to, so no two nodes share a current path and every path
///   a node ever had keeps resolving to it.
/// - Otherwise a new node is created under `path`, with an empty history.
pub open spec fn resolve_spec(v: RegistryView, path: Seq<char>, prev: Option<Seq<char>>) -> (
    RegistryView,
    nat,
) {
    if is_rename(v, path, prev) {
        let x = v.1[prev.unwrap()];
        ((v.0.update(x as int, renamed(v.0[x as int], path)), v.1.insert(path, x)), x)
    } else if v.1.contains_key(path) {
        (v, v.1[path])
    } else {
        ((v.0.push((path, Seq::empty())), v.1.insert(path, v.0.len())), v.0.len())
    }
}

/// The empty registry is well formed.
pub proof fn lemma_empty_registry_wf()
    ensures
        registry_wf(empty_registry()),
{
}

/// In a well-formed registry no two nodes share a current path.
pub proof fn lemma_wf_paths_unique(v: RegistryView)
    requires
        registry_wf(v),
    ensures
        current_paths_unique(v),
{
    assert forall|n: int, m: int|
        0 <= n < v.0.len() && 0 <= m < v.0.len() && #[trigger] v.0[n].0 == #[trigger] v.0[m].0
        implies n == m by {
        assert(v.1[v.0[n].0] == n);
        assert(v.1[v.0[m].0] == m);
    }
}

/// Node uniqueness: resolving any edit keeps the registry well formed, so
/// that no two nodes ever share a current path, and the identity it returns
/// names a node.
pub proof fn lemma_resolve_keeps_paths_unique(
    v: RegistryView,
    path: Seq<char>,
    prev: Option<Seq<char>>,
)
    requires
        registry_wf(v),
    ensures
        registry_wf(resolve_spec(v, path, prev).0),
        current_paths_unique(resolve_spec(v, path, prev).0),
        resolve_spec(v, path, prev).1 < resolve_spec(v, path, prev).0.0.len(),
        resolve_spec(v, path, prev).0.0.len() >= v.0.len(),
{
    let w = resolve_spec(v, path, prev).0;
    if is_rename(v, path, prev) {
        let x = v.1[prev.unwrap()];
        assert forall|p: Seq<char>| #[trigger] w.1.contains_key(p) implies {
            &&& w.1[p] < w.0.len()
            &&& (w.0[w.1[p] as int].0 == p || w.0[w.1[p] as int].1.contains(p))
        } by {
            if p != path && v.1[p] == x && v.0[x as int].0 == p {
                assert(w.0[x as int].1.last() == p);
            }
            if p != path && v.1[p] == x && v.0[x as int].1.contains(p) && v.0[x as int].0 != path {
                let k = choose|k: int| 0 <= k < v.0[x as int].1.len() && v.0[x as int].1[k] == p;
                assert(w.0[x as int].1[k] == p);
            }
        }
        assert forall|n: int| 0 <= n < w.0.len() implies w.1.contains_key(#[trigger] w.0[n].0)
            && w.1[w.0[n].0] == n by {
            if n != x {
                assert(v.1[v.0[n].0] == n);
                if v.0[n].0 == path {
                    assert(held_by_other(v, path, prev.unwrap()));
                }
            }
        }
        assert forall|n: int, k: int| 0 <= n < w.0.len() && 0 <= k < w.0[n].1.len() implies w.1.contains_key(
            #[trigger] w.0[n].1[k],
        ) && w.1[w.0[n].1[k]] == n by {
            if n != x {
                assert(w.0[n] == v.0[n]);
                assert(v.1[v.0[n].1[k]] == n);
                if v.0[n].1[k] == path {
                    assert(held_by_other(v, path, prev.unwrap()));
                }
            } else if k < v.0[x as int].1.len() {
                assert(w.0[x as int].1[k] == v.0[x as int].1[k]);
                assert(v.1[v.0[x as int].1[k]] == x);
            } else {
                assert(w.0[x as int].1[k] == v.0[x as int].0);
                assert(v.1[v.0[x as int].0] == x);
            }
        }
    } else if v.1.contains_key(path) {
    } else {
        assert forall|n: int| 0 <= n < w.0.len() implies w.1.contains_key(#[trigger] w.0[n].0)
            && w.1[w.0[n].0] == n by {
            if n < v.0.len() {
                assert(v.1.contains_key(v.0[n].0));
            }
        }
        assert forall|n: int, k: int| 0 <= n < w.0.len() && 0 <= k < w.0[n].1.len() implies w.1.contains_key(
            #[trigger] w.0[n].1[k],
        ) && w.1[w.0[n].1[k]] == n by {
            if n < v.0.len() {
                assert(w.0[n] == v.0[n]);
                assert(v.1.contains_key(v.0[n].1[k]));
            }
        }
    }
    lemma_wf_paths_unique(w);
}

/// Rename merge: an edit of `path` whose former path `prev` resolves to a
/// node renames that node to `path`, records `prev` in its history, and
/// creates no node. This holds where `path` resolves to no other node, that
/// is, no other file has or had it; there the edit merges into that other
/// node, as two nodes cannot share a current path and a path a file had keeps
/// resolving to it.
pub proof fn lemma_rename_merge(v: RegistryView, path: Seq<char>, prev: Seq<char>)
    requires
        registry_wf(v),
        v.1.contains_key(prev),
        prev != path,
        !held_by_other(v, path, prev),
    ensures
        ({
            let (w, id) = resolve_spec(v, path, Some(prev));
            &&& id == v.1[prev]
            &&& w.0[id as int].0 == path
            &&& w.0[id as int].1.contains(prev)
            &&& w.0.len() == v.0.len()
            &&& w.1[prev] == id
        }),
{
    let x = v.1[prev];
    let w = resolve_spec(v, path, Some(prev)).0;
    if v.0[x as int].0 == prev {
        assert(w.0[x as int].1.last() == prev);
    } else {
        let k = choose|k: int| 0 <= k < v.0[x as int].1.len() && v.0[x as int].1[k] == prev;
        assert(w.0[x as int].1[k] == prev);
    }
}

/// One entry of a change-set's file list: the path edited and, where the
/// file was renamed, the path it had before.
pub struct ChangeSetEdit {
    pub path: String,
    pub previous_path: Option<String>,
}

/// The former path of an edit, as a value.
pub open spec fn prev_view(o: Option<String>) -> Option<Seq<char>> {
    match o {
        Some(p) => Some(p@),
        None => None,
    }
}

impl ChangeSetEdit {
    /// An edit of `path` with no rename.
    pub fn new(path: String) -> (r: ChangeSetEdit)
        ensures
            r.path@ == path@,
            r.previous_path is None,
    {
        ChangeSetEdit { path, previous_path: None }
    }

    /// An edit of `path`, formerly `previous_path`.
    pub fn renamed(path: String, previous_path: String) -> (r: ChangeSetEdit)
        ensures
            r.path@ == path@,
            prev_view(r.previous_path) == Some(previous_path@),
    {
        ChangeSetEdit { path, previous_path: Some(previous_path) }
    }
}

/// One logical file across its history of paths.
///
/// The history of former paths is append-only; after a rename back to a
/// former path it also holds the current path.
pub struct FileInfo {
    current_name: String,
    previous_names: Vec<String>,
    node_index: usize,
}

impl View for FileInfo {
    type V = NodeView;

    closed spec fn view(&self) -> NodeView {
        (self.current_name@, self.previous_names.deep_view())
    }
}

impl FileInfo {
    /// The node's identity.
    pub closed spec fn id(&self) -> nat {
        self.node_index as nat
    }

    /// A file first seen under `name`, with an empty history.
    pub fn new(name: String, node_index: usize) -> (r: FileInfo)
        ensures
            r@ == (name@, Seq::<Seq<char>>::empty()),
            r.id() == node_index,
    {
        let r = FileInfo { current_name: name, previous_names: Vec::new(), node_index };
        assert(r.previous_names.deep_view() =~= Seq::<Seq<char>>::empty());
        r
    }

    /// Renames the file to `new_name`, keeping the former path in its history.
    pub fn update_name(&mut self, new_name: String)
        ensures
            final(self)@ == renamed(old(self)@, new_name@),
            final(self).id() == old(self).id(),
    {
        if new_name != self.current_name {
            let former = self.current_name.clone();
            self.previous_names.push(former);
            self.current_name = new_name;
            assert(self.previous_names.deep_view() =~= old(self)@.1.push(old(self)@.0));
        }
    }

    /// The current path.
    pub fn current_name(&self) -> (r: &String)
        ensures
            r@ == self@.0,
    {
        &self.current_name
    }

    /// The former paths, oldest first.
    pub fn previous_names(&self) -> (r: &Vec<String>)
        ensures
            r.deep_view() == self@.1,
    {
        &self.previous_names
    }

    /// The node's identity.
    pub fn node_index(&self) -> (r: usize)
        ensures
            r == self.id(),
    {
        self.node_index
    }
}

/// Maps every path ever seen to the node it resolves to, and owns the nodes.
///
/// The path index is held as two parallel lists, `paths` and `owners`, with
/// each path at most once; `index` is that mapping as a value.
pub struct FileRegistry {
    nodes: Vec<FileInfo>,
    paths: Vec<String>,
    owners: Vec<usize>,
    index: Ghost<Map<Seq<char>, nat>>,
}

impl View for FileRegistry {
    type V = RegistryView;

    closed spec fn view(&self) -> RegistryView {
        (self.nodes@.map_values(|f: FileInfo| f@), self.index@)
    }
}

impl FileRegistry {
    /// The registry's own bookkeeping agrees with its view, and the view is
    /// well formed.
    pub closed spec fn wf(&self) -> bool {
        &&& registry_wf(self@)
        &&& forall|i: int| 0 <= i < self.nodes.len() ==> (#[trigger] self.nodes@[i]).id() == i
        &&& self.index_wf()
    }

    /// The path index holds each path once, and `index` is its mapping.
    closed spec fn index_wf(&self) -> bool {
        &&& self.paths.len() == self.owners.len()
        &&& forall|i: int|
            0 <= i < self.paths.len() ==> self.index@.contains_key(#[trigger] self.paths@[i]@)
                && self.index@[self.paths@[i]@] == self.owners@[i]
        &&& forall|p: Seq<char>| #[trigger]
            self.index@.contains_key(p) ==> exists|i: int|
                0 <= i < self.paths.len() && #[trigger] self.paths@[i]@ == p
        &&& forall|i: int, j: int|
            0 <= i < self.paths.len() && 0 <= j < self.paths.len() && i != j ==> (
            #[trigger] self.paths@[i])@ != (#[trigger] self.paths@[j])@
    }

    /// A well-formed registry has a well-formed view.
    pub proof fn lemma_wf(&self)
        requires
            self.wf(),
        ensures
            registry_wf(self@),
    {
    }

    /// A registry in which nothing was seen yet.
    pub fn new() -> (r: FileRegistry)
        ensures
            r.wf(),
            r@ == empty_registry(),
    {
        let r = FileRegistry {
            nodes: Vec::new(),
            paths: Vec::new(),
            owners: Vec::new(),
            index: Ghost(Map::empty()),
        };
        assert(r@.0 =~= Seq::<NodeView>::empty());
        r
    }

    /// The number of nodes.
    pub fn len(&self) -> (r: usize)
        ensures
            r == self@.0.len(),
    {
        self.nodes.len()
    }

    /// The node with identity `id`.
    pub fn node(&self, id: usize) -> (r: &FileInfo)
        requires
            self.wf(),
            id < self@.0.len(),
        ensures
            r@ == self@.0[id as int],
            r.id() == id,
    {
        &self.nodes[id]
    }

    /// The node that `path` resolves to, if any.
    pub fn lookup(&self, path: &String) -> (r: Option<usize>)
        requires
            self.wf(),
        ensures
            r == (if self@.1.contains_key(path@) {
                Some(self@.1[path@] as usize)
            } else {
                None::<usize>
            }),
    {
        match self.position_of(path) {
            Some(i) => Some(self.owners[i]),
            None => None,
        }
    }

    /// Where `path` stands in the path index, if it does.
    fn position_of(&self, path: &String) -> (r: Option<usize>)
        requires
            self.index_wf(),
        ensures
            r matches Some(i) ==> i < self.paths.len() && self.paths@[i as int]@ == path@,
            r is None <==> !self@.1.contains_key(path@),
    {
        let mut i: usize = 0;
        while i < self.paths.len()
            invariant
                self.index_wf(),
                i <= self.paths.len(),
                forall|j: int| 0 <= j < i ==> self.paths@[j]@ != path@,
            decreases self.paths.len() - i,
        {
            if self.paths[i] == *path {
                assert(self.index@.contains_key(self.paths@[i as int]@));
                return Some(i);
            }
            i += 1;
        }
        proof {
            if self.index@.contains_key(path@) {
                let k = choose|k: int| 0 <= k < self.paths.len() && #[trigger] self.paths@[k]@ == path@;
                assert(self.paths@[k]@ == path@);
            }
        }
        None
    }

    /// Makes `path` resolve to node `id`.
    fn set_owner(&mut self, path: String, id: usize)
        requires
            old(self).index_wf(),
        ensures
            final(self).index_wf(),
            final(self)@ == (old(self)@.0, old(self)@.1.insert(path@, id as nat)),
            final(self).nodes == old(self).nodes,
    {
        let ghost new_index = self.index@.insert(path@, id as nat);
        match self.position_of(&path) {
            Some(i) => {
                self.owners.set(i, id);
                self.index = Ghost(new_index);
                assert forall|p: Seq<char>| #[trigger] self.index@.contains_key(p) implies exists|
                    j: int,
                | 0 <= j < self.paths.len() && #[trigger] self.paths@[j]@ == p by {
                    if p == path@ {
                        assert(self.paths@[i as int]@ == p);
                    } else {
                        assert(old(self).index@.contains_key(p));
                    }
                }
            },
            None => {
                self.paths.push(path);
                self.owners.push(id);
                self.index = Ghost(new_index);
                let ghost last = self.paths.len() - 1;
                assert(self.paths@[last]@ == path@);
                assert forall|p: Seq<char>| #[trigger] self.index@.contains_key(p) implies exists|
                    j: int,
                | 0 <= j < self.paths.len() && #[trigger] self.paths@[j]@ == p by {
                    if p == path@ {
                        assert(self.paths@[last]@ == p);
                    } else {
                        assert(old(self).index@.contains_key(p));
                        let k = choose|k: int| 0 <= k < old(self).paths.len() && #[trigger] old(self).paths@[k]@ == p;
                        assert(self.paths@[k]@ == p);
                    }
                }
                assert forall|a: int| 0 <= a < self.paths.len() implies self.index@.contains_key(
                    #[trigger] self.paths@[a]@,
                ) && self.index@[self.paths@[a]@] == self.owners@[a] by {
                    if a < last {
                        assert(old(self).index@.contains_key(old(self).paths@[a]@));
                    }
                }
                assert forall|a: int, b: int|
                    0 <= a < self.paths.len() && 0 <= b < self.paths.len() && a != b implies (
                    #[trigger] self.paths@[a])@ != (#[trigger] self.paths@[b])@ by {
                    if a == last && b < last {
                        assert(old(self).index@.contains_key(old(self).paths@[b]@));
                    }
                    if b == last && a < last {
                        assert(old(self).index@.contains_key(old(self).paths@[a]@));
                    }
                }
            },
        }
        assert(self@.0 =~= old(self)@.0);
    }

    /// Resolves the file of `edit` to its node, creating or renaming a node as
    /// the decision table `resolve_spec` says, and returns its identity.
    pub fn resolve_or_create(&mut self, edit: &ChangeSetEdit) -> (r: usize)
        requires
            old(self).wf(),
        ensures
            final(self).wf(),
            (final(self)@, r as nat) == resolve_spec(
                old(self)@,
                edit.path@,
                prev_view(edit.previous_path),
            ),
            registry_wf(final(self)@),
            r < final(self)@.0.len(),
            final(self)@.0.len() == if r < old(self)@.0.len() {
                old(self)@.0.len()
            } else {
                (r + 1) as nat
            },
    {
        let ghost v = self@;
        let ghost prev = prev_view(edit.previous_path);
        proof {
            lemma_resolve_keeps_paths_unique(v, edit.path@, prev);
        }
        let known_prev = match &edit.previous_path {
            Some(p) => self.lookup(p),
            None => None,
        };
        if let Some(x) = known_prev {
            let held = match self.lookup(&edit.path) {
                Some(y) => y != x,
                None => false,
            };
            if !held {
                assert(is_rename(v, edit.path@, prev));
                let ghost before = *self;
                self.nodes[x].update_name(edit.path.clone());
                assert(self.paths == before.paths && self.owners == before.owners && self.index
                    == before.index);
                assert(self@.0 =~= v.0.update(x as int, renamed(v.0[x as int], edit.path@)));
                self.set_owner(edit.path.clone(), x);
                assert(self@.0.len() == self.nodes@.len());
                return x;
            }
        }
        assert(!is_rename(v, edit.path@, prev));
        if let Some(y) = self.lookup(&edit.path) {
            assert(self@.0.len() == self.nodes@.len());
            return y;
        }
        let id = self.nodes.len();
        self.nodes.push(FileInfo::new(edit.path.clone(), id));
        assert(self@.0 =~= v.0.push((edit.path@, Seq::empty())));
        self.set_owner(edit.path.clone(), id);
        assert(self@.0.len() == self.nodes@.len());
        id
    }
}

} // verus!
