//! Build graph representation and construction.

use crate::collections::{
    dep_graph_add_edge, dep_graph_edges, dep_graph_is_cyclic, dep_graph_neighbors, dep_graph_new,
    has_cycle, in_neighbors, is_walk, out_neighbors, path_set_entries, path_set_get_index,
    path_set_get_index_of, path_set_insert, path_set_len, path_set_new,
};
use indexmap::IndexSet;
use petgraph::graphmap::DiGraphMap;
use vstd::prelude::*;

verus! {

/// An index that uniquely identifies an (input or output) file in the build graph.
#[derive(Debug, Clone, Copy, PartialEq, Eq, Hash, PartialOrd, Ord, Structural)]
pub struct FileId(pub usize);

/// An index that uniquely identifies a build node in the build graph.
#[derive(Debug, Clone, Copy, PartialEq, Eq, Hash, PartialOrd, Ord, Structural)]
pub struct BuildId(pub usize);

/// A real, command-line command to run.
#[derive(Clone, Debug)]
pub struct BuildCommand {
    pub executable: String,
    pub args: Vec<String>,
}

/// Represents the method to build the target within a build node.
#[derive(Clone, Debug)]
pub enum BuildMethod {
    /// A real, command-line command to run.
    SubCommand(BuildCommand),
    /// A callback to invoke, known by its name. The name is used for
    /// version checking and debugging; the executing world maps it to the
    /// function that performs the step.
    Callback(String),
    /// A phony command that does nothing.
    Phony,
}

/// Represents a single node being built.
#[derive(Clone, Debug)]
pub struct BuildNode {
    pub command: BuildMethod,
    pub ins: Vec<FileId>,
    pub outs: Vec<FileId>,
    pub description: Option<String>,
}

/// The reason a [`GraphBuilder`] refuses to produce a graph.
#[derive(Debug, Clone, Copy, PartialEq, Eq, Structural)]
pub enum BuildError {
    /// The build graph contains a cycle.
    ContainsCycle,
}

impl BuildError {
    /// The human-readable message of this error.
    pub fn message(&self) -> (s: &'static str)
        ensures
            s@ == "The build graph contains a cycle"@,
    {
        "The build graph contains a cycle"
    }
}

/// The paths in `files` are pairwise distinct.
pub open spec fn distinct_paths(files: Seq<Seq<char>>) -> bool {
    forall|i: int, j: int| 0 <= i < j < files.len() ==> files[i] != files[j]
}

/// Some build of the graph produces the file.
pub open spec fn file_produced(g: BuildGraph, f: FileId) -> bool {
    exists|b: int, k: int|
        0 <= b < g.spec_nodes().len() && 0 <= k < g.spec_nodes()[b].outs@.len() && #[trigger] g.spec_nodes()[b].outs@[k]
            == f
}

/// The build graph to be executed.
///
/// This type is immutable. To build it, use [`GraphBuilder`].
pub struct BuildGraph {
    nodes: Vec<BuildNode>,
    files: IndexSet<String>,
    graph: DiGraphMap<BuildId, ()>,
}

impl BuildGraph {
    /// The build nodes, in the order they were added; a node's index is its id.
    pub closed spec fn spec_nodes(&self) -> Seq<BuildNode> {
        self.nodes@
    }

    /// The number of nodes fits in a `usize`.
    pub proof fn lemma_node_count_fits(&self)
        ensures
            self.spec_nodes().len() <= usize::MAX,
    {
        assert(self.nodes@.len() == self.nodes.len());
    }

    /// The file paths, in the order they were added; a path's index is its id.
    pub closed spec fn spec_files(&self) -> Seq<Seq<char>> {
        path_set_entries(self.files)
    }

    /// The dependency edges `(dependent, dependency)`, in the order added.
    pub closed spec fn spec_edges(&self) -> Seq<(usize, usize)> {
        dep_graph_edges(self.graph)
    }

    /// Well-formedness: no path and no edge is held twice, and the edges
    /// form no cycle.
    pub open spec fn wf(&self) -> bool {
        &&& distinct_paths(self.spec_files())
        &&& self.spec_edges().no_duplicates()
        &&& !has_cycle(self.spec_edges())
    }

    /// Every id the graph mentions names a node or a file of the graph.
    pub open spec fn ids_in_bounds(&self) -> bool {
        &&& forall|i: int|
            0 <= i < self.spec_edges().len() ==> (#[trigger] self.spec_edges()[i]).0
                < self.spec_nodes().len() && self.spec_edges()[i].1 < self.spec_nodes().len()
        &&& forall|b: int, k: int|
            0 <= b < self.spec_nodes().len() && 0 <= k < self.spec_nodes()[b].ins@.len()
                ==> (#[trigger] self.spec_nodes()[b].ins@[k]).0 < self.spec_files().len()
        &&& forall|b: int, k: int|
            0 <= b < self.spec_nodes().len() && 0 <= k < self.spec_nodes()[b].outs@.len()
                ==> (#[trigger] self.spec_nodes()[b].outs@[k]).0 < self.spec_files().len()
    }

    /// The builds that `b` depends on, in edge order.
    pub open spec fn spec_dependencies(&self, b: usize) -> Seq<usize> {
        out_neighbors(self.spec_edges(), b)
    }

    /// The builds that depend on `b`, in edge order.
    pub open spec fn spec_dependents(&self, b: usize) -> Seq<usize> {
        in_neighbors(self.spec_edges(), b)
    }

    /// All build nodes with their ids.
    pub fn nodes(&self) -> (r: Vec<(BuildId, &BuildNode)>)
        ensures
            r@.len() == self.spec_nodes().len(),
            forall|i: int| 0 <= i < r@.len() ==> (#[trigger] r@[i]).0.0 == i && *r@[i].1 == self.spec_nodes()[i],
    {
        let mut r: Vec<(BuildId, &BuildNode)> = Vec::new();
        let mut i: usize = 0;
        while i < self.nodes.len()
            invariant
                i <= self.nodes@.len(),
                r@.len() == i,
                forall|j: int| 0 <= j < i ==> (#[trigger] r@[j]).0.0 == j && *r@[j].1 == self.nodes@[j],
            decreases self.nodes@.len() - i,
        {
            r.push((BuildId(i), &self.nodes[i]));
            i = i + 1;
        }
        r
    }

    /// All file paths with their ids.
    pub fn files(&self) -> (r: Vec<(FileId, &String)>)
        ensures
            r@.len() == self.spec_files().len(),
            forall|i: int| 0 <= i < r@.len() ==> (#[trigger] r@[i]).0.0 == i && r@[i].1@ == self.spec_files()[i],
    {
        let mut r: Vec<(FileId, &String)> = Vec::new();
        let n = path_set_len(&self.files);
        let mut i: usize = 0;
        while i < n
            invariant
                n == path_set_entries(self.files).len(),
                i <= n,
                r@.len() == i,
                forall|j: int| 0 <= j < i ==> (#[trigger] r@[j]).0.0 == j && r@[j].1@ == path_set_entries(self.files)[j],
            decreases n - i,
        {
            let p = path_set_get_index(&self.files, i).unwrap();
            r.push((FileId(i), p));
            i = i + 1;
        }
        r
    }

    /// The builds that `build_id` depends on, in the order the edges were added.
    pub fn build_dependencies(&self, build_id: BuildId) -> (r: Vec<BuildId>)
        ensures
            r@.map_values(|b: BuildId| b.0) == self.spec_dependencies(build_id.0),
    {
        dep_graph_neighbors(&self.graph, build_id, true)
    }

    /// The builds that depend on `build_id`, in the order the edges were added.
    pub fn build_dependents(&self, build_id: BuildId) -> (r: Vec<BuildId>)
        ensures
            r@.map_values(|b: BuildId| b.0) == self.spec_dependents(build_id.0),
    {
        dep_graph_neighbors(&self.graph, build_id, false)
    }

    /// The id of a path, if the graph holds it.
    pub fn lookup_fileid(&self, path: &str) -> (r: Option<FileId>)
        ensures
            match r {
                Some(id) => id.0 < self.spec_files().len() && self.spec_files()[id.0 as int] == path@,
                None => !self.spec_files().contains(path@),
            },
    {
        match path_set_get_index_of(&self.files, path) {
            Some(i) => Some(FileId(i)),
            None => None,
        }
    }

    /// The path of a file id, if it is in bounds.
    pub fn lookup_path(&self, file_id: FileId) -> (r: Option<&String>)
        ensures
            match r {
                Some(p) => file_id.0 < self.spec_files().len() && p@ == self.spec_files()[file_id.0 as int],
                None => file_id.0 >= self.spec_files().len(),
            },
    {
        path_set_get_index(&self.files, file_id.0)
    }

    /// The build node of a build id, if it is in bounds.
    pub fn lookup_build(&self, build_id: BuildId) -> (r: Option<&BuildNode>)
        ensures
            match r {
                Some(n) => build_id.0 < self.spec_nodes().len() && *n == self.spec_nodes()[build_id.0 as int],
                None => build_id.0 >= self.spec_nodes().len(),
            },
    {
        if build_id.0 < self.nodes.len() {
            Some(&self.nodes[build_id.0])
        } else {
            None
        }
    }

    /// Whether some build of the graph produces the file.
    pub fn produces_file(&self, file: FileId) -> (r: bool)
        ensures
            r == file_produced(*self, file),
    {
        let mut b: usize = 0;
        while b < self.nodes.len()
            invariant
                b <= self.nodes@.len(),
                forall|i: int, k: int|
                    0 <= i < b && 0 <= k < self.nodes@[i].outs@.len() ==> #[trigger] self.nodes@[i].outs@[k] != file,
            decreases self.nodes@.len() - b,
        {
            let outs = &self.nodes[b].outs;
            let mut k: usize = 0;
            while k < outs.len()
                invariant
                    b < self.nodes@.len(),
                    outs == self.nodes@[b as int].outs,
                    k <= outs@.len(),
                    forall|j: int| 0 <= j < k ==> outs@[j] != file,
                decreases outs@.len() - k,
            {
                if outs[k].0 == file.0 {
                    assert(self.spec_nodes()[b as int].outs@[k as int] == file);
                    return true;
                }
                k = k + 1;
            }
            b = b + 1;
        }
        false
    }

    /// The number of build nodes.
    pub fn node_count(&self) -> (n: usize)
        ensures
            n == self.spec_nodes().len(),
    {
        self.nodes.len()
    }
}

/// The builder to build a [`BuildGraph`].
///
/// This builder is append-only. You will not be able to remove already-added
/// files or build nodes.
///
/// The builder does not derive edges from the file lists of the nodes:
/// adding one node outputting a file and another with that file as input
/// does not make the latter depend on the former. Add edges with
/// [`Self::add_build_dep`].
pub struct GraphBuilder {
    graph: BuildGraph,
}

impl GraphBuilder {
    /// The build nodes added so far.
    pub closed spec fn spec_nodes(&self) -> Seq<BuildNode> {
        self.graph.spec_nodes()
    }

    /// The file paths added so far.
    pub closed spec fn spec_files(&self) -> Seq<Seq<char>> {
        self.graph.spec_files()
    }

    /// The dependency edges added so far.
    pub closed spec fn spec_edges(&self) -> Seq<(usize, usize)> {
        self.graph.spec_edges()
    }

    /// Well-formedness: no path and no edge is held twice.
    pub open spec fn wf(&self) -> bool {
        &&& distinct_paths(self.spec_files())
        &&& self.spec_edges().no_duplicates()
    }

    /// Create a new, empty build graph.
    pub fn new() -> (b: Self)
        ensures
            b.wf(),
            b.spec_nodes() == Seq::<BuildNode>::empty(),
            b.spec_files() == Seq::<Seq<char>>::empty(),
            b.spec_edges() == Seq::<(usize, usize)>::empty(),
    {
        GraphBuilder {
            graph: BuildGraph { nodes: Vec::new(), files: path_set_new(), graph: dep_graph_new() },
        }
    }

    /// Add a file to the graph, returning its ID. A path that was added
    /// before keeps its ID.
    pub fn add_file_owned(&mut self, path: String) -> (id: FileId)
        requires
            old(self).wf(),
        ensures
            final(self).wf(),
            final(self).spec_nodes() == old(self).spec_nodes(),
            final(self).spec_edges() == old(self).spec_edges(),
            final(self).spec_files() == if old(self).spec_files().contains(path@) {
                old(self).spec_files()
            } else {
                old(self).spec_files().push(path@)
            },
            id.0 < final(self).spec_files().len(),
            final(self).spec_files()[id.0 as int] == path@,
    {
        if let Some(id) = path_set_get_index_of(&self.graph.files, path.as_str()) {
            return FileId(id);
        }
        let id = path_set_len(&self.graph.files);
        let ghost p = path@;
        path_set_insert(&mut self.graph.files, path);
        proof {
            let fs = path_set_entries(self.graph.files);
            assert forall|i: int, j: int| 0 <= i < j < fs.len() implies fs[i] != fs[j] by {
                if j == fs.len() - 1 {
                    assert(fs[j] == p);
                    assert(fs[i] == path_set_entries(old(self).graph.files)[i]);
                }
            }
        }
        FileId(id)
    }

    /// Add a file to the graph, returning its ID. A path that was added
    /// before keeps its ID.
    pub fn add_file(&mut self, path: &str) -> (id: FileId)
        requires
            old(self).wf(),
        ensures
            final(self).wf(),
            final(self).spec_nodes() == old(self).spec_nodes(),
            final(self).spec_edges() == old(self).spec_edges(),
            final(self).spec_files() == if old(self).spec_files().contains(path@) {
                old(self).spec_files()
            } else {
                old(self).spec_files().push(path@)
            },
            id.0 < final(self).spec_files().len(),
            final(self).spec_files()[id.0 as int] == path@,
    {
        if let Some(id) = path_set_get_index_of(&self.graph.files, path) {
            return FileId(id);
        }
        self.add_file_owned(path.to_owned())
    }

    /// Add a build node to the graph, returning its ID.
    pub fn add_build(&mut self, build: BuildNode) -> (id: BuildId)
        requires
            old(self).wf(),
        ensures
            final(self).wf(),
            id.0 == old(self).spec_nodes().len(),
            final(self).spec_nodes() == old(self).spec_nodes().push(build),
            final(self).spec_files() == old(self).spec_files(),
            final(self).spec_edges() == old(self).spec_edges(),
    {
        let id = self.graph.nodes.len();
        self.graph.nodes.push(build);
        BuildId(id)
    }

    /// Add a build dependency edge, where `dependent` relies on the finish of
    /// `dependency` to start.
    pub fn add_build_dep(&mut self, dependent: BuildId, dependency: BuildId)
        requires
            old(self).wf(),
        ensures
            final(self).wf(),
            final(self).spec_nodes() == old(self).spec_nodes(),
            final(self).spec_files() == old(self).spec_files(),
            final(self).spec_edges() == if old(self).spec_edges().contains((dependent.0, dependency.0)) {
                old(self).spec_edges()
            } else {
                old(self).spec_edges().push((dependent.0, dependency.0))
            },
    {
        dep_graph_add_edge(&mut self.graph.graph, dependent, dependency);
        proof {
            let old_e = dep_graph_edges(old(self).graph.graph);
            let e = dep_graph_edges(self.graph.graph);
            if !old_e.contains((dependent.0, dependency.0)) {
                assert forall|i: int, j: int| 0 <= i < e.len() && 0 <= j < e.len() && i != j implies e[i] != e[j] by {
                    if i == e.len() - 1 {
                        assert(old_e.contains(e[j]));
                    } else if j == e.len() - 1 {
                        assert(old_e.contains(e[i]));
                    } else {
                        assert(e[i] == old_e[i] && e[j] == old_e[j]);
                    }
                }
            }
        }
    }

    /// Lookup a file ID by its path.
    pub fn lookup_fileid(&self, path: &str) -> (r: Option<FileId>)
        ensures
            match r {
                Some(id) => id.0 < self.spec_files().len() && self.spec_files()[id.0 as int] == path@,
                None => !self.spec_files().contains(path@),
            },
    {
        self.graph.lookup_fileid(path)
    }

    /// Lookup a path by its file ID.
    pub fn lookup_path(&self, file_id: FileId) -> (r: Option<&String>)
        ensures
            match r {
                Some(p) => file_id.0 < self.spec_files().len() && p@ == self.spec_files()[file_id.0 as int],
                None => file_id.0 >= self.spec_files().len(),
            },
    {
        self.graph.lookup_path(file_id)
    }

    /// Lookup a build node by its build ID.
    pub fn lookup_build(&self, build_id: BuildId) -> (r: Option<&BuildNode>)
        ensures
            match r {
                Some(n) => build_id.0 < self.spec_nodes().len() && *n == self.spec_nodes()[build_id.0 as int],
                None => build_id.0 >= self.spec_nodes().len(),
            },
    {
        self.graph.lookup_build(build_id)
    }

    /// Finish building the graph, returning it unless its dependency edges
    /// form a cycle.
    pub fn build(self) -> (r: Result<BuildGraph, BuildError>)
        requires
            self.wf(),
        ensures
            match r {
                Ok(g) => {
                    &&& !has_cycle(self.spec_edges())
                    &&& g.wf()
                    &&& g.spec_nodes() == self.spec_nodes()
                    &&& g.spec_files() == self.spec_files()
                    &&& g.spec_edges() == self.spec_edges()
                },
                Err(e) => has_cycle(self.spec_edges()) && e == BuildError::ContainsCycle,
            },
    {
        if dep_graph_is_cyclic(&self.graph.graph) {
            return Err(BuildError::ContainsCycle);
        }
        Ok(self.graph)
    }
}


/// Every entry of the out-neighbour list comes from an edge.
pub proof fn lemma_out_neighbors_from_edges(edges: Seq<(usize, usize)>, n: usize, j: int)
    requires
        0 <= j < out_neighbors(edges, n).len(),
    ensures
        exists|e: int| 0 <= e < edges.len() && #[trigger] edges[e] == (n, out_neighbors(edges, n)[j]),
    decreases edges.len(),
{
    let rest = out_neighbors(edges.drop_last(), n);
    if j < rest.len() {
        lemma_out_neighbors_from_edges(edges.drop_last(), n, j);
        let e = choose|e: int|
            0 <= e < edges.drop_last().len() && #[trigger] edges.drop_last()[e] == (n, rest[j]);
        assert(edges[e] == edges.drop_last()[e]);
    } else {
        assert(edges[edges.len() - 1] == (n, out_neighbors(edges, n)[j]));
    }
}

/// Every entry of the in-neighbour list comes from an edge.
pub proof fn lemma_in_neighbors_from_edges(edges: Seq<(usize, usize)>, n: usize, j: int)
    requires
        0 <= j < in_neighbors(edges, n).len(),
    ensures
        exists|e: int| 0 <= e < edges.len() && #[trigger] edges[e] == (in_neighbors(edges, n)[j], n),
    decreases edges.len(),
{
    let rest = in_neighbors(edges.drop_last(), n);
    if j < rest.len() {
        lemma_in_neighbors_from_edges(edges.drop_last(), n, j);
        let e = choose|e: int|
            0 <= e < edges.drop_last().len() && #[trigger] edges.drop_last()[e] == (rest[j], n);
        assert(edges[e] == edges.drop_last()[e]);
    } else {
        assert(edges[edges.len() - 1] == (in_neighbors(edges, n)[j], n));
    }
}

/// Every edge leaving `n` shows up in the out-neighbour list.
pub proof fn lemma_edge_in_out_neighbors(edges: Seq<(usize, usize)>, n: usize, m: usize)
    requires
        edges.contains((n, m)),
    ensures
        out_neighbors(edges, n).contains(m),
    decreases edges.len(),
{
    if edges.last() == (n, m) {
        assert(out_neighbors(edges, n).last() == m);
    } else {
        let k = choose|k: int| 0 <= k < edges.len() && edges[k] == (n, m);
        assert(edges.drop_last()[k] == (n, m));
        lemma_edge_in_out_neighbors(edges.drop_last(), n, m);
        let r = out_neighbors(edges.drop_last(), n);
        let i = choose|i: int| 0 <= i < r.len() && r[i] == m;
        assert(out_neighbors(edges, n)[i] == m);
    }
}

/// Every edge entering `n` shows up in the in-neighbour list.
pub proof fn lemma_edge_in_in_neighbors(edges: Seq<(usize, usize)>, m: usize, n: usize)
    requires
        edges.contains((m, n)),
    ensures
        in_neighbors(edges, n).contains(m),
    decreases edges.len(),
{
    if edges.last() == (m, n) {
        assert(in_neighbors(edges, n).last() == m);
    } else {
        let k = choose|k: int| 0 <= k < edges.len() && edges[k] == (m, n);
        assert(edges.drop_last()[k] == (m, n));
        lemma_edge_in_in_neighbors(edges.drop_last(), m, n);
        let r = in_neighbors(edges.drop_last(), n);
        let i = choose|i: int| 0 <= i < r.len() && r[i] == m;
        assert(in_neighbors(edges, n)[i] == m);
    }
}

/// Without repeated edges, no node is listed twice as a neighbour.
pub proof fn lemma_neighbors_distinct(edges: Seq<(usize, usize)>, n: usize)
    requires
        edges.no_duplicates(),
    ensures
        out_neighbors(edges, n).no_duplicates(),
        in_neighbors(edges, n).no_duplicates(),
    decreases edges.len(),
{
    if edges.len() > 0 {
        let d = edges.drop_last();
        assert(d.no_duplicates());
        lemma_neighbors_distinct(d, n);
        let e = edges.last();
        if e.0 == n {
            let r = out_neighbors(d, n);
            if r.contains(e.1) {
                let i = choose|i: int| 0 <= i < r.len() && r[i] == e.1;
                lemma_out_neighbors_from_edges(d, n, i);
                let k = choose|k: int| 0 <= k < d.len() && #[trigger] d[k] == (n, r[i]);
                assert(edges[k] == edges[edges.len() - 1]);
            }
        }
        if e.1 == n {
            let r = in_neighbors(d, n);
            if r.contains(e.0) {
                let i = choose|i: int| 0 <= i < r.len() && r[i] == e.0;
                lemma_in_neighbors_from_edges(d, n, i);
                let k = choose|k: int| 0 <= k < d.len() && #[trigger] d[k] == (r[i], n);
                assert(edges[k] == edges[edges.len() - 1]);
            }
        }
    }
}

/// There is a walk from `a` to `b` along the edges (possibly of no edge).
pub open spec fn reaches(edges: Seq<(usize, usize)>, a: usize, b: usize) -> bool {
    exists|p: Seq<usize>| p.len() >= 1 && p[0] == a && p.last() == b && #[trigger] is_walk(edges, p)
}

/// Every node reaches itself.
pub proof fn lemma_reaches_refl(edges: Seq<(usize, usize)>, a: usize)
    ensures
        reaches(edges, a, a),
{
    let p = seq![a];
    assert(is_walk(edges, p));
}

/// A walk can be extended at its start by an edge.
pub proof fn lemma_reaches_prepend(edges: Seq<(usize, usize)>, a: usize, b: usize, c: usize)
    requires
        edges.contains((a, b)),
        reaches(edges, b, c),
    ensures
        reaches(edges, a, c),
{
    let p = choose|p: Seq<usize>| p.len() >= 1 && p[0] == b && p.last() == c && #[trigger] is_walk(edges, p);
    let q = seq![a] + p;
    assert forall|i: int| 0 <= i < q.len() - 1 implies #[trigger] edges.contains((q[i], q[i + 1])) by {
        if i > 0 {
            let j = i - 1;
            assert(q[i] == p[j] && q[i + 1] == p[j + 1]);
        }
    }
    assert(is_walk(edges, q));
}

/// An acyclic graph has no edge from a node to itself.
pub proof fn lemma_acyclic_no_self_edge(edges: Seq<(usize, usize)>, a: usize)
    requires
        !has_cycle(edges),
    ensures
        !edges.contains((a, a)),
{
    if edges.contains((a, a)) {
        let p = seq![a, a];
        assert(is_walk(edges, p)) by {
            assert forall|i: int| 0 <= i < p.len() - 1 implies #[trigger] edges.contains((p[i], p[i + 1])) by {
                assert(p[i] == a && p[i + 1] == a);
            }
        }
        assert(p.len() >= 2 && is_walk(edges, p) && p[0] == p.last());
    }
}

/// A walk can be extended by an edge.
pub proof fn lemma_reaches_step(edges: Seq<(usize, usize)>, a: usize, b: usize, c: usize)
    requires
        reaches(edges, a, b),
        edges.contains((b, c)),
    ensures
        reaches(edges, a, c),
{
    let p = choose|p: Seq<usize>| p.len() >= 1 && p[0] == a && p.last() == b && #[trigger] is_walk(edges, p);
    let q = p.push(c);
    assert forall|i: int| 0 <= i < q.len() - 1 implies #[trigger] edges.contains((q[i], q[i + 1])) by {
        if i < p.len() - 1 {
            assert(q[i] == p[i] && q[i + 1] == p[i + 1]);
        }
    }
    assert(is_walk(edges, q));
}

proof fn lemma_walk_prefix_in(edges: Seq<(usize, usize)>, s: Set<usize>, p: Seq<usize>, k: int)
    requires
        is_walk(edges, p),
        0 <= k < p.len(),
        s.contains(p[0]),
        forall|u: usize, v: usize| s.contains(u) && #[trigger] edges.contains((u, v)) ==> s.contains(v),
    ensures
        s.contains(p[k]),
    decreases k,
{
    if k > 0 {
        lemma_walk_prefix_in(edges, s, p, k - 1);
        let j = k - 1;
        assert(edges.contains((p[j], p[j + 1])));
    }
}

proof fn lemma_walk_suffix_in(edges: Seq<(usize, usize)>, s: Set<usize>, p: Seq<usize>, k: int)
    requires
        is_walk(edges, p),
        0 <= k < p.len(),
        s.contains(p.last()),
        forall|u: usize, v: usize| s.contains(u) && #[trigger] edges.contains((v, u)) ==> s.contains(v),
    ensures
        s.contains(p[k]),
    decreases p.len() - k,
{
    if k < p.len() - 1 {
        lemma_walk_suffix_in(edges, s, p, k + 1);
        assert(edges.contains((p[k], p[k + 1])));
    }
}

/// A set that holds `a` and is closed under following edges holds every
/// node that `a` reaches.
pub proof fn lemma_closed_holds_reached(edges: Seq<(usize, usize)>, s: Set<usize>, a: usize, b: usize)
    requires
        s.contains(a),
        forall|u: usize, v: usize| s.contains(u) && #[trigger] edges.contains((u, v)) ==> s.contains(v),
        reaches(edges, a, b),
    ensures
        s.contains(b),
{
    let p = choose|p: Seq<usize>| p.len() >= 1 && p[0] == a && p.last() == b && #[trigger] is_walk(edges, p);
    lemma_walk_prefix_in(edges, s, p, p.len() - 1);
}

/// A set that holds `x` and is closed under following edges backwards holds
/// every node that reaches `x`.
pub proof fn lemma_back_closed_holds_reaching(edges: Seq<(usize, usize)>, s: Set<usize>, x: usize, b: usize)
    requires
        s.contains(x),
        forall|u: usize, v: usize| s.contains(u) && #[trigger] edges.contains((v, u)) ==> s.contains(v),
        reaches(edges, b, x),
    ensures
        s.contains(b),
{
    let p = choose|p: Seq<usize>| p.len() >= 1 && p[0] == b && p.last() == x && #[trigger] is_walk(edges, p);
    lemma_walk_suffix_in(edges, s, p, 0);
}

/// In a graph whose ids are in bounds, dependencies name nodes.
pub proof fn lemma_dependency_in_bounds(g: BuildGraph, b: usize, j: int)
    requires
        g.ids_in_bounds(),
        0 <= j < g.spec_dependencies(b).len(),
    ensures
        g.spec_dependencies(b)[j] < g.spec_nodes().len(),
{
    lemma_out_neighbors_from_edges(g.spec_edges(), b, j);
}

/// In a graph whose ids are in bounds, dependents name nodes.
pub proof fn lemma_dependent_in_bounds(g: BuildGraph, b: usize, j: int)
    requires
        g.ids_in_bounds(),
        0 <= j < g.spec_dependents(b).len(),
    ensures
        g.spec_dependents(b)[j] < g.spec_nodes().len(),
{
    lemma_in_neighbors_from_edges(g.spec_edges(), b, j);
}

} // verus!

mod hash;
pub use hash::{
    be_bytes_u128, build_hash_stream, hash_build, hash_input_set, input_set_digest, input_set_paths,
    lemma_acc_fold_order_independent, lemma_argument_count_separates, lemma_build_hash_layout_independent,
    lemma_input_set_digest_order_independent,
    paths_of, xxh3_128,
};

mod identity;
pub use identity::{all_nul_free, lemma_build_hash_stream_injective, method_tag, nul_free, same_identity, words_nul_free};

mod readable;
pub use readable::{arg_bytes, command_fails, command_written, readable_fails, readable_written, shlex_quoted, QuoteError};
