//! Collections of outside crates that the library keeps: `indexmap`'s
//! `IndexSet` and `IndexMap`, and `petgraph`'s `GraphMap`.
//!
//! Each collection instantiation has a name for what it holds, and each
//! method the library calls has a wrapper whose contract states, over that
//! name, what the crate's source does.

use crate::graph::BuildId;
use indexmap::{IndexMap, IndexSet};
use petgraph::graphmap::{DiGraphMap, GraphMap};
use petgraph::Directed;
use vstd::prelude::*;

verus! {

#[verifier::external_type_specification]
#[verifier::external_body]
#[verifier::reject_recursive_types(T)]
#[verifier::reject_recursive_types(S)]
pub struct ExIndexSet<T, S>(IndexSet<T, S>);

#[verifier::external_type_specification]
#[verifier::external_body]
#[verifier::reject_recursive_types(K)]
#[verifier::reject_recursive_types(V)]
#[verifier::reject_recursive_types(S)]
pub struct ExIndexMap<K, V, S>(IndexMap<K, V, S>);

/// The paths held by an `IndexSet<String>`, in insertion order.
pub uninterp spec fn path_set_entries(s: IndexSet<String>) -> Seq<Seq<char>>;

/// `IndexSet::new`: an empty set.
#[verifier::external_body]
pub(crate) fn path_set_new() -> (s: IndexSet<String>)
    ensures
        path_set_entries(s) == Seq::<Seq<char>>::empty(),
{
    IndexSet::new()
}

/// `IndexSet::get_index_of`: the position of an equal item, if any.
#[verifier::external_body]
pub(crate) fn path_set_get_index_of(s: &IndexSet<String>, p: &str) -> (r: Option<usize>)
    ensures
        match r {
            Some(i) => i < path_set_entries(*s).len() && path_set_entries(*s)[i as int] == p@,
            None => !path_set_entries(*s).contains(p@),
        },
{
    s.get_index_of(p)
}

/// `IndexSet::insert`: appends the item unless an equal one is already held.
#[verifier::external_body]
pub(crate) fn path_set_insert(s: &mut IndexSet<String>, p: String) -> (added: bool)
    ensures
        added == !path_set_entries(*old(s)).contains(p@),
        path_set_entries(*final(s)) == if added {
            path_set_entries(*old(s)).push(p@)
        } else {
            path_set_entries(*old(s))
        },
{
    s.insert(p)
}

/// `IndexSet::len`: the number of items.
#[verifier::external_body]
pub(crate) fn path_set_len(s: &IndexSet<String>) -> (n: usize)
    ensures
        n == path_set_entries(*s).len(),
{
    s.len()
}

/// `IndexSet::get_index`: the item at a position, if it is in bounds.
#[verifier::external_body]
pub(crate) fn path_set_get_index(s: &IndexSet<String>, i: usize) -> (r: Option<&String>)
    ensures
        match r {
            Some(p) => i < path_set_entries(*s).len() && p@ == path_set_entries(*s)[i as int],
            None => i >= path_set_entries(*s).len(),
        },
{
    s.get_index(i)
}


#[verifier::external_type_specification]
#[verifier::external_body]
#[verifier::reject_recursive_types(N)]
#[verifier::reject_recursive_types(E)]
#[verifier::reject_recursive_types(Ty)]
#[verifier::reject_recursive_types(S)]
pub struct ExGraphMap<N, E, Ty, S>(GraphMap<N, E, Ty, S>) where S: std::hash::BuildHasher;

#[verifier::external_type_specification]
#[verifier::external_body]
pub struct ExDirected(Directed);

/// The build indices held by an `IndexSet<usize>`, in insertion order.
pub uninterp spec fn id_set_entries(s: IndexSet<usize>) -> Seq<usize>;

/// `IndexSet::new`: an empty set.
#[verifier::external_body]
pub(crate) fn id_set_new() -> (s: IndexSet<usize>)
    ensures
        id_set_entries(s) == Seq::<usize>::empty(),
{
    IndexSet::new()
}

/// `IndexSet::insert`: appends the item unless it is already held.
#[verifier::external_body]
pub(crate) fn id_set_insert(s: &mut IndexSet<usize>, x: usize) -> (added: bool)
    ensures
        added == !id_set_entries(*old(s)).contains(x),
        id_set_entries(*final(s)) == if added {
            id_set_entries(*old(s)).push(x)
        } else {
            id_set_entries(*old(s))
        },
{
    s.insert(x)
}

/// `IndexSet::pop`: removes and returns the last item, if any.
#[verifier::external_body]
pub(crate) fn id_set_pop(s: &mut IndexSet<usize>) -> (r: Option<usize>)
    ensures
        id_set_entries(*old(s)).len() == 0 ==> r is None && id_set_entries(*final(s)) == id_set_entries(*old(s)),
        id_set_entries(*old(s)).len() > 0 ==> r == Some(id_set_entries(*old(s)).last())
            && id_set_entries(*final(s)) == id_set_entries(*old(s)).drop_last(),
{
    s.pop()
}

/// The edges held by the build dependency graph, as `(from, to)` pairs of
/// build indices, in the order in which each edge was first added.
pub uninterp spec fn dep_graph_edges(g: DiGraphMap<BuildId, ()>) -> Seq<(usize, usize)>;

/// The targets of the edges leaving `n`, in edge order.
pub open spec fn out_neighbors(edges: Seq<(usize, usize)>, n: usize) -> Seq<usize>
    decreases edges.len(),
{
    if edges.len() == 0 {
        Seq::empty()
    } else {
        let rest = out_neighbors(edges.drop_last(), n);
        if edges.last().0 == n {
            rest.push(edges.last().1)
        } else {
            rest
        }
    }
}

/// The sources of the edges entering `n`, in edge order.
pub open spec fn in_neighbors(edges: Seq<(usize, usize)>, n: usize) -> Seq<usize>
    decreases edges.len(),
{
    if edges.len() == 0 {
        Seq::empty()
    } else {
        let rest = in_neighbors(edges.drop_last(), n);
        if edges.last().1 == n {
            rest.push(edges.last().0)
        } else {
            rest
        }
    }
}

/// `p` is a walk along the edges: every two consecutive nodes are joined by
/// an edge.
pub open spec fn is_walk(edges: Seq<(usize, usize)>, p: Seq<usize>) -> bool {
    forall|i: int| 0 <= i < p.len() - 1 ==> #[trigger] edges.contains((p[i], p[i + 1]))
}

/// The directed graph holds a cycle: a walk of at least one edge that ends
/// where it started.
pub open spec fn has_cycle(edges: Seq<(usize, usize)>) -> bool {
    exists|p: Seq<usize>| p.len() >= 2 && is_walk(edges, p) && p[0] == p.last()
}

/// `GraphMap::new`: a graph without nodes or edges.
#[verifier::external_body]
pub(crate) fn dep_graph_new() -> (g: DiGraphMap<BuildId, ()>)
    ensures
        dep_graph_edges(g) == Seq::<(usize, usize)>::empty(),
{
    DiGraphMap::new()
}

/// `GraphMap::add_edge`: records the edge `a -> b` unless it is already
/// held; a repeated edge keeps its place.
#[verifier::external_body]
pub(crate) fn dep_graph_add_edge(g: &mut DiGraphMap<BuildId, ()>, a: BuildId, b: BuildId)
    ensures
        dep_graph_edges(*final(g)) == if dep_graph_edges(*old(g)).contains((a.0, b.0)) {
            dep_graph_edges(*old(g))
        } else {
            dep_graph_edges(*old(g)).push((a.0, b.0))
        },
{
    g.add_edge(a, b, ());
}

/// `GraphMap::neighbors_directed`, collected: with `outgoing` the targets
/// of the edges leaving `n`, otherwise the sources of the edges entering
/// `n`, each in edge order.
#[verifier::external_body]
pub(crate) fn dep_graph_neighbors(g: &DiGraphMap<BuildId, ()>, n: BuildId, outgoing: bool) -> (r: Vec<BuildId>)
    ensures
        r@.map_values(|b: BuildId| b.0) == if outgoing {
            out_neighbors(dep_graph_edges(*g), n.0)
        } else {
            in_neighbors(dep_graph_edges(*g), n.0)
        },
{
    let dir = if outgoing { petgraph::Direction::Outgoing } else { petgraph::Direction::Incoming };
    g.neighbors_directed(n, dir).collect()
}

/// `petgraph::algo::is_cyclic_directed`: whether the graph holds a cycle.
#[verifier::external_body]
pub(crate) fn dep_graph_is_cyclic(g: &DiGraphMap<BuildId, ()>) -> (r: bool)
    ensures
        r == has_cycle(dep_graph_edges(*g)),
{
    petgraph::algo::is_cyclic_directed(g)
}

/// What an `IndexMap<String, String>` holds: the value of each key.
pub uninterp spec fn text_map_contents(m: IndexMap<String, String>) -> Map<Seq<char>, Seq<char>>;

/// `IndexMap::new`: an empty map.
#[verifier::external_body]
pub(crate) fn text_map_new() -> (r: IndexMap<String, String>)
    ensures
        text_map_contents(r).dom() == Set::<Seq<char>>::empty(),
{
    IndexMap::new()
}

/// `IndexMap::get`: the value of a key, if the map holds it.
#[verifier::external_body]
pub(crate) fn text_map_get<'a>(m: &'a IndexMap<String, String>, k: &str) -> (r: Option<&'a String>)
    ensures
        match r {
            Some(v) => text_map_contents(*m).contains_key(k@) && text_map_contents(*m)[k@] == v@,
            None => !text_map_contents(*m).contains_key(k@),
        },
{
    m.get(k)
}

/// `IndexMap::insert`: sets the value of a key, and hands back the value it
/// replaced, if any.
#[verifier::external_body]
pub(crate) fn text_map_insert(m: &mut IndexMap<String, String>, k: String, v: String) -> (r: Option<String>)
    ensures
        text_map_contents(*final(m)) == text_map_contents(*old(m)).insert(k@, v@),
        match r {
            Some(x) => text_map_contents(*old(m)).contains_key(k@) && text_map_contents(*old(m))[k@] == x@,
            None => !text_map_contents(*old(m)).contains_key(k@),
        },
{
    m.insert(k, v)
}

/// What an `IndexMap<String, usize>` holds: the index of each key.
pub uninterp spec fn index_map_contents(m: IndexMap<String, usize>) -> Map<Seq<char>, usize>;

/// `IndexMap::new`: an empty map.
#[verifier::external_body]
pub(crate) fn index_map_new() -> (r: IndexMap<String, usize>)
    ensures
        index_map_contents(r).dom() == Set::<Seq<char>>::empty(),
{
    IndexMap::new()
}

/// `IndexMap::get`: the index of a key, if the map holds it.
#[verifier::external_body]
pub(crate) fn index_map_get(m: &IndexMap<String, usize>, k: &str) -> (r: Option<usize>)
    ensures
        match r {
            Some(v) => index_map_contents(*m).contains_key(k@) && index_map_contents(*m)[k@] == v,
            None => !index_map_contents(*m).contains_key(k@),
        },
{
    m.get(k).copied()
}

/// `IndexMap::insert`: sets the index of a key, and hands back the index it
/// replaced, if any.
#[verifier::external_body]
pub(crate) fn index_map_insert(m: &mut IndexMap<String, usize>, k: String, v: usize) -> (r: Option<usize>)
    ensures
        index_map_contents(*final(m)) == index_map_contents(*old(m)).insert(k@, v),
        match r {
            Some(x) => index_map_contents(*old(m)).contains_key(k@) && index_map_contents(*old(m))[k@] == x,
            None => !index_map_contents(*old(m)).contains_key(k@),
        },
{
    m.insert(k, v)
}

} // verus!
