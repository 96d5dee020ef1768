//! Turning a parsed Ninja file into a build graph.

use crate::collections::has_cycle;
use crate::graph::{paths_of, BuildCommand, BuildError, BuildGraph, BuildId, BuildMethod, BuildNode, FileId, GraphBuilder};
use crate::ninja::model::{strs, Build, BuildView, FileView, NinjaFile, PhonyView};
use crate::collections::index_map_get;
use vstd::hash_map::HashMapWithView;
use vstd::prelude::*;

verus! {

/// The paths a list of names stands for, where a phony name stands for the
/// inputs of its phony statement, recursively to at most `fuel` levels.
/// With `split`, the order-only inputs of phony statements are given apart,
/// second; without it they are given with the others.
pub open spec fn desugar_list(
    phony: Map<Seq<char>, PhonyView>,
    names: Seq<Seq<char>>,
    fuel: nat,
    split: bool,
) -> (Seq<Seq<char>>, Seq<Seq<char>>)
    decreases fuel, names.len() + 1,
{
    if names.len() == 0 {
        (Seq::empty(), Seq::empty())
    } else {
        let (a, b) = desugar_list(phony, names.drop_last(), fuel, split);
        let (c, d) = desugar(phony, names.last(), fuel, split);
        (a + c, b + d)
    }
}

/// The paths a name stands for: itself if it is not phony or `fuel` is
/// spent, else the inputs and implicit inputs of its phony statement, and
/// its order-only inputs, apart with `split`.
pub open spec fn desugar(phony: Map<Seq<char>, PhonyView>, name: Seq<char>, fuel: nat, split: bool) -> (
    Seq<Seq<char>>,
    Seq<Seq<char>>,
)
    decreases fuel, 0nat,
{
    if fuel > 0 && phony.contains_key(name) {
        let p = phony[name];
        let (m1, o1) = desugar_list(phony, p.inputs, (fuel - 1) as nat, split);
        let (m2, o2) = desugar_list(phony, p.implicit_inputs, (fuel - 1) as nat, split);
        let (m3, o3) = desugar_list(phony, p.order_only_inputs, (fuel - 1) as nat, false);
        if split {
            (m1 + m2, o1 + o2 + m3)
        } else {
            (m1 + m2 + m3, o1 + o2)
        }
    } else {
        (seq![name], Seq::empty())
    }
}

/// Every id names a file of the list.
pub open spec fn ids_valid(ids: Seq<FileId>, files: Seq<Seq<char>>) -> bool {
    forall|i: int| 0 <= i < ids.len() ==> (#[trigger] ids[i]).0 < files.len()
}

/// `new` keeps the entries of `old` and may add more after them.
pub open spec fn extends<A>(old: Seq<A>, new: Seq<A>) -> bool {
    old.len() <= new.len() && new.subrange(0, old.len() as int) == old
}

/// Growing a list twice grows it.
proof fn lemma_extends_trans<A>(a: Seq<A>, b: Seq<A>, c: Seq<A>)
    requires
        extends(a, b),
        extends(b, c),
    ensures
        extends(a, c),
{
    assert(c.subrange(0, a.len() as int) =~= c.subrange(0, b.len() as int).subrange(0, a.len() as int));
}

/// The paths of valid ids stay the same when the list of files grows.
proof fn lemma_paths_stable(ids: Seq<FileId>, f1: Seq<Seq<char>>, f2: Seq<Seq<char>>)
    requires
        ids_valid(ids, f1),
        extends(f1, f2),
    ensures
        ids_valid(ids, f2),
        paths_of(ids, f2) == paths_of(ids, f1),
{
    assert forall|i: int| 0 <= i < ids.len() implies paths_of(ids, f2)[i] == paths_of(ids, f1)[i] by {
        assert(f2.subrange(0, f1.len() as int)[ids[i].0 as int] == f1[ids[i].0 as int]);
    }
    assert(paths_of(ids, f2) =~= paths_of(ids, f1));
}

/// Add the paths a name stands for.
fn desugar_name(
    ninja: &NinjaFile,
    builder: &mut GraphBuilder,
    out: &mut Vec<FileId>,
    order_only: &mut Vec<FileId>,
    split: bool,
    file: &str,
    fuel: usize,
)
    requires
        ninja.wf(),
        old(builder).wf(),
        ids_valid(old(out)@, old(builder).spec_files()),
        ids_valid(old(order_only)@, old(builder).spec_files()),
    ensures
        final(builder).wf(),
        final(builder).spec_nodes() == old(builder).spec_nodes(),
        final(builder).spec_edges() == old(builder).spec_edges(),
        extends(old(builder).spec_files(), final(builder).spec_files()),
        ids_valid(final(out)@, final(builder).spec_files()),
        ids_valid(final(order_only)@, final(builder).spec_files()),
        paths_of(final(out)@, final(builder).spec_files()) == paths_of(old(out)@, old(builder).spec_files()) + desugar(
            ninja@.phony,
            file@,
            fuel as nat,
            split,
        ).0,
        paths_of(final(order_only)@, final(builder).spec_files()) == paths_of(old(order_only)@, old(builder).spec_files())
            + desugar(ninja@.phony, file@, fuel as nat, split).1,
    decreases fuel, 0nat,
{
    let ghost ph = ninja@.phony;
    let found = if fuel > 0 {
        index_map_get(&ninja.phony, file)
    } else {
        None
    };
    match found {
        Some(idx) => {
            let p = &ninja.phony_list[idx];
            assert(ph[file@] == p@);
            let ghost f0 = builder.spec_files();
            let ghost out0 = paths_of(out@, f0);
            let ghost oo0 = paths_of(order_only@, f0);
            desugar_names(ninja, builder, out, order_only, split, &p.inputs, fuel - 1);
            let ghost f1 = builder.spec_files();
            desugar_names(ninja, builder, out, order_only, split, &p.implicit_inputs, fuel - 1);
            let ghost f2 = builder.spec_files();
            proof {
                lemma_extends_trans(f0, f1, f2);
            }
            let mut scratch: Vec<FileId> = Vec::new();
            assert(ids_valid(scratch@, builder.spec_files()));
            if split {
                let ghost ob = out@;
                desugar_names(ninja, builder, order_only, &mut scratch, false, &p.order_only_inputs, fuel - 1);
                proof {
                    lemma_paths_stable(ob, f2, builder.spec_files());
                }
            } else {
                let ghost oob = order_only@;
                desugar_names(ninja, builder, out, &mut scratch, false, &p.order_only_inputs, fuel - 1);
                proof {
                    lemma_paths_stable(oob, f2, builder.spec_files());
                    assert(paths_of(oob, f2) =~= paths_of(oob, f2) + Seq::<Seq<char>>::empty());
                }
            }
            proof {
                lemma_extends_trans(f0, f2, builder.spec_files());
                let (m1, o1) = desugar_list(ph, p@.inputs, (fuel - 1) as nat, split);
                let (m2, o2) = desugar_list(ph, p@.implicit_inputs, (fuel - 1) as nat, split);
                let (m3, o3) = desugar_list(ph, p@.order_only_inputs, (fuel - 1) as nat, false);
                if split {
                    assert(out0 + m1 + m2 =~= out0 + (m1 + m2));
                    assert(oo0 + o1 + o2 + m3 =~= oo0 + (o1 + o2 + m3));
                } else {
                    assert(out0 + m1 + m2 + m3 =~= out0 + (m1 + m2 + m3));
                    assert(oo0 + o1 + o2 =~= oo0 + (o1 + o2));
                }
            }
        },
        None => {
            let ghost f0 = builder.spec_files();
            let fid = builder.add_file(file);
            proof {
                assert(builder.spec_files().subrange(0, f0.len() as int) =~= f0);
                lemma_paths_stable(out@, f0, builder.spec_files());
                lemma_paths_stable(order_only@, f0, builder.spec_files());
            }
            let ghost ob = out@;
            out.push(fid);
            proof {
                assert(paths_of(out@, builder.spec_files()) =~= paths_of(ob, builder.spec_files()).push(file@));
                assert(paths_of(order_only@, builder.spec_files()) =~= paths_of(order_only@, builder.spec_files())
                    + Seq::<Seq<char>>::empty());
            }
        },
    }
}

/// Add the paths each of the names stands for.
fn desugar_names(
    ninja: &NinjaFile,
    builder: &mut GraphBuilder,
    out: &mut Vec<FileId>,
    order_only: &mut Vec<FileId>,
    split: bool,
    names: &Vec<String>,
    fuel: usize,
)
    requires
        ninja.wf(),
        old(builder).wf(),
        ids_valid(old(out)@, old(builder).spec_files()),
        ids_valid(old(order_only)@, old(builder).spec_files()),
    ensures
        final(builder).wf(),
        final(builder).spec_nodes() == old(builder).spec_nodes(),
        final(builder).spec_edges() == old(builder).spec_edges(),
        extends(old(builder).spec_files(), final(builder).spec_files()),
        ids_valid(final(out)@, final(builder).spec_files()),
        ids_valid(final(order_only)@, final(builder).spec_files()),
        paths_of(final(out)@, final(builder).spec_files()) == paths_of(old(out)@, old(builder).spec_files())
            + desugar_list(ninja@.phony, strs(names@), fuel as nat, split).0,
        paths_of(final(order_only)@, final(builder).spec_files()) == paths_of(old(order_only)@, old(builder).spec_files())
            + desugar_list(ninja@.phony, strs(names@), fuel as nat, split).1,
    decreases fuel, 1nat,
{
    let ghost ph = ninja@.phony;
    let ghost ns = strs(names@);
    let ghost f0 = builder.spec_files();
    let ghost out0 = paths_of(out@, f0);
    let ghost oo0 = paths_of(order_only@, f0);
    let mut i: usize = 0;
    proof {
        assert(out0 =~= out0 + Seq::<Seq<char>>::empty());
        assert(oo0 =~= oo0 + Seq::<Seq<char>>::empty());
        assert(ns.subrange(0, 0) =~= Seq::<Seq<char>>::empty());
        assert(builder.spec_files().subrange(0, f0.len() as int) =~= f0);
    }
    while i < names.len()
        invariant
            ninja.wf(),
            builder.wf(),
            ph == ninja@.phony,
            ns == strs(names@),
            i <= names@.len(),
            builder.spec_nodes() == old(builder).spec_nodes(),
            builder.spec_edges() == old(builder).spec_edges(),
            f0 == old(builder).spec_files(),
            extends(f0, builder.spec_files()),
            ids_valid(out@, builder.spec_files()),
            ids_valid(order_only@, builder.spec_files()),
            out0 == paths_of(old(out)@, f0),
            oo0 == paths_of(old(order_only)@, f0),
            paths_of(out@, builder.spec_files()) == out0 + desugar_list(ph, ns.subrange(0, i as int), fuel as nat, split).0,
            paths_of(order_only@, builder.spec_files()) == oo0 + desugar_list(ph, ns.subrange(0, i as int), fuel as nat, split).1,
        decreases names@.len() - i,
    {
        let ghost fb = builder.spec_files();
        let ghost ob = paths_of(out@, fb);
        let ghost oob = paths_of(order_only@, fb);
        desugar_name(ninja, builder, out, order_only, split, names[i].as_str(), fuel);
        proof {
            let pre = ns.subrange(0, i as int);
            let post = ns.subrange(0, i + 1);
            assert(post.drop_last() =~= pre);
            assert(post.last() == names@[i as int]@);
            let (a, b) = desugar_list(ph, pre, fuel as nat, split);
            let (c, d) = desugar(ph, names@[i as int]@, fuel as nat, split);
            assert(out0 + a + c =~= out0 + (a + c));
            assert(oo0 + b + d =~= oo0 + (b + d));
            assert(extends(f0, builder.spec_files())) by {
                assert(builder.spec_files().subrange(0, f0.len() as int) =~= builder.spec_files().subrange(
                    0,
                    fb.len() as int,
                ).subrange(0, f0.len() as int));
            }
        }
        i = i + 1;
    }
    proof {
        assert(ns.subrange(0, i as int) =~= ns);
    }
}

/// How deep phony names are followed: one level more than there are phony
/// statements, which is as deep as they go without a cycle.
pub open spec fn phony_fuel(ninja: NinjaFile) -> nat {
    if ninja.phony_list@.len() < usize::MAX {
        ninja.phony_list@.len() + 1
    } else {
        ninja.phony_list@.len()
    }
}

/// The input paths of the node of a build statement: its inputs and
/// implicit inputs, phony names followed.
pub open spec fn node_ins(ph: Map<Seq<char>, PhonyView>, b: BuildView, fuel: nat) -> Seq<Seq<char>> {
    desugar_list(ph, b.inputs, fuel, true).0 + desugar_list(ph, b.implicit_inputs, fuel, true).0
}

/// The order-only input paths of a build statement: those phony names in
/// its inputs bring, then its own order-only inputs.
pub open spec fn node_order_only(ph: Map<Seq<char>, PhonyView>, b: BuildView, fuel: nat) -> Seq<Seq<char>> {
    desugar_list(ph, b.inputs, fuel, true).1 + desugar_list(ph, b.implicit_inputs, fuel, true).1 + desugar_list(
        ph,
        b.order_only_inputs,
        fuel,
        false,
    ).0
}

/// The output paths of the node of a build statement.
pub open spec fn node_outs(ph: Map<Seq<char>, PhonyView>, b: BuildView, fuel: nat) -> Seq<Seq<char>> {
    desugar_list(ph, b.outputs, fuel, false).0
}

/// The paths a build statement waits for: its inputs and its order-only
/// inputs.
pub open spec fn dep_paths(ph: Map<Seq<char>, PhonyView>, b: BuildView, fuel: nat) -> Seq<Seq<char>> {
    node_ins(ph, b, fuel) + node_order_only(ph, b, fuel)
}

/// The node of a build statement: it runs the command with `sh -c`, and
/// has the statement's input and output paths and description.
pub open spec fn node_describes(
    node: BuildNode,
    files: Seq<Seq<char>>,
    b: BuildView,
    ph: Map<Seq<char>, PhonyView>,
    fuel: nat,
) -> bool {
    &&& node.command is SubCommand
    &&& node.command->SubCommand_0.executable@ == seq!['s', 'h']
    &&& strs(node.command->SubCommand_0.args@) == seq![seq!['-', 'c'], b.command]
    &&& ids_valid(node.ins@, files)
    &&& ids_valid(node.outs@, files)
    &&& paths_of(node.ins@, files) == node_ins(ph, b, fuel)
    &&& paths_of(node.outs@, files) == node_outs(ph, b, fuel)
    &&& crate::ninja::model::opt_view(node.description) == b.description
}

/// The first `k` nodes are those of the first `k` build statements.
pub open spec fn nodes_describe(
    nodes: Seq<BuildNode>,
    files: Seq<Seq<char>>,
    builds: Seq<BuildView>,
    ph: Map<Seq<char>, PhonyView>,
    fuel: nat,
    k: nat,
) -> bool {
    &&& nodes.len() == k
    &&& k <= builds.len()
    &&& forall|i: int| 0 <= i < k ==> node_describes(#[trigger] nodes[i], files, builds[i], ph, fuel)
}

/// Each edge goes from a build to one that produces a path it waits for.
pub open spec fn edges_sound(
    edges: Seq<(usize, usize)>,
    builds: Seq<BuildView>,
    ph: Map<Seq<char>, PhonyView>,
    fuel: nat,
    k: nat,
) -> bool {
    forall|i: int|
        0 <= i < edges.len() ==> (#[trigger] edges[i]).0 < k && edges[i].1 < k && exists|p: Seq<char>|
            dep_paths(ph, builds[edges[i].0 as int], fuel).contains(p) && node_outs(
                ph,
                builds[edges[i].1 as int],
                fuel,
            ).contains(p)
}

/// Each build among the first `k` that waits for a path produced by one of
/// them has an edge to one that produces it.
pub open spec fn edges_complete(
    edges: Seq<(usize, usize)>,
    builds: Seq<BuildView>,
    ph: Map<Seq<char>, PhonyView>,
    fuel: nat,
    k: nat,
) -> bool {
    forall|a: int, b: int, p: Seq<char>|
        0 <= a < k && 0 <= b < k && #[trigger] dep_paths(ph, builds[a], fuel).contains(p) && #[trigger] node_outs(
            ph,
            builds[b],
            fuel,
        ).contains(p) ==> exists|b2: usize|
            b2 < k && #[trigger] edges.contains((a as usize, b2)) && node_outs(ph, builds[b2 as int], fuel).contains(p)
}

/// Build `b` produces path `p`.
pub open spec fn produces(ph: Map<Seq<char>, PhonyView>, builds: Seq<BuildView>, fuel: nat, b: int, p: Seq<char>) -> bool {
    node_outs(ph, builds[b], fuel).contains(p)
}

/// The last build at or before `upto` that produces path `p`, if any.
pub open spec fn last_producer(
    ph: Map<Seq<char>, PhonyView>,
    builds: Seq<BuildView>,
    fuel: nat,
    p: Seq<char>,
    upto: int,
) -> Option<int>
    decreases upto + 1,
{
    if upto < 0 {
        None
    } else if produces(ph, builds, fuel, upto, p) {
        Some(upto)
    } else {
        last_producer(ph, builds, fuel, p, upto - 1)
    }
}

/// The first build from `from` on, and before `n`, that produces path `p`,
/// if any.
pub open spec fn first_producer(
    ph: Map<Seq<char>, PhonyView>,
    builds: Seq<BuildView>,
    fuel: nat,
    p: Seq<char>,
    from: int,
    n: int,
) -> Option<int>
    decreases n - from,
{
    if from >= n {
        None
    } else if produces(ph, builds, fuel, from, p) {
        Some(from)
    } else {
        first_producer(ph, builds, fuel, p, from + 1, n)
    }
}

/// The build that build `a`, among the first `n`, waits for to have path
/// `p`: the last one up to `a` itself that produces it, or where there is
/// none, the first one after `a`.
pub open spec fn awaited_producer(
    ph: Map<Seq<char>, PhonyView>,
    builds: Seq<BuildView>,
    fuel: nat,
    n: nat,
    a: int,
    p: Seq<char>,
) -> Option<int> {
    match last_producer(ph, builds, fuel, p, a) {
        Some(b) => Some(b),
        None => first_producer(ph, builds, fuel, p, a + 1, n as int),
    }
}

/// What the last producer up to a point is.
proof fn lemma_last_producer(ph: Map<Seq<char>, PhonyView>, builds: Seq<BuildView>, fuel: nat, p: Seq<char>, upto: int)
    requires
        upto >= -1,
    ensures
        match last_producer(ph, builds, fuel, p, upto) {
            Some(b) => 0 <= b <= upto && produces(ph, builds, fuel, b, p) && forall|c: int|
                b < c <= upto ==> !#[trigger] produces(ph, builds, fuel, c, p),
            None => forall|c: int| 0 <= c <= upto ==> !#[trigger] produces(ph, builds, fuel, c, p),
        },
    decreases upto + 1,
{
    if upto >= 0 && !produces(ph, builds, fuel, upto, p) {
        lemma_last_producer(ph, builds, fuel, p, upto - 1);
    }
}

/// What the first producer from a point on is.
proof fn lemma_first_producer(
    ph: Map<Seq<char>, PhonyView>,
    builds: Seq<BuildView>,
    fuel: nat,
    p: Seq<char>,
    from: int,
    n: int,
)
    ensures
        match first_producer(ph, builds, fuel, p, from, n) {
            Some(b) => from <= b < n && produces(ph, builds, fuel, b, p) && forall|c: int|
                from <= c < b ==> !#[trigger] produces(ph, builds, fuel, c, p),
            None => forall|c: int| from <= c < n ==> !#[trigger] produces(ph, builds, fuel, c, p),
        },
    decreases n - from,
{
    if from < n && !produces(ph, builds, fuel, from, p) {
        lemma_first_producer(ph, builds, fuel, p, from + 1, n);
    }
}

/// What the producer a build waits for is.
proof fn lemma_awaited_producer(
    ph: Map<Seq<char>, PhonyView>,
    builds: Seq<BuildView>,
    fuel: nat,
    n: nat,
    a: int,
    p: Seq<char>,
)
    requires
        0 <= a,
    ensures
        match awaited_producer(ph, builds, fuel, n, a, p) {
            Some(b) => produces(ph, builds, fuel, b, p) && 0 <= b && (b <= a ==> forall|c: int|
                b < c <= a ==> !#[trigger] produces(ph, builds, fuel, c, p)) && (b > a ==> b < n && forall|c: int|
                0 <= c < b ==> !#[trigger] produces(ph, builds, fuel, c, p)),
            None => forall|c: int| 0 <= c < n ==> !#[trigger] produces(ph, builds, fuel, c, p),
        },
{
    lemma_last_producer(ph, builds, fuel, p, a);
    lemma_first_producer(ph, builds, fuel, p, a + 1, n as int);
}

/// Edge `(a, b)` is one the graph should have: `a` waits for a path of
/// which `b` is the awaited producer.
pub open spec fn edge_justified(
    builds: Seq<BuildView>,
    ph: Map<Seq<char>, PhonyView>,
    fuel: nat,
    n: nat,
    a: int,
    b: int,
) -> bool {
    exists|p: Seq<char>|
        dep_paths(ph, builds[a], fuel).contains(p) && #[trigger] awaited_producer(ph, builds, fuel, n, a, p) == Some(b)
}

/// Every edge is one the graph should have.
pub open spec fn edges_justified(
    edges: Seq<(usize, usize)>,
    builds: Seq<BuildView>,
    ph: Map<Seq<char>, PhonyView>,
    fuel: nat,
    n: nat,
) -> bool {
    forall|i: int| 0 <= i < edges.len() ==> edge_justified(builds, ph, fuel, n, (#[trigger] edges[i]).0 as int, edges[i].1 as int)
}

/// Each build before `ka` has an edge to the awaited producer of each path
/// it waits for, where that producer is before `kb`.
pub open spec fn edges_cover(
    edges: Seq<(usize, usize)>,
    builds: Seq<BuildView>,
    ph: Map<Seq<char>, PhonyView>,
    fuel: nat,
    n: nat,
    ka: nat,
    kb: nat,
) -> bool {
    forall|a: int, p: Seq<char>|
        0 <= a < ka && #[trigger] dep_paths(ph, builds[a], fuel).contains(p) && #[trigger] awaited_producer(
            ph,
            builds,
            fuel,
            n,
            a,
            p,
        ) is Some && awaited_producer(ph, builds, fuel, n, a, p)->0 < kb ==> edges.contains(
            (a as usize, awaited_producer(ph, builds, fuel, n, a, p)->0 as usize),
        )
}

/// A build waits for the first producer after it of a path that no build
/// before that producer produces.
proof fn lemma_awaited_is_first(
    ph: Map<Seq<char>, PhonyView>,
    builds: Seq<BuildView>,
    fuel: nat,
    n: nat,
    a: int,
    id: int,
    p: Seq<char>,
)
    requires
        0 <= a < id < n,
        produces(ph, builds, fuel, id, p),
        forall|c: int| 0 <= c < id ==> !#[trigger] produces(ph, builds, fuel, c, p),
    ensures
        awaited_producer(ph, builds, fuel, n, a, p) == Some(id),
{
    lemma_awaited_producer(ph, builds, fuel, n, a, p);
    match awaited_producer(ph, builds, fuel, n, a, p) {
        Some(b) => {
            if b < id {
                assert(produces(ph, builds, fuel, b, p));
            } else if b > id {
                if b <= a {
                } else {
                    assert(!produces(ph, builds, fuel, id, p));
                }
            }
        },
        None => {
            assert(!produces(ph, builds, fuel, id, p));
        },
    }
}

/// A build waits for the last producer up to itself of a path, where
/// there is one.
proof fn lemma_awaited_is_last(
    ph: Map<Seq<char>, PhonyView>,
    builds: Seq<BuildView>,
    fuel: nat,
    n: nat,
    a: int,
    b: int,
    p: Seq<char>,
)
    requires
        0 <= b <= a,
        produces(ph, builds, fuel, b, p),
        forall|c: int| b < c <= a ==> !#[trigger] produces(ph, builds, fuel, c, p),
    ensures
        awaited_producer(ph, builds, fuel, n, a, p) == Some(b),
{
    lemma_last_producer(ph, builds, fuel, p, a);
    match last_producer(ph, builds, fuel, p, a) {
        Some(x) => {
            if x < b {
                assert(!produces(ph, builds, fuel, b, p));
            } else if x > b {
                assert(!produces(ph, builds, fuel, x, p));
            }
        },
        None => {
            assert(!produces(ph, builds, fuel, b, p));
        },
    }
}

/// Covering stays so as edges are added.
proof fn lemma_cover_grows(
    e1: Seq<(usize, usize)>,
    e2: Seq<(usize, usize)>,
    builds: Seq<BuildView>,
    ph: Map<Seq<char>, PhonyView>,
    fuel: nat,
    n: nat,
    ka: nat,
    kb: nat,
)
    requires
        edges_cover(e1, builds, ph, fuel, n, ka, kb),
        forall|e: (usize, usize)| e1.contains(e) ==> #[trigger] e2.contains(e),
    ensures
        edges_cover(e2, builds, ph, fuel, n, ka, kb),
{
}

/// A file with no known producer, while every output of the first `k`
/// nodes has one, is produced by none of them.
proof fn lemma_no_earlier_producer(
    bof: Map<usize, usize>,
    nodes: Seq<BuildNode>,
    files: Seq<Seq<char>>,
    builds: Seq<BuildView>,
    ph: Map<Seq<char>, PhonyView>,
    fuel: nat,
    kn: nat,
    k: nat,
    f: usize,
)
    requires
        crate::graph::distinct_paths(files),
        nodes_describe(nodes, files, builds, ph, fuel, kn),
        k <= kn,
        forall|i: int, j: int| 0 <= i < k && 0 <= j < nodes[i].outs@.len() ==> bof.contains_key(#[trigger] nodes[i].outs@[j].0),
        f < files.len(),
        !bof.contains_key(f),
    ensures
        forall|c: int| 0 <= c < k ==> !#[trigger] produces(ph, builds, fuel, c, files[f as int]),
{
    assert forall|c: int| 0 <= c < k implies !#[trigger] produces(ph, builds, fuel, c, files[f as int]) by {
        if produces(ph, builds, fuel, c, files[f as int]) {
            assert(node_describes(nodes[c], files, builds[c], ph, fuel));
            let po = paths_of(nodes[c].outs@, files);
            let j = choose|j: int| 0 <= j < po.len() && po[j] == files[f as int];
            assert(bof.contains_key(nodes[c].outs@[j].0));
            assert(nodes[c].outs@[j].0 == f);
        }
    }
}

/// The graph holds one node per build statement, and exactly the edges
/// from each build to the awaited producer of each path it waits for: the
/// last build up to itself that produces the path, or where none does, the
/// first one after it.
pub open spec fn graph_describes(
    nodes: Seq<BuildNode>,
    files: Seq<Seq<char>>,
    edges: Seq<(usize, usize)>,
    fv: FileView,
    fuel: nat,
) -> bool {
    &&& nodes_describe(nodes, files, fv.builds, fv.phony, fuel, fv.builds.len())
    &&& edges_sound(edges, fv.builds, fv.phony, fuel, fv.builds.len())
    &&& edges_complete(edges, fv.builds, fv.phony, fuel, fv.builds.len())
    &&& edges_justified(edges, fv.builds, fv.phony, fuel, fv.builds.len())
    &&& edges_cover(edges, fv.builds, fv.phony, fuel, fv.builds.len(), fv.builds.len(), fv.builds.len())
}

/// The producer known for each file produces it, and every output of the
/// first `k` nodes has a known producer.
pub open spec fn producers_known(
    bof: Map<usize, usize>,
    nodes: Seq<BuildNode>,
    files: Seq<Seq<char>>,
    builds: Seq<BuildView>,
    ph: Map<Seq<char>, PhonyView>,
    fuel: nat,
    k: nat,
) -> bool {
    &&& producers_sound(bof, files, builds, ph, fuel, k)
    &&& forall|i: int, j: int|
        0 <= i < k && 0 <= j < nodes[i].outs@.len() ==> bof.contains_key(#[trigger] nodes[i].outs@[j].0)
}

/// The producer known for each file produces it.
pub open spec fn producers_sound(
    bof: Map<usize, usize>,
    files: Seq<Seq<char>>,
    builds: Seq<BuildView>,
    ph: Map<Seq<char>, PhonyView>,
    fuel: nat,
    k: nat,
) -> bool {
    forall|f: usize|
        #[trigger] bof.contains_key(f) ==> f < files.len() && bof[f] < k && node_outs(ph, builds[bof[f] as int], fuel).contains(
            files[f as int],
        )
}

/// No build after the known producer of a file, among the first `k`,
/// produces it: the known producer is the last.
pub open spec fn producers_last(
    bof: Map<usize, usize>,
    files: Seq<Seq<char>>,
    builds: Seq<BuildView>,
    ph: Map<Seq<char>, PhonyView>,
    fuel: nat,
    k: nat,
) -> bool {
    forall|f: usize, b: int|
        #![trigger bof.contains_key(f), node_outs(ph, builds[b], fuel)]
        bof.contains_key(f) && bof[f] < b < k ==> !node_outs(ph, builds[b], fuel).contains(files[f as int])
}

/// Each awaited file has no known producer, and the builds waiting for it
/// wait for its path.
pub open spec fn awaited_sound(
    pend: Map<usize, Vec<usize>>,
    bof: Map<usize, usize>,
    files: Seq<Seq<char>>,
    builds: Seq<BuildView>,
    ph: Map<Seq<char>, PhonyView>,
    fuel: nat,
    k: nat,
) -> bool {
    forall|f: usize|
        #[trigger] pend.contains_key(f) ==> !bof.contains_key(f) && f < files.len() && forall|t: int|
            0 <= t < pend[f]@.len() ==> (#[trigger] pend[f]@[t]) < k && dep_paths(
                ph,
                builds[pend[f]@[t] as int],
                fuel,
            ).contains(files[f as int])
}

/// Build `a` waits for path `p` with an edge to a build that produces it,
/// or in the list of the file of `p`.
pub open spec fn waits_ok(
    edges: Seq<(usize, usize)>,
    pend: Map<usize, Vec<usize>>,
    files: Seq<Seq<char>>,
    builds: Seq<BuildView>,
    ph: Map<Seq<char>, PhonyView>,
    fuel: nat,
    k: nat,
    a: int,
    p: Seq<char>,
) -> bool {
    ||| exists|b2: usize| b2 < k && #[trigger] edges.contains((a as usize, b2)) && node_outs(ph, builds[b2 as int], fuel).contains(p)
    ||| exists|f: usize| f < files.len() && files[f as int] == p && #[trigger] pend.contains_key(f) && pend[f]@.contains(a as usize)
}

/// Each of the first `upto` builds waits properly for each of its paths.
pub open spec fn all_wait_ok(
    edges: Seq<(usize, usize)>,
    pend: Map<usize, Vec<usize>>,
    files: Seq<Seq<char>>,
    builds: Seq<BuildView>,
    ph: Map<Seq<char>, PhonyView>,
    fuel: nat,
    k: nat,
    upto: nat,
) -> bool {
    forall|a: int, p: Seq<char>|
        0 <= a < upto && #[trigger] dep_paths(ph, builds[a], fuel).contains(p) ==> waits_ok(
            edges,
            pend,
            files,
            builds,
            ph,
            fuel,
            k,
            a,
            p,
        )
}

/// Record the outputs of the node just added: each is now produced by it,
/// and the builds that waited for one of them get an edge to it.
fn announce_outputs(
    builder: &mut GraphBuilder,
    bof: &mut HashMapWithView<usize, usize>,
    pend: &mut HashMapWithView<usize, Vec<usize>>,
    outs: &Vec<FileId>,
    id: usize,
    Ghost(builds): Ghost<Seq<BuildView>>,
    Ghost(ph): Ghost<Map<Seq<char>, PhonyView>>,
    Ghost(fuel): Ghost<nat>,
    Ghost(n): Ghost<nat>,
)
    requires
        id < n,
        forall|i: int| 0 <= i < old(builder).spec_edges().len() ==> (#[trigger] old(builder).spec_edges()[i]).0 < id
            && old(builder).spec_edges()[i].1 < id,
        forall|f: usize, t: int|
            old(pend)@.contains_key(f) && 0 <= t < old(pend)@[f]@.len() ==> #[trigger] old(pend)@[f]@[t] < id,
        edges_justified(old(builder).spec_edges(), builds, ph, fuel, n),
        edges_cover(old(builder).spec_edges(), builds, ph, fuel, n, id as nat, id as nat),
        old(builder).wf(),
        nodes_describe(old(builder).spec_nodes(), old(builder).spec_files(), builds, ph, fuel, (id + 1) as nat),
        outs@ == old(builder).spec_nodes()[id as int].outs@,
        edges_sound(old(builder).spec_edges(), builds, ph, fuel, (id + 1) as nat),
        producers_sound(old(bof)@, old(builder).spec_files(), builds, ph, fuel, (id + 1) as nat),
        forall|i: int, j: int|
            0 <= i < id && 0 <= j < old(builder).spec_nodes()[i].outs@.len() ==> old(bof)@.contains_key(
                #[trigger] old(builder).spec_nodes()[i].outs@[j].0,
            ),
        producers_last(old(bof)@, old(builder).spec_files(), builds, ph, fuel, id as nat),
        awaited_sound(old(pend)@, old(bof)@, old(builder).spec_files(), builds, ph, fuel, (id + 1) as nat),
        all_wait_ok(old(builder).spec_edges(), old(pend)@, old(builder).spec_files(), builds, ph, fuel, (id + 1) as nat, id as nat),
    ensures
        final(builder).wf(),
        final(builder).spec_nodes() == old(builder).spec_nodes(),
        final(builder).spec_files() == old(builder).spec_files(),
        edges_sound(final(builder).spec_edges(), builds, ph, fuel, (id + 1) as nat),
        producers_known(final(bof)@, final(builder).spec_nodes(), final(builder).spec_files(), builds, ph, fuel, (id + 1) as nat),
        producers_last(final(bof)@, final(builder).spec_files(), builds, ph, fuel, (id + 1) as nat),
        awaited_sound(final(pend)@, final(bof)@, final(builder).spec_files(), builds, ph, fuel, (id + 1) as nat),
        all_wait_ok(final(builder).spec_edges(), final(pend)@, final(builder).spec_files(), builds, ph, fuel, (id + 1) as nat, id as nat),
        edges_justified(final(builder).spec_edges(), builds, ph, fuel, n),
        edges_cover(final(builder).spec_edges(), builds, ph, fuel, n, id as nat, (id + 1) as nat),
        forall|e: (usize, usize)| old(builder).spec_edges().contains(e) ==> #[trigger] final(builder).spec_edges().contains(e),
{
    let ghost nodes = builder.spec_nodes();
    let ghost files = builder.spec_files();
    let ghost k = (id + 1) as nat;
    let ghost e_in = builder.spec_edges();
    let ghost pm_in = pend@;
    let mut j: usize = 0;
    proof {
        assert(node_describes(nodes[id as int], files, builds[id as int], ph, fuel));
        assert forall|f: usize, b: int|
            #![trigger bof@.contains_key(f), node_outs(ph, builds[b], fuel)]
            bof@.contains_key(f) && bof@[f] < b < k && node_outs(ph, builds[b], fuel).contains(files[f as int])
                implies b == id && exists|t: int| 0 <= t < outs@.len() && (#[trigger] outs@[t]).0 == f by {
            let po = paths_of(outs@, files);
            let t = choose|t: int| 0 <= t < po.len() && po[t] == files[f as int];
            assert(files[outs@[t].0 as int] == files[f as int]);
        }
    }
    while j < outs.len()
        invariant
            forall|f: usize, b: int|
                #![trigger bof@.contains_key(f), node_outs(ph, builds[b], fuel)]
                bof@.contains_key(f) && bof@[f] < b < k && node_outs(ph, builds[b], fuel).contains(files[f as int])
                    ==> b == id && exists|t: int| j <= t < outs@.len() && (#[trigger] outs@[t]).0 == f,
            builder.wf(),
            builder.spec_nodes() == nodes,
            builder.spec_files() == files,
            nodes_describe(nodes, files, builds, ph, fuel, k),
            k == id + 1,
            outs@ == nodes[id as int].outs@,
            j <= outs@.len(),
            edges_sound(builder.spec_edges(), builds, ph, fuel, k),
            producers_sound(bof@, files, builds, ph, fuel, k),
            forall|i: int, t: int|
                0 <= i < id && 0 <= t < nodes[i].outs@.len() ==> bof@.contains_key(#[trigger] nodes[i].outs@[t].0),
            forall|t: int| 0 <= t < j ==> bof@.contains_key(#[trigger] outs@[t].0),
            awaited_sound(pend@, bof@, files, builds, ph, fuel, k),
            all_wait_ok(builder.spec_edges(), pend@, files, builds, ph, fuel, k, id as nat),
            id < n,
            e_in == old(builder).spec_edges(),
            pm_in == old(pend)@,
            forall|f: usize, t: int| pm_in.contains_key(f) && 0 <= t < pm_in[f]@.len() ==> #[trigger] pm_in[f]@[t] < id,
            forall|e: (usize, usize)| e_in.contains(e) ==> #[trigger] builder.spec_edges().contains(e),
            edges_justified(builder.spec_edges(), builds, ph, fuel, n),
            forall|f: usize| #[trigger] pend@.contains_key(f) ==> pm_in.contains_key(f) && pend@[f] == pm_in[f],
            forall|t: int| 0 <= t < j ==> !pend@.contains_key(#[trigger] outs@[t].0),
            forall|f: usize, u: int|
                pm_in.contains_key(f) && !pend@.contains_key(f) && 0 <= u < pm_in[f]@.len()
                    ==> builder.spec_edges().contains((#[trigger] pm_in[f]@[u], id)),
        decreases outs@.len() - j,
    {
        let out = outs[j].0;
        proof {
            assert(node_describes(nodes[id as int], files, builds[id as int], ph, fuel));
            assert(out < files.len());
            assert(paths_of(outs@, files)[j as int] == files[out as int]);
            assert(node_outs(ph, builds[id as int], fuel).contains(files[out as int]));
        }
        let ghost bof_before = bof@;
        bof.insert(out, id);
        proof {
            assert forall|f: usize, b: int|
                #![trigger bof@.contains_key(f), node_outs(ph, builds[b], fuel)]
                bof@.contains_key(f) && bof@[f] < b < k && node_outs(ph, builds[b], fuel).contains(files[f as int])
                    implies b == id && exists|t: int| j + 1 <= t < outs@.len() && (#[trigger] outs@[t]).0 == f by {
                assert(f != out);
                assert(bof_before.contains_key(f) && bof_before[f] == bof@[f]);
                let t = choose|t: int| j <= t < outs@.len() && (#[trigger] outs@[t]).0 == f;
                assert(t != j);
            }
        }
        let ghost pend_before = pend@;
        let ghost edges_before = builder.spec_edges();
        let waiting = pend.remove(&out);
        match waiting {
            Some(list) => {
                let ghost e0 = builder.spec_edges();
                proof {
                    assert(!bof_before.contains_key(out));
                    lemma_no_earlier_producer(bof_before, nodes, files, builds, ph, fuel, k, id as nat, out);
                    assert(list == pm_in[out]);
                }
                let mut t: usize = 0;
                while t < list.len()
                    invariant
                        builder.wf(),
                        builder.spec_nodes() == nodes,
                        builder.spec_files() == files,
                        k == id + 1,
                        out < files.len(),
                        node_outs(ph, builds[id as int], fuel).contains(files[out as int]),
                        forall|u: int| 0 <= u < list@.len() ==> (#[trigger] list@[u]) < k && dep_paths(
                            ph,
                            builds[list@[u] as int],
                            fuel,
                        ).contains(files[out as int]),
                        t <= list@.len(),
                        edges_sound(builder.spec_edges(), builds, ph, fuel, k),
                        forall|e: (usize, usize)| e0.contains(e) ==> #[trigger] builder.spec_edges().contains(e),
                        forall|u: int| 0 <= u < t ==> builder.spec_edges().contains((#[trigger] list@[u], id)),
                        id < n,
                        forall|u: int| 0 <= u < list@.len() ==> #[trigger] list@[u] < id,
                        forall|c: int| 0 <= c < id ==> !#[trigger] produces(ph, builds, fuel, c, files[out as int]),
                        edges_justified(builder.spec_edges(), builds, ph, fuel, n),
                    decreases list@.len() - t,
                {
                    let a = list[t];
                    let ghost eb = builder.spec_edges();
                    builder.add_build_dep(BuildId(a), BuildId(id));
                    proof {
                        let e = builder.spec_edges();
                        assert(dep_paths(ph, builds[a as int], fuel).contains(files[out as int]));
                        lemma_awaited_is_first(ph, builds, fuel, n, a as int, id as int, files[out as int]);
                        assert forall|x: int| 0 <= x < e.len() implies edge_justified(
                            builds,
                            ph,
                            fuel,
                            n,
                            (#[trigger] e[x]).0 as int,
                            e[x].1 as int,
                        ) by {
                            if x < eb.len() {
                                assert(e[x] == eb[x]);
                            } else {
                                assert(e[x] == (a, id));
                                assert(awaited_producer(ph, builds, fuel, n, a as int, files[out as int]) == Some(id as int));
                            }
                        }
                        assert forall|x: int| 0 <= x < e.len() implies (#[trigger] e[x]).0 < k && e[x].1 < k && exists|
                            p: Seq<char>,
                        |
                            dep_paths(ph, builds[e[x].0 as int], fuel).contains(p) && node_outs(
                                ph,
                                builds[e[x].1 as int],
                                fuel,
                            ).contains(p) by {
                            if x < eb.len() {
                                assert(e[x] == eb[x]);
                            } else {
                                assert(e[x] == (a, id));
                            }
                        }
                        assert forall|ed: (usize, usize)| e0.contains(ed) implies #[trigger] e.contains(ed) by {
                            assert(eb.contains(ed));
                            let y = choose|y: int| 0 <= y < eb.len() && eb[y] == ed;
                            if !eb.contains((a, id)) {
                                assert(e[y] == ed);
                            }
                        }
                        assert forall|u: int| 0 <= u < t + 1 implies e.contains((#[trigger] list@[u], id)) by {
                            if u < t {
                                assert(eb.contains((list@[u], id)));
                                let y = choose|y: int| 0 <= y < eb.len() && eb[y] == (list@[u], id);
                                if !eb.contains((a, id)) {
                                    assert(e[y] == (list@[u], id));
                                }
                            } else {
                                if !eb.contains((a, id)) {
                                    assert(e[e.len() - 1] == (a, id));
                                }
                            }
                        }
                    }
                    t = t + 1;
                }
                proof {
                    let e = builder.spec_edges();
                    let pm = pend@;
                    assert forall|a: int, p: Seq<char>|
                        0 <= a < id && #[trigger] dep_paths(ph, builds[a], fuel).contains(p) implies waits_ok(
                            e,
                            pm,
                            files,
                            builds,
                            ph,
                            fuel,
                            k,
                            a,
                            p,
                        ) by {
                        let pm0 = pend_before;
                        assert(e0 == edges_before);
                        assert(waits_ok(e0, pm0, files, builds, ph, fuel, k, a, p));
                        if exists|b2: usize|
                            b2 < k && #[trigger] e0.contains((a as usize, b2)) && node_outs(
                                ph,
                                builds[b2 as int],
                                fuel,
                            ).contains(p) {
                            let b2 = choose|b2: usize|
                                b2 < k && #[trigger] e0.contains((a as usize, b2)) && node_outs(
                                    ph,
                                    builds[b2 as int],
                                    fuel,
                                ).contains(p);
                            assert(e.contains((a as usize, b2)));
                        } else {
                            let f = choose|f: usize|
                                f < files.len() && files[f as int] == p && #[trigger] pm0.contains_key(f)
                                    && pm0[f]@.contains(a as usize);
                            if f == out {
                                assert(pm0[f] == list);
                                let u = choose|u: int| 0 <= u < list@.len() && list@[u] == a as usize;
                                assert(e.contains((list@[u], id)));
                                assert(node_outs(ph, builds[id as int], fuel).contains(p));
                            } else {
                                assert(pm.contains_key(f));
                                assert(pm[f] == pm0[f]);
                            }
                        }
                    }
                }
            },
            None => {},
        }
        proof {
            assert forall|t: int| 0 <= t < j + 1 implies bof@.contains_key(#[trigger] outs@[t].0) by {}
        }
        j = j + 1;
    }
    proof {
        let e = builder.spec_edges();
        assert forall|a: int, p: Seq<char>|
            0 <= a < id && #[trigger] dep_paths(ph, builds[a], fuel).contains(p) && #[trigger] awaited_producer(
                ph,
                builds,
                fuel,
                n,
                a,
                p,
            ) is Some && awaited_producer(ph, builds, fuel, n, a, p)->0 < id + 1 implies e.contains(
            (a as usize, awaited_producer(ph, builds, fuel, n, a, p)->0 as usize),
        ) by {
            let b = awaited_producer(ph, builds, fuel, n, a, p)->0;
            if b < id {
                assert(e_in.contains((a as usize, b as usize)));
            } else {
                lemma_awaited_producer(ph, builds, fuel, n, a, p);
                assert(node_describes(nodes[id as int], files, builds[id as int], ph, fuel));
                let po = paths_of(outs@, files);
                assert(po.contains(p));
                let t = choose|t: int| 0 <= t < po.len() && po[t] == p;
                let g = outs@[t].0;
                assert(waits_ok(e_in, pm_in, files, builds, ph, fuel, k, a, p));
                if exists|b2: usize|
                    b2 < k && #[trigger] e_in.contains((a as usize, b2)) && node_outs(ph, builds[b2 as int], fuel).contains(p) {
                    let b2 = choose|b2: usize|
                        b2 < k && #[trigger] e_in.contains((a as usize, b2)) && node_outs(ph, builds[b2 as int], fuel).contains(
                            p,
                        );
                    let x = choose|x: int| 0 <= x < e_in.len() && e_in[x] == (a as usize, b2);
                    assert(e_in[x].1 < id);
                    assert(produces(ph, builds, fuel, b2 as int, p));
                } else {
                    let f = choose|f: usize|
                        f < files.len() && files[f as int] == p && #[trigger] pm_in.contains_key(f) && pm_in[f]@.contains(
                            a as usize,
                        );
                    assert(files[g as int] == p);
                    assert(g == f);
                    assert(!pend@.contains_key(outs@[t].0));
                    let u = choose|u: int| 0 <= u < pm_in[f]@.len() && pm_in[f]@[u] == a as usize;
                    assert(e.contains((pm_in[f]@[u], id)));
                }
            }
        }
    }
}

/// The awaited lists only grow.
pub open spec fn awaited_grows(p1: Map<usize, Vec<usize>>, p2: Map<usize, Vec<usize>>) -> bool {
    forall|f: usize|
        #[trigger] p1.contains_key(f) ==> p2.contains_key(f) && forall|a: usize| p1[f]@.contains(a) ==> #[trigger] p2[f]@.contains(
            a,
        )
}

/// Waiting properly stays so as edges are added and the awaited lists grow.
proof fn lemma_all_wait_mono(
    e1: Seq<(usize, usize)>,
    p1: Map<usize, Vec<usize>>,
    e2: Seq<(usize, usize)>,
    p2: Map<usize, Vec<usize>>,
    files: Seq<Seq<char>>,
    builds: Seq<BuildView>,
    ph: Map<Seq<char>, PhonyView>,
    fuel: nat,
    k: nat,
    upto: nat,
)
    requires
        all_wait_ok(e1, p1, files, builds, ph, fuel, k, upto),
        forall|e: (usize, usize)| e1.contains(e) ==> #[trigger] e2.contains(e),
        awaited_grows(p1, p2),
    ensures
        all_wait_ok(e2, p2, files, builds, ph, fuel, k, upto),
{
    assert forall|a: int, p: Seq<char>|
        0 <= a < upto && #[trigger] dep_paths(ph, builds[a], fuel).contains(p) implies waits_ok(
            e2,
            p2,
            files,
            builds,
            ph,
            fuel,
            k,
            a,
            p,
        ) by {
        assert(waits_ok(e1, p1, files, builds, ph, fuel, k, a, p));
        if exists|b2: usize| b2 < k && #[trigger] e1.contains((a as usize, b2)) && node_outs(ph, builds[b2 as int], fuel).contains(p) {
            let b2 = choose|b2: usize|
                b2 < k && #[trigger] e1.contains((a as usize, b2)) && node_outs(ph, builds[b2 as int], fuel).contains(p);
            assert(e2.contains((a as usize, b2)));
        } else {
            let f = choose|f: usize|
                f < files.len() && files[f as int] == p && #[trigger] p1.contains_key(f) && p1[f]@.contains(a as usize);
            assert(p2.contains_key(f) && p2[f]@.contains(a as usize));
        }
    }
}

/// Adding an edge keeps every edge there.
proof fn lemma_edge_added(eb: Seq<(usize, usize)>, e: Seq<(usize, usize)>, x: (usize, usize))
    requires
        e == (if eb.contains(x) {
            eb
        } else {
            eb.push(x)
        }),
    ensures
        forall|ed: (usize, usize)| eb.contains(ed) ==> #[trigger] e.contains(ed),
        e.contains(x),
{
    assert forall|ed: (usize, usize)| eb.contains(ed) implies #[trigger] e.contains(ed) by {
        let y = choose|y: int| 0 <= y < eb.len() && eb[y] == ed;
        if !eb.contains(x) {
            assert(e[y] == ed);
        }
    }
    if !eb.contains(x) {
        assert(e[e.len() - 1] == x);
    }
}

/// Record the paths the node just added waits for: an edge to the known
/// producer of each, or a place in the list of the builds that await it.
fn announce_inputs(
    builder: &mut GraphBuilder,
    bof: &HashMapWithView<usize, usize>,
    pend: &mut HashMapWithView<usize, Vec<usize>>,
    deps: &Vec<FileId>,
    id: usize,
    Ghost(builds): Ghost<Seq<BuildView>>,
    Ghost(ph): Ghost<Map<Seq<char>, PhonyView>>,
    Ghost(fuel): Ghost<nat>,
    Ghost(n): Ghost<nat>,
)
    requires
        id < n,
        producers_last(bof@, old(builder).spec_files(), builds, ph, fuel, (id + 1) as nat),
        edges_justified(old(builder).spec_edges(), builds, ph, fuel, n),
        edges_cover(old(builder).spec_edges(), builds, ph, fuel, n, id as nat, (id + 1) as nat),
        old(builder).wf(),
        nodes_describe(old(builder).spec_nodes(), old(builder).spec_files(), builds, ph, fuel, (id + 1) as nat),
        edges_sound(old(builder).spec_edges(), builds, ph, fuel, (id + 1) as nat),
        producers_known(bof@, old(builder).spec_nodes(), old(builder).spec_files(), builds, ph, fuel, (id + 1) as nat),
        awaited_sound(old(pend)@, bof@, old(builder).spec_files(), builds, ph, fuel, (id + 1) as nat),
        all_wait_ok(old(builder).spec_edges(), old(pend)@, old(builder).spec_files(), builds, ph, fuel, (id + 1) as nat, id as nat),
        ids_valid(deps@, old(builder).spec_files()),
        paths_of(deps@, old(builder).spec_files()) == dep_paths(ph, builds[id as int], fuel),
    ensures
        final(builder).wf(),
        final(builder).spec_nodes() == old(builder).spec_nodes(),
        final(builder).spec_files() == old(builder).spec_files(),
        edges_sound(final(builder).spec_edges(), builds, ph, fuel, (id + 1) as nat),
        awaited_sound(final(pend)@, bof@, final(builder).spec_files(), builds, ph, fuel, (id + 1) as nat),
        all_wait_ok(final(builder).spec_edges(), final(pend)@, final(builder).spec_files(), builds, ph, fuel, (id + 1) as nat, (id + 1) as nat),
        edges_justified(final(builder).spec_edges(), builds, ph, fuel, n),
        edges_cover(final(builder).spec_edges(), builds, ph, fuel, n, (id + 1) as nat, (id + 1) as nat),
{
    let ghost nodes = builder.spec_nodes();
    let ghost files = builder.spec_files();
    let ghost k = (id + 1) as nat;
    let ghost dp = dep_paths(ph, builds[id as int], fuel);
    let ghost e_in = builder.spec_edges();
    let mut j: usize = 0;
    while j < deps.len()
        invariant
            builder.wf(),
            builder.spec_nodes() == nodes,
            builder.spec_files() == files,
            k == id + 1,
            nodes_describe(nodes, files, builds, ph, fuel, k),
            producers_known(bof@, nodes, files, builds, ph, fuel, k),
            ids_valid(deps@, files),
            paths_of(deps@, files) == dp,
            dp == dep_paths(ph, builds[id as int], fuel),
            j <= deps@.len(),
            edges_sound(builder.spec_edges(), builds, ph, fuel, k),
            awaited_sound(pend@, bof@, files, builds, ph, fuel, k),
            all_wait_ok(builder.spec_edges(), pend@, files, builds, ph, fuel, k, id as nat),
            forall|t: int| 0 <= t < j ==> waits_ok(builder.spec_edges(), pend@, files, builds, ph, fuel, k, id as int, #[trigger] dp[t]),
            id < n,
            producers_last(bof@, files, builds, ph, fuel, k),
            forall|e: (usize, usize)| e_in.contains(e) ==> #[trigger] builder.spec_edges().contains(e),
            edges_justified(builder.spec_edges(), builds, ph, fuel, n),
            forall|t: int|
                0 <= t < j && bof@.contains_key(#[trigger] deps@[t].0) ==> builder.spec_edges().contains(
                    (id, bof@[deps@[t].0]),
                ),
        decreases deps@.len() - j,
    {
        let f = deps[j].0;
        let ghost eb = builder.spec_edges();
        let ghost pb = pend@;
        proof {
            assert(dp[j as int] == files[f as int]);
            assert(dp.contains(files[f as int]));
        }
        match bof.get(&f) {
            Some(prod) => {
                let prod = *prod;
                builder.add_build_dep(BuildId(id), BuildId(prod));
                proof {
                    let e = builder.spec_edges();
                    lemma_edge_added(eb, e, (id, prod));
                    lemma_awaited_is_last(ph, builds, fuel, n, id as int, prod as int, files[f as int]);
                    assert forall|x: int| 0 <= x < e.len() implies edge_justified(
                        builds,
                        ph,
                        fuel,
                        n,
                        (#[trigger] e[x]).0 as int,
                        e[x].1 as int,
                    ) by {
                        if x < eb.len() {
                            assert(e[x] == eb[x]);
                        } else {
                            assert(e[x] == (id, prod));
                            assert(awaited_producer(ph, builds, fuel, n, id as int, files[f as int]) == Some(prod as int));
                        }
                    }
                    assert forall|x: int| 0 <= x < e.len() implies (#[trigger] e[x]).0 < k && e[x].1 < k && exists|
                        p: Seq<char>,
                    |
                        dep_paths(ph, builds[e[x].0 as int], fuel).contains(p) && node_outs(
                            ph,
                            builds[e[x].1 as int],
                            fuel,
                        ).contains(p) by {
                        if x < eb.len() {
                            assert(e[x] == eb[x]);
                        } else {
                            assert(e[x] == (id, prod));
                            assert(dep_paths(ph, builds[id as int], fuel).contains(files[f as int]));
                            assert(node_outs(ph, builds[prod as int], fuel).contains(files[f as int]));
                        }
                    }
                    lemma_all_wait_mono(eb, pb, e, pb, files, builds, ph, fuel, k, id as nat);
                    assert forall|t: int| 0 <= t < j + 1 implies waits_ok(e, pb, files, builds, ph, fuel, k, id as int, #[trigger] dp[t]) by {
                        if t < j {
                            assert(waits_ok(eb, pb, files, builds, ph, fuel, k, id as int, dp[t]));
                            if exists|b2: usize| b2 < k && #[trigger] eb.contains((id as usize, b2)) && node_outs(ph, builds[b2 as int], fuel).contains(dp[t]) {
                                let b2 = choose|b2: usize| b2 < k && #[trigger] eb.contains((id as usize, b2)) && node_outs(ph, builds[b2 as int], fuel).contains(dp[t]);
                                assert(e.contains((id as usize, b2)));
                            }
                        } else {
                            assert(e.contains((id as usize, prod)));
                        }
                    }
                }
            },
            None => {
                let mut list = match pend.remove(&f) {
                    Some(v) => v,
                    None => Vec::new(),
                };
                let ghost lb = list@;
                list.push(id);
                pend.insert(f, list);
                proof {
                    let pm = pend@;
                    assert(awaited_grows(pb, pm)) by {
                        assert forall|g: usize| #[trigger] pb.contains_key(g) implies pm.contains_key(g) && forall|a: usize|
                            pb[g]@.contains(a) ==> #[trigger] pm[g]@.contains(a) by {
                            if g == f {
                                assert forall|a: usize| pb[g]@.contains(a) implies #[trigger] pm[g]@.contains(a) by {
                                    let y = choose|y: int| 0 <= y < pb[g]@.len() && pb[g]@[y] == a;
                                    assert(pm[g]@[y] == a);
                                }
                            }
                        }
                    }
                    assert(pm[f]@.contains(id)) by {
                        assert(pm[f]@[pm[f]@.len() - 1] == id);
                    }
                    lemma_all_wait_mono(eb, pb, eb, pm, files, builds, ph, fuel, k, id as nat);
                    assert forall|g: usize| #[trigger] pm.contains_key(g) implies !bof@.contains_key(g) && g < files.len()
                        && forall|t: int|
                        0 <= t < pm[g]@.len() ==> (#[trigger] pm[g]@[t]) < k && dep_paths(
                            ph,
                            builds[pm[g]@[t] as int],
                            fuel,
                        ).contains(files[g as int]) by {
                        if g == f {
                            assert forall|t: int| 0 <= t < pm[g]@.len() implies (#[trigger] pm[g]@[t]) < k && dep_paths(
                                ph,
                                builds[pm[g]@[t] as int],
                                fuel,
                            ).contains(files[g as int]) by {
                                if t < lb.len() {
                                    assert(pb.contains_key(f));
                                    assert(pm[g]@[t] == pb[f]@[t]);
                                }
                            }
                        }
                    }
                    assert forall|t: int| 0 <= t < j + 1 implies waits_ok(eb, pm, files, builds, ph, fuel, k, id as int, #[trigger] dp[t]) by {
                        if t < j {
                            assert(waits_ok(eb, pb, files, builds, ph, fuel, k, id as int, dp[t]));
                            if !(exists|b2: usize| b2 < k && #[trigger] eb.contains((id as usize, b2)) && node_outs(ph, builds[b2 as int], fuel).contains(dp[t])) {
                                let g = choose|g: usize| g < files.len() && files[g as int] == dp[t] && #[trigger] pb.contains_key(g) && pb[g]@.contains(id as usize);
                                assert(pm.contains_key(g) && pm[g]@.contains(id as usize));
                            }
                        } else {
                            assert(files[f as int] == dp[t]);
                            assert(pm.contains_key(f) && pm[f]@.contains(id as usize));
                        }
                    }
                }
            },
        }
        j = j + 1;
    }
    proof {
        let e = builder.spec_edges();
        let pm = pend@;
        assert forall|a: int, p: Seq<char>|
            0 <= a < k && #[trigger] dep_paths(ph, builds[a], fuel).contains(p) implies waits_ok(e, pm, files, builds, ph, fuel, k, a, p) by {
            if a == id {
                let t = choose|t: int| 0 <= t < dp.len() && dp[t] == p;
                assert(waits_ok(e, pm, files, builds, ph, fuel, k, id as int, dp[t]));
            }
        }
    }
    proof {
        let e = builder.spec_edges();
        assert forall|a: int, p: Seq<char>|
            0 <= a < id + 1 && #[trigger] dep_paths(ph, builds[a], fuel).contains(p) && #[trigger] awaited_producer(
                ph,
                builds,
                fuel,
                n,
                a,
                p,
            ) is Some && awaited_producer(ph, builds, fuel, n, a, p)->0 < id + 1 implies e.contains(
            (a as usize, awaited_producer(ph, builds, fuel, n, a, p)->0 as usize),
        ) by {
            let b = awaited_producer(ph, builds, fuel, n, a, p)->0;
            if a < id {
                assert(e_in.contains((a as usize, b as usize)));
            } else {
                lemma_awaited_producer(ph, builds, fuel, n, a, p);
                let t = choose|t: int| 0 <= t < dp.len() && dp[t] == p;
                let g = deps@[t].0;
                assert(files[g as int] == p);
                if !bof@.contains_key(g) {
                    lemma_no_earlier_producer(bof@, nodes, files, builds, ph, fuel, k, k, g);
                    assert(produces(ph, builds, fuel, b, p));
                }
                let pr = bof@[g];
                assert(node_outs(ph, builds[pr as int], fuel).contains(files[g as int]));
                assert(produces(ph, builds, fuel, pr as int, p));
                if (pr as int) < b {
                    assert(node_outs(ph, builds[b], fuel).contains(files[g as int]));
                } else if (pr as int) > b {
                    assert(!produces(ph, builds, fuel, pr as int, p));
                }
                assert(e.contains((id, bof@[deps@[t].0])));
            }
        }
    }
}


/// Copy a list of ids.
fn copy_ids(v: &Vec<FileId>) -> (r: Vec<FileId>)
    ensures
        r@ == v@,
{
    let mut r: Vec<FileId> = Vec::new();
    let mut i: usize = 0;
    while i < v.len()
        invariant
            i <= v@.len(),
            r@ == v@.subrange(0, i as int),
        decreases v@.len() - i,
    {
        r.push(v[i]);
        proof {
            assert(v@.subrange(0, i + 1) =~= v@.subrange(0, i as int).push(v@[i as int]));
        }
        i = i + 1;
    }
    proof {
        assert(v@.subrange(0, i as int) =~= v@);
    }
    r
}

/// The ids of `a` followed by those of `b`.
fn join_ids(a: &Vec<FileId>, b: &Vec<FileId>) -> (r: Vec<FileId>)
    ensures
        r@ == a@ + b@,
{
    let mut r = copy_ids(a);
    let mut i: usize = 0;
    while i < b.len()
        invariant
            i <= b@.len(),
            r@ == a@ + b@.subrange(0, i as int),
        decreases b@.len() - i,
    {
        r.push(b[i]);
        proof {
            assert(a@ + b@.subrange(0, i + 1) =~= (a@ + b@.subrange(0, i as int)).push(b@[i as int]));
        }
        i = i + 1;
    }
    proof {
        assert(b@.subrange(0, i as int) =~= b@);
    }
    r
}

/// The paths of two lists of ids joined are their paths joined.
proof fn lemma_paths_concat(a: Seq<FileId>, b: Seq<FileId>, files: Seq<Seq<char>>)
    ensures
        paths_of(a + b, files) == paths_of(a, files) + paths_of(b, files),
{
    assert(paths_of(a + b, files) =~= paths_of(a, files) + paths_of(b, files));
}

/// What holds of the nodes, producers and waiting builds so far stays true
/// when more files are added.
proof fn lemma_files_grow(
    nodes: Seq<BuildNode>,
    f1: Seq<Seq<char>>,
    f2: Seq<Seq<char>>,
    edges: Seq<(usize, usize)>,
    bof: Map<usize, usize>,
    pend: Map<usize, Vec<usize>>,
    builds: Seq<BuildView>,
    ph: Map<Seq<char>, PhonyView>,
    fuel: nat,
    k: nat,
)
    requires
        extends(f1, f2),
        nodes_describe(nodes, f1, builds, ph, fuel, k),
        producers_known(bof, nodes, f1, builds, ph, fuel, k),
        producers_last(bof, f1, builds, ph, fuel, k),
        awaited_sound(pend, bof, f1, builds, ph, fuel, k),
        all_wait_ok(edges, pend, f1, builds, ph, fuel, k, k),
    ensures
        nodes_describe(nodes, f2, builds, ph, fuel, k),
        producers_known(bof, nodes, f2, builds, ph, fuel, k),
        producers_last(bof, f2, builds, ph, fuel, k),
        awaited_sound(pend, bof, f2, builds, ph, fuel, k),
        all_wait_ok(edges, pend, f2, builds, ph, fuel, k, k),
{
    assert forall|f: int| 0 <= f < f1.len() implies #[trigger] f2[f] == f1[f] by {
        assert(f2.subrange(0, f1.len() as int)[f] == f1[f]);
    }
    assert forall|i: int| 0 <= i < k implies node_describes(#[trigger] nodes[i], f2, builds[i], ph, fuel) by {
        assert(node_describes(nodes[i], f1, builds[i], ph, fuel));
        lemma_paths_stable(nodes[i].ins@, f1, f2);
        lemma_paths_stable(nodes[i].outs@, f1, f2);
    }
    assert forall|f: usize| #[trigger] bof.contains_key(f) implies f < f2.len() && bof[f] < k && node_outs(
        ph,
        builds[bof[f] as int],
        fuel,
    ).contains(f2[f as int]) by {
        assert(f2[f as int] == f1[f as int]);
    }
    assert forall|f: usize| #[trigger] pend.contains_key(f) implies !bof.contains_key(f) && f < f2.len() && forall|t: int|
        0 <= t < pend[f]@.len() ==> (#[trigger] pend[f]@[t]) < k && dep_paths(ph, builds[pend[f]@[t] as int], fuel).contains(
            f2[f as int],
        ) by {
        assert(f2[f as int] == f1[f as int]);
    }
    assert forall|a: int, p: Seq<char>|
        0 <= a < k && #[trigger] dep_paths(ph, builds[a], fuel).contains(p) implies waits_ok(
            edges,
            pend,
            f2,
            builds,
            ph,
            fuel,
            k,
            a,
            p,
        ) by {
        assert(waits_ok(edges, pend, f1, builds, ph, fuel, k, a, p));
        if !(exists|b2: usize| b2 < k && #[trigger] edges.contains((a as usize, b2)) && node_outs(ph, builds[b2 as int], fuel).contains(p)) {
            let f = choose|f: usize| f < f1.len() && f1[f as int] == p && #[trigger] pend.contains_key(f) && pend[f]@.contains(a as usize);
            assert(f2[f as int] == f1[f as int]);
        }
    }
}

/// What holds of the first `k` builds holds of the first `k + 1` as far as
/// it does not speak of build `k` itself.
proof fn lemma_count_grows(
    files: Seq<Seq<char>>,
    edges: Seq<(usize, usize)>,
    bof: Map<usize, usize>,
    pend: Map<usize, Vec<usize>>,
    builds: Seq<BuildView>,
    ph: Map<Seq<char>, PhonyView>,
    fuel: nat,
    k: nat,
)
    requires
        edges_sound(edges, builds, ph, fuel, k),
        producers_sound(bof, files, builds, ph, fuel, k),
        awaited_sound(pend, bof, files, builds, ph, fuel, k),
        all_wait_ok(edges, pend, files, builds, ph, fuel, k, k),
    ensures
        edges_sound(edges, builds, ph, fuel, k + 1),
        producers_sound(bof, files, builds, ph, fuel, k + 1),
        awaited_sound(pend, bof, files, builds, ph, fuel, k + 1),
        all_wait_ok(edges, pend, files, builds, ph, fuel, k + 1, k),
{
    assert forall|a: int, p: Seq<char>|
        0 <= a < k && #[trigger] dep_paths(ph, builds[a], fuel).contains(p) implies waits_ok(
            edges,
            pend,
            files,
            builds,
            ph,
            fuel,
            k + 1,
            a,
            p,
        ) by {
        assert(waits_ok(edges, pend, files, builds, ph, fuel, k, a, p));
        if exists|b2: usize| b2 < k && #[trigger] edges.contains((a as usize, b2)) && node_outs(ph, builds[b2 as int], fuel).contains(p) {
            let b2 = choose|b2: usize| b2 < k && #[trigger] edges.contains((a as usize, b2)) && node_outs(ph, builds[b2 as int], fuel).contains(p);
            assert(b2 < k + 1);
        }
    }
}

/// Add the node of build statement `k`, and the edges that join it to the
/// nodes before it.
fn translate_build(
    ninja: &NinjaFile,
    builder: &mut GraphBuilder,
    bof: &mut HashMapWithView<usize, usize>,
    pend: &mut HashMapWithView<usize, Vec<usize>>,
    k: usize,
    fuel: usize,
)
    requires
        ninja.wf(),
        k < ninja.builds@.len(),
        old(builder).wf(),
        nodes_describe(old(builder).spec_nodes(), old(builder).spec_files(), ninja@.builds, ninja@.phony, fuel as nat, k as nat),
        edges_sound(old(builder).spec_edges(), ninja@.builds, ninja@.phony, fuel as nat, k as nat),
        producers_known(old(bof)@, old(builder).spec_nodes(), old(builder).spec_files(), ninja@.builds, ninja@.phony, fuel as nat, k as nat),
        producers_last(old(bof)@, old(builder).spec_files(), ninja@.builds, ninja@.phony, fuel as nat, k as nat),
        awaited_sound(old(pend)@, old(bof)@, old(builder).spec_files(), ninja@.builds, ninja@.phony, fuel as nat, k as nat),
        all_wait_ok(old(builder).spec_edges(), old(pend)@, old(builder).spec_files(), ninja@.builds, ninja@.phony, fuel as nat, k as nat, k as nat),
        edges_justified(old(builder).spec_edges(), ninja@.builds, ninja@.phony, fuel as nat, ninja@.builds.len()),
        edges_cover(old(builder).spec_edges(), ninja@.builds, ninja@.phony, fuel as nat, ninja@.builds.len(), k as nat, k as nat),
    ensures
        final(builder).wf(),
        nodes_describe(final(builder).spec_nodes(), final(builder).spec_files(), ninja@.builds, ninja@.phony, fuel as nat, (k + 1) as nat),
        edges_sound(final(builder).spec_edges(), ninja@.builds, ninja@.phony, fuel as nat, (k + 1) as nat),
        producers_known(final(bof)@, final(builder).spec_nodes(), final(builder).spec_files(), ninja@.builds, ninja@.phony, fuel as nat, (k + 1) as nat),
        producers_last(final(bof)@, final(builder).spec_files(), ninja@.builds, ninja@.phony, fuel as nat, (k + 1) as nat),
        awaited_sound(final(pend)@, final(bof)@, final(builder).spec_files(), ninja@.builds, ninja@.phony, fuel as nat, (k + 1) as nat),
        all_wait_ok(final(builder).spec_edges(), final(pend)@, final(builder).spec_files(), ninja@.builds, ninja@.phony, fuel as nat, (k + 1) as nat, (k + 1) as nat),
        edges_justified(final(builder).spec_edges(), ninja@.builds, ninja@.phony, fuel as nat, ninja@.builds.len()),
        edges_cover(final(builder).spec_edges(), ninja@.builds, ninja@.phony, fuel as nat, ninja@.builds.len(), (k + 1) as nat, (k + 1) as nat),
{
    let ghost builds = ninja@.builds;
    let ghost ph = ninja@.phony;
    let ghost fl = fuel as nat;
    let build = &ninja.builds[k];
    assert(builds[k as int] == build@);
    let ghost f0 = builder.spec_files();
    let mut ins: Vec<FileId> = Vec::new();
    let mut oo: Vec<FileId> = Vec::new();
    let mut outs: Vec<FileId> = Vec::new();
    let mut scratch: Vec<FileId> = Vec::new();
    proof {
        assert(paths_of(ins@, f0) =~= Seq::<Seq<char>>::empty());
        assert(paths_of(oo@, f0) =~= Seq::<Seq<char>>::empty());
    }
    desugar_names(ninja, builder, &mut ins, &mut oo, true, &build.inputs, fuel);
    let ghost f1 = builder.spec_files();
    desugar_names(ninja, builder, &mut ins, &mut oo, true, &build.implicit_inputs, fuel);
    let ghost f2 = builder.spec_files();
    let ghost ins_done = ins@;
    desugar_names(ninja, builder, &mut oo, &mut scratch, false, &build.order_only_inputs, fuel);
    let ghost f3 = builder.spec_files();
    let ghost oo_done = oo@;
    proof {
        lemma_paths_stable(ins_done, f2, f3);
        assert(paths_of(outs@, f3) =~= Seq::<Seq<char>>::empty());
    }
    desugar_names(ninja, builder, &mut outs, &mut scratch, false, &build.outputs, fuel);
    let ghost f4 = builder.spec_files();
    proof {
        lemma_paths_stable(ins_done, f3, f4);
        lemma_paths_stable(oo_done, f3, f4);
        lemma_extends_trans(f0, f1, f2);
        lemma_extends_trans(f0, f2, f3);
        lemma_extends_trans(f0, f3, f4);
        let e = Seq::<Seq<char>>::empty();
        assert(e + desugar_list(ph, build@.inputs, fl, true).0 + desugar_list(ph, build@.implicit_inputs, fl, true).0
            =~= node_ins(ph, build@, fl));
        assert(e + desugar_list(ph, build@.inputs, fl, true).1 + desugar_list(ph, build@.implicit_inputs, fl, true).1
            + desugar_list(ph, build@.order_only_inputs, fl, false).0 =~= node_order_only(ph, build@, fl));
        assert(e + desugar_list(ph, build@.outputs, fl, false).0 =~= node_outs(ph, build@, fl));
        lemma_files_grow(
            builder.spec_nodes(),
            f0,
            f4,
            builder.spec_edges(),
            bof@,
            pend@,
            builds,
            ph,
            fl,
            k as nat,
        );
    }
    let sh = "sh".to_owned();
    let dash_c = "-c".to_owned();
    let cmd = build.command.clone();
    proof {
        reveal_strlit("sh");
        reveal_strlit("-c");
        assert(dash_c@ =~= seq!['-', 'c']);
        assert(sh@ =~= seq!['s', 'h']);
        assert(cmd@ == build@.command);
    }
    let mut args: Vec<String> = Vec::new();
    args.push(dash_c);
    args.push(cmd);
    proof {
        assert(strs(args@)[0] == seq!['-', 'c']);
        assert(strs(args@)[1] == build@.command);
        assert(strs(args@) =~= seq![seq!['-', 'c'], build@.command]);
    }
    let description = match &build.description {
        Some(d) => Some(d.clone()),
        None => None,
    };
    let out_ids = copy_ids(&outs);
    let deps = join_ids(&ins, &oo);
    proof {
        lemma_paths_concat(ins_done, oo_done, f4);
    }
    let node = BuildNode {
        command: BuildMethod::SubCommand(BuildCommand { executable: sh, args }),
        ins: ins,
        outs: out_ids,
        description,
    };
    let ghost files = builder.spec_files();
    let id = builder.add_build(node);
    proof {
        assert(id.0 == k);
        let nodes = builder.spec_nodes();
        let nd = nodes[k as int];
        assert(nd.command is SubCommand);
        assert(nd.command->SubCommand_0.executable@ == seq!['s', 'h']);
        assert(ids_valid(nd.ins@, files));
        assert(ids_valid(nd.outs@, files));
        assert(paths_of(nd.ins@, files) == node_ins(ph, build@, fl));
        assert(paths_of(nd.outs@, files) == node_outs(ph, build@, fl));
        assert(crate::ninja::model::opt_view(nd.description) == build@.description);
        assert(node_describes(nodes[k as int], files, builds[k as int], ph, fl));
        assert forall|i: int| 0 <= i < k + 1 implies node_describes(#[trigger] nodes[i], files, builds[i], ph, fl) by {
            if i < k {
                assert(nodes[i] == old(builder).spec_nodes()[i]);
            }
        }
        lemma_count_grows(files, builder.spec_edges(), bof@, pend@, builds, ph, fl, k as nat);
    }
    announce_outputs(builder, bof, pend, &outs, k, Ghost(builds), Ghost(ph), Ghost(fl), Ghost(builds.len()));
    announce_inputs(builder, bof, pend, &deps, k, Ghost(builds), Ghost(ph), Ghost(fl), Ghost(builds.len()));
}


/// With every output of every node known to its producer, a path waited for
/// that some build produces is never left waiting: the edges are complete.
proof fn lemma_edges_complete(
    nodes: Seq<BuildNode>,
    files: Seq<Seq<char>>,
    edges: Seq<(usize, usize)>,
    bof: Map<usize, usize>,
    pend: Map<usize, Vec<usize>>,
    builds: Seq<BuildView>,
    ph: Map<Seq<char>, PhonyView>,
    fuel: nat,
    n: nat,
)
    requires
        crate::graph::distinct_paths(files),
        nodes_describe(nodes, files, builds, ph, fuel, n),
        producers_known(bof, nodes, files, builds, ph, fuel, n),
        awaited_sound(pend, bof, files, builds, ph, fuel, n),
        all_wait_ok(edges, pend, files, builds, ph, fuel, n, n),
    ensures
        edges_complete(edges, builds, ph, fuel, n),
{
    assert forall|a: int, b: int, p: Seq<char>|
        0 <= a < n && 0 <= b < n && #[trigger] dep_paths(ph, builds[a], fuel).contains(p) && #[trigger] node_outs(
            ph,
            builds[b],
            fuel,
        ).contains(p) implies exists|b2: usize|
        b2 < n && #[trigger] edges.contains((a as usize, b2)) && node_outs(ph, builds[b2 as int], fuel).contains(p) by {
        assert(waits_ok(edges, pend, files, builds, ph, fuel, n, a, p));
        if !(exists|b2: usize| b2 < n && #[trigger] edges.contains((a as usize, b2)) && node_outs(ph, builds[b2 as int], fuel).contains(p)) {
            let f = choose|f: usize| f < files.len() && files[f as int] == p && #[trigger] pend.contains_key(f) && pend[f]@.contains(a as usize);
            assert(node_describes(nodes[b], files, builds[b], ph, fuel));
            let outs = nodes[b].outs@;
            assert(paths_of(outs, files).contains(p));
            let j = choose|j: int| 0 <= j < paths_of(outs, files).len() && paths_of(outs, files)[j] == p;
            let g = outs[j].0;
            assert(bof.contains_key(nodes[b].outs@[j].0));
            assert(files[g as int] == p);
            assert(g == f);
        }
    }
}

/// A Ninja file turned into a build graph, with the build that produces
/// each output file.
pub struct ConvertOutput {
    pub graph: BuildGraph,
    /// The build that produces each output file, by their ids; where several
    /// do, the last of them
    pub file_to_build: HashMapWithView<usize, usize>,
}

/// Turn a Ninja file into a build graph: one node for each build statement,
/// in order, which runs its command with `sh -c`, with phony names followed
/// to the paths they stand for; and an edge from each build to the build it
/// awaits for each path it waits for. Fails where those edges form a cycle.
pub fn ninja_to_n2o4(ninja: &NinjaFile) -> (r: Result<ConvertOutput, BuildError>)
    requires
        ninja.wf(),
        forall|i: int|
            0 <= i < ninja.builds@.len() ==> (#[trigger] ninja.builds@[i]).rspfile is None
                && ninja.builds@[i].rspfile_content is None,
    ensures
        match r {
            Ok(out) => {
                &&& out.graph.wf()
                &&& out.graph.ids_in_bounds()
                &&& graph_describes(
                    out.graph.spec_nodes(),
                    out.graph.spec_files(),
                    out.graph.spec_edges(),
                    ninja@,
                    phony_fuel(*ninja),
                )
                &&& producers_known(
                    out.file_to_build@,
                    out.graph.spec_nodes(),
                    out.graph.spec_files(),
                    ninja@.builds,
                    ninja@.phony,
                    phony_fuel(*ninja),
                    ninja@.builds.len(),
                )
                &&& producers_last(
                    out.file_to_build@,
                    out.graph.spec_files(),
                    ninja@.builds,
                    ninja@.phony,
                    phony_fuel(*ninja),
                    ninja@.builds.len(),
                )
            },
            Err(e) => {
                &&& e == BuildError::ContainsCycle
                &&& exists|nodes: Seq<BuildNode>, files: Seq<Seq<char>>, edges: Seq<(usize, usize)>|
                    #[trigger] graph_describes(nodes, files, edges, ninja@, phony_fuel(*ninja)) && has_cycle(edges)
            },
        },
{
    let fuel: usize = if ninja.phony_list.len() < usize::MAX {
        ninja.phony_list.len() + 1
    } else {
        ninja.phony_list.len()
    };
    let ghost fl = fuel as nat;
    let ghost builds = ninja@.builds;
    let ghost ph = ninja@.phony;
    let mut builder = GraphBuilder::new();
    let mut bof: HashMapWithView<usize, usize> = HashMapWithView::new();
    let mut pend: HashMapWithView<usize, Vec<usize>> = HashMapWithView::new();
    let mut k: usize = 0;
    while k < ninja.builds.len()
        invariant
            ninja.wf(),
            builds == ninja@.builds,
            ph == ninja@.phony,
            fl == phony_fuel(*ninja),
            fl == fuel as nat,
            k <= builds.len(),
            builder.wf(),
            nodes_describe(builder.spec_nodes(), builder.spec_files(), builds, ph, fl, k as nat),
            edges_sound(builder.spec_edges(), builds, ph, fl, k as nat),
            producers_known(bof@, builder.spec_nodes(), builder.spec_files(), builds, ph, fl, k as nat),
            producers_last(bof@, builder.spec_files(), builds, ph, fl, k as nat),
            awaited_sound(pend@, bof@, builder.spec_files(), builds, ph, fl, k as nat),
            all_wait_ok(builder.spec_edges(), pend@, builder.spec_files(), builds, ph, fl, k as nat, k as nat),
            edges_justified(builder.spec_edges(), builds, ph, fl, builds.len()),
            edges_cover(builder.spec_edges(), builds, ph, fl, builds.len(), k as nat, k as nat),
        decreases builds.len() - k,
    {
        translate_build(ninja, &mut builder, &mut bof, &mut pend, k, fuel);
        k = k + 1;
    }
    let ghost nodes = builder.spec_nodes();
    let ghost files = builder.spec_files();
    let ghost edges = builder.spec_edges();
    proof {
        lemma_edges_complete(nodes, files, edges, bof@, pend@, builds, ph, fl, k as nat);
        assert(graph_describes(nodes, files, edges, ninja@, fl));
    }
    match builder.build() {
        Ok(graph) => {
            proof {
                assert forall|b: int, j: int|
                    0 <= b < graph.spec_nodes().len() && 0 <= j < graph.spec_nodes()[b].ins@.len()
                        implies (#[trigger] graph.spec_nodes()[b].ins@[j]).0 < graph.spec_files().len() by {
                    assert(node_describes(nodes[b], files, builds[b], ph, fl));
                }
                assert forall|b: int, j: int|
                    0 <= b < graph.spec_nodes().len() && 0 <= j < graph.spec_nodes()[b].outs@.len()
                        implies (#[trigger] graph.spec_nodes()[b].outs@[j]).0 < graph.spec_files().len() by {
                    assert(node_describes(nodes[b], files, builds[b], ph, fl));
                }
            }
            Ok(ConvertOutput { graph, file_to_build: bof })
        },
        Err(e) => Err(e),
    }
}

/// A name that is not followed, because it is not phony or the fuel is
/// spent, stands for itself among the paths the list gives.
proof fn lemma_plain_name_kept(
    ph: Map<Seq<char>, PhonyView>,
    names: Seq<Seq<char>>,
    fuel: nat,
    split: bool,
    i: int,
)
    requires
        0 <= i < names.len(),
        !(fuel > 0 && ph.contains_key(names[i])),
    ensures
        desugar_list(ph, names, fuel, split).0.contains(names[i]),
    decreases names.len(),
{
    let (a, b) = desugar_list(ph, names.drop_last(), fuel, split);
    let (c, d) = desugar(ph, names.last(), fuel, split);
    if i == names.len() - 1 {
        assert(c == seq![names[i]]);
        assert((a + c)[a.len() as int] == names[i]);
    } else {
        assert(names.drop_last()[i] == names[i]);
        lemma_plain_name_kept(ph, names.drop_last(), fuel, split, i);
        let k = choose|k: int| 0 <= k < a.len() && a[k] == names[i];
        assert((a + c)[k] == names[i]);
    }
}

/// The input files of a converted build node are its explicit inputs and
/// its implicit inputs: each of them that is not a phony name is among the
/// node's inputs, so that a change to it makes the build outdated. Each
/// order-only input that is not a phony name is among the paths the node
/// only waits for, and each output that is not a phony name is among the
/// node's outputs.
pub proof fn lemma_node_inputs_cover_statement(ph: Map<Seq<char>, PhonyView>, b: BuildView, fuel: nat)
    ensures
        forall|i: int|
            0 <= i < b.inputs.len() && !(fuel > 0 && ph.contains_key(b.inputs[i])) ==> node_ins(ph, b, fuel).contains(
                #[trigger] b.inputs[i],
            ),
        forall|i: int|
            0 <= i < b.implicit_inputs.len() && !(fuel > 0 && ph.contains_key(b.implicit_inputs[i])) ==> node_ins(
                ph,
                b,
                fuel,
            ).contains(#[trigger] b.implicit_inputs[i]),
        forall|i: int|
            0 <= i < b.order_only_inputs.len() && !(fuel > 0 && ph.contains_key(b.order_only_inputs[i]))
                ==> node_order_only(ph, b, fuel).contains(#[trigger] b.order_only_inputs[i]),
        forall|i: int|
            0 <= i < b.outputs.len() && !(fuel > 0 && ph.contains_key(b.outputs[i])) ==> node_outs(ph, b, fuel).contains(
                #[trigger] b.outputs[i],
            ),
{
    assert forall|i: int|
        0 <= i < b.outputs.len() && !(fuel > 0 && ph.contains_key(b.outputs[i])) implies node_outs(ph, b, fuel).contains(
        #[trigger] b.outputs[i],
    ) by {
        lemma_plain_name_kept(ph, b.outputs, fuel, false, i);
    }
    let x = desugar_list(ph, b.inputs, fuel, true).0;
    let y = desugar_list(ph, b.implicit_inputs, fuel, true).0;
    assert forall|i: int|
        0 <= i < b.inputs.len() && !(fuel > 0 && ph.contains_key(b.inputs[i])) implies node_ins(ph, b, fuel).contains(
        #[trigger] b.inputs[i],
    ) by {
        lemma_plain_name_kept(ph, b.inputs, fuel, true, i);
        let k = choose|k: int| 0 <= k < x.len() && x[k] == b.inputs[i];
        assert((x + y)[k] == b.inputs[i]);
    }
    assert forall|i: int|
        0 <= i < b.implicit_inputs.len() && !(fuel > 0 && ph.contains_key(b.implicit_inputs[i])) implies node_ins(
        ph,
        b,
        fuel,
    ).contains(#[trigger] b.implicit_inputs[i]) by {
        lemma_plain_name_kept(ph, b.implicit_inputs, fuel, true, i);
        let k = choose|k: int| 0 <= k < y.len() && y[k] == b.implicit_inputs[i];
        assert((x + y)[x.len() + k] == b.implicit_inputs[i]);
    }
    let p = desugar_list(ph, b.inputs, fuel, true).1 + desugar_list(ph, b.implicit_inputs, fuel, true).1;
    let z = desugar_list(ph, b.order_only_inputs, fuel, false).0;
    assert forall|i: int|
        0 <= i < b.order_only_inputs.len() && !(fuel > 0 && ph.contains_key(b.order_only_inputs[i]))
            implies node_order_only(ph, b, fuel).contains(#[trigger] b.order_only_inputs[i]) by {
        lemma_plain_name_kept(ph, b.order_only_inputs, fuel, false, i);
        let k = choose|k: int| 0 <= k < z.len() && z[k] == b.order_only_inputs[i];
        assert((p + z)[p.len() + k] == b.order_only_inputs[i]);
    }
}

} // verus!
