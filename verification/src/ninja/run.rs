//! Choosing the builds that the targets asked for stand for.

use crate::graph::BuildId;
use crate::ninja::convert::ConvertOutput;
use crate::collections::{index_map_contents, index_map_get};
use crate::ninja::model::{copy_strings, strs, NinjaFile, PhonyBuild, PhonyView};
use vstd::prelude::*;

verus! {

/// The build that produces a path: the producer recorded for the file of
/// that path, if the path is a file of the graph and has one.
pub open spec fn produced_by(files: Seq<Seq<char>>, bof: Map<usize, usize>, name: Seq<char>) -> Option<usize> {
    if exists|i: int| 0 <= i < files.len() && files[i] == name && bof.contains_key(i as usize) {
        let i = choose|i: int| 0 <= i < files.len() && files[i] == name && bof.contains_key(i as usize);
        Some(bof[i as usize])
    } else {
        None
    }
}

/// The names a phony statement stands for: its inputs, implicit inputs
/// and order-only inputs.
pub open spec fn phony_deps(p: PhonyView) -> Seq<Seq<char>> {
    p.inputs + p.implicit_inputs + p.order_only_inputs
}

/// A target name `n` that no build produces but that is phony stands for
/// each name `m` its phony statement lists.
pub open spec fn expands_to(
    files: Seq<Seq<char>>,
    bof: Map<usize, usize>,
    ph: Map<Seq<char>, PhonyView>,
    n: Seq<char>,
    m: Seq<char>,
) -> bool {
    &&& produced_by(files, bof, n) is None
    &&& ph.contains_key(n)
    &&& phony_deps(ph[n]).contains(m)
}

/// A chain of names from one of the targets, each standing for the next.
pub open spec fn target_path(
    files: Seq<Seq<char>>,
    bof: Map<usize, usize>,
    ph: Map<Seq<char>, PhonyView>,
    targets: Seq<Seq<char>>,
    path: Seq<Seq<char>>,
) -> bool {
    &&& path.len() > 0
    &&& targets.contains(path[0])
    &&& forall|i: int| 0 <= i < path.len() - 1 ==> expands_to(files, bof, ph, #[trigger] path[i], path[i + 1])
}

/// A name the targets stand for: the end of a chain from one of them.
pub open spec fn reached(
    files: Seq<Seq<char>>,
    bof: Map<usize, usize>,
    ph: Map<Seq<char>, PhonyView>,
    targets: Seq<Seq<char>>,
    name: Seq<char>,
) -> bool {
    exists|path: Seq<Seq<char>>| #[trigger] target_path(files, bof, ph, targets, path) && path.last() == name
}

/// The builds the targets ask for: those that produce a name they stand
/// for.
pub open spec fn wanted_builds(
    files: Seq<Seq<char>>,
    bof: Map<usize, usize>,
    ph: Map<Seq<char>, PhonyView>,
    targets: Seq<Seq<char>>,
) -> Set<usize> {
    Set::new(
        |b: usize|
            exists|name: Seq<char>| #[trigger] reached(files, bof, ph, targets, name) && produced_by(files, bof, name) == Some(b),
    )
}

/// The number of entries not yet marked.
pub open spec fn unmarked(v: Seq<bool>) -> nat
    decreases v.len(),
{
    if v.len() == 0 {
        0
    } else {
        unmarked(v.drop_last()) + if v.last() {
            0nat
        } else {
            1nat
        }
    }
}

/// Marking more entries leaves no more unmarked.
proof fn lemma_unmarked_mono(a: Seq<bool>, b: Seq<bool>)
    requires
        a.len() == b.len(),
        forall|i: int| 0 <= i < a.len() && #[trigger] a[i] ==> b[i],
    ensures
        unmarked(b) <= unmarked(a),
    decreases a.len(),
{
    if a.len() > 0 {
        lemma_unmarked_mono(a.drop_last(), b.drop_last());
    }
}

/// Marking an unmarked entry leaves one fewer unmarked.
proof fn lemma_unmarked_mark(a: Seq<bool>, i: int)
    requires
        0 <= i < a.len(),
        !a[i],
    ensures
        unmarked(a.update(i, true)) + 1 == unmarked(a),
    decreases a.len(),
{
    let b = a.update(i, true);
    if i == a.len() - 1 {
        assert(b.drop_last() =~= a.drop_last());
    } else {
        assert(b.drop_last() =~= a.drop_last().update(i, true));
        lemma_unmarked_mark(a.drop_last(), i);
    }
}

/// With distinct paths, the producer of a path is the one recorded for
/// its file.
proof fn lemma_produced_by_file(files: Seq<Seq<char>>, bof: Map<usize, usize>, i: int)
    requires
        crate::graph::distinct_paths(files),
        0 <= i < files.len(),
    ensures
        produced_by(files, bof, files[i]) == if bof.contains_key(i as usize) {
            Some(bof[i as usize])
        } else {
            None::<usize>
        },
{
    if exists|j: int| 0 <= j < files.len() && files[j] == files[i] && bof.contains_key(j as usize) {
        let j = choose|j: int| 0 <= j < files.len() && files[j] == files[i] && bof.contains_key(j as usize);
        assert(i == j);
    }
}

/// A name of a target, or one they stand for, is taken care of: the build
/// that produces it is wanted, or, if none does and it is phony, its phony
/// statement has been expanded.
pub open spec fn covered(
    files: Seq<Seq<char>>,
    bof: Map<usize, usize>,
    ph: Map<Seq<char>, PhonyView>,
    phony_index: Map<Seq<char>, usize>,
    wanted: Seq<BuildId>,
    marked: Seq<bool>,
    name: Seq<char>,
) -> bool {
    match produced_by(files, bof, name) {
        Some(b) => wanted.contains(BuildId(b)),
        None => ph.contains_key(name) ==> marked[phony_index[name] as int],
    }
}

/// Every name a marked phony statement lists is taken care of.
pub open spec fn marked_closed(
    files: Seq<Seq<char>>,
    bof: Map<usize, usize>,
    ph: Map<Seq<char>, PhonyView>,
    phony_index: Map<Seq<char>, usize>,
    phony_list: Seq<PhonyView>,
    wanted: Seq<BuildId>,
    marked: Seq<bool>,
    i: int,
) -> bool {
    forall|m: Seq<char>|
        #[trigger] phony_deps(phony_list[i]).contains(m) ==> covered(files, bof, ph, phony_index, wanted, marked, m)
}

/// Taking care of a name stays so as builds are wanted and statements
/// marked.
proof fn lemma_covered_mono(
    files: Seq<Seq<char>>,
    bof: Map<usize, usize>,
    ph: Map<Seq<char>, PhonyView>,
    phony_index: Map<Seq<char>, usize>,
    w1: Seq<BuildId>,
    m1: Seq<bool>,
    w2: Seq<BuildId>,
    m2: Seq<bool>,
    name: Seq<char>,
)
    requires
        covered(files, bof, ph, phony_index, w1, m1, name),
        forall|w: BuildId| #[trigger] w1.contains(w) ==> w2.contains(w),
        m1.len() == m2.len(),
        forall|i: int| 0 <= i < m1.len() && #[trigger] m1[i] ==> m2[i],
        ph.contains_key(name) ==> phony_index[name] < m1.len(),
    ensures
        covered(files, bof, ph, phony_index, w2, m2, name),
{
}

/// Whether the list holds a build id.
fn contains_build(v: &Vec<BuildId>, b: usize) -> (r: bool)
    ensures
        r == v@.contains(BuildId(b)),
{
    let mut i: usize = 0;
    while i < v.len()
        invariant
            i <= v@.len(),
            forall|j: int| 0 <= j < i ==> v@[j] != BuildId(b),
        decreases v@.len() - i,
    {
        if v[i].0 == b {
            assert(v@[i as int] == BuildId(b));
            return true;
        }
        i = i + 1;
    }
    false
}

/// The names a phony statement lists, in order.
fn phony_dep_names(p: &PhonyBuild) -> (r: Vec<String>)
    ensures
        strs(r@) == phony_deps(p@),
{
    let mut r = copy_strings(&p.inputs);
    append_strings(&mut r, &p.implicit_inputs);
    append_strings(&mut r, &p.order_only_inputs);
    r
}

/// Add copies of the strings of `src` to the end of `dst`.
fn append_strings(dst: &mut Vec<String>, src: &Vec<String>)
    ensures
        strs(final(dst)@) == strs(old(dst)@) + strs(src@),
{
    let ghost d0 = strs(dst@);
    let mut i: usize = 0;
    while i < src.len()
        invariant
            i <= src@.len(),
            strs(dst@) == d0 + strs(src@).subrange(0, i as int),
        decreases src@.len() - i,
    {
        let ghost db = dst@;
        dst.push(src[i].clone());
        proof {
            assert(strs(dst@) =~= strs(db).push(src@[i as int]@));
            assert(d0 + strs(src@).subrange(0, i + 1) =~= (d0 + strs(src@).subrange(0, i as int)).push(
                src@[i as int]@,
            ));
        }
        i = i + 1;
    }
    proof {
        assert(strs(src@).subrange(0, i as int) =~= strs(src@));
    }
}

/// Add the builds a target name stands for to `wanted`, expanding each
/// phony statement at most once.
fn add_target_rec(
    name: &str,
    parsed: &NinjaFile,
    converted: &ConvertOutput,
    wanted: &mut Vec<BuildId>,
    marked: &mut Vec<bool>,
    Ghost(targets): Ghost<Seq<Seq<char>>>,
)
    requires
        parsed.wf(),
        converted.graph.wf(),
        old(marked)@.len() == parsed.phony_list@.len(),
        old(wanted)@.no_duplicates(),
        forall|w: BuildId|
            #[trigger] old(wanted)@.contains(w) ==> wanted_builds(
                converted.graph.spec_files(),
                converted.file_to_build@,
                parsed@.phony,
                targets,
            ).contains(w.0),
        reached(converted.graph.spec_files(), converted.file_to_build@, parsed@.phony, targets, name@),
    ensures
        final(marked)@.len() == old(marked)@.len(),
        forall|i: int| 0 <= i < old(marked)@.len() && #[trigger] old(marked)@[i] ==> final(marked)@[i],
        forall|w: BuildId| #[trigger] old(wanted)@.contains(w) ==> final(wanted)@.contains(w),
        final(wanted)@.no_duplicates(),
        forall|w: BuildId|
            #[trigger] final(wanted)@.contains(w) ==> wanted_builds(
                converted.graph.spec_files(),
                converted.file_to_build@,
                parsed@.phony,
                targets,
            ).contains(w.0),
        covered(
            converted.graph.spec_files(),
            converted.file_to_build@,
            parsed@.phony,
            index_map_contents(parsed.phony),
            final(wanted)@,
            final(marked)@,
            name@,
        ),
        forall|i: int|
            0 <= i < final(marked)@.len() && #[trigger] final(marked)@[i] && !old(marked)@[i] ==> marked_closed(
                converted.graph.spec_files(),
                converted.file_to_build@,
                parsed@.phony,
                index_map_contents(parsed.phony),
                parsed.phony_list@.map_values(|p: PhonyBuild| p@),
                final(wanted)@,
                final(marked)@,
                i,
            ),
    decreases unmarked(old(marked)@),
{
    let ghost files = converted.graph.spec_files();
    let ghost bof = converted.file_to_build@;
    let ghost ph = parsed@.phony;
    let ghost pidx = index_map_contents(parsed.phony);
    let ghost plist = parsed.phony_list@.map_values(|p: PhonyBuild| p@);
    let fid = converted.graph.lookup_fileid(name);
    let produced: Option<usize> = match fid {
        Some(f) => match converted.file_to_build.get(&f.0) {
            Some(b) => Some(*b),
            None => None,
        },
        None => None,
    };
    proof {
        match fid {
            Some(f) => {
                lemma_produced_by_file(files, bof, f.0 as int);
            },
            None => {
                if exists|i: int| 0 <= i < files.len() && files[i] == name@ && bof.contains_key(i as usize) {
                    let i = choose|i: int| 0 <= i < files.len() && files[i] == name@ && bof.contains_key(i as usize);
                    assert(files.contains(name@));
                }
            },
        }
        assert(produced == produced_by(files, bof, name@));
    }
    match produced {
        Some(b) => {
            proof {
                assert(reached(files, bof, ph, targets, name@) && produced_by(files, bof, name@) == Some(b));
                assert(wanted_builds(files, bof, ph, targets).contains(b));
            }
            if !contains_build(wanted, b) {
                let ghost wb = wanted@;
                wanted.push(BuildId(b));
                proof {
                    assert forall|w: BuildId| #[trigger] wb.contains(w) implies wanted@.contains(w) by {
                        let j = choose|j: int| 0 <= j < wb.len() && wb[j] == w;
                        assert(wanted@[j] == w);
                    }
                    assert(wanted@[wanted@.len() - 1] == BuildId(b));
                    assert forall|w: BuildId| #[trigger] wanted@.contains(w) implies wanted_builds(
                        files,
                        bof,
                        ph,
                        targets,
                    ).contains(w.0) by {
                        let j = choose|j: int| 0 <= j < wanted@.len() && wanted@[j] == w;
                        if j < wb.len() {
                            assert(wb[j] == w);
                            assert(wb.contains(w));
                        }
                    }
                    assert forall|x: int, y: int| 0 <= x < wanted@.len() && 0 <= y < wanted@.len() && x != y implies wanted@[x]
                        != wanted@[y] by {
                        if y == wanted@.len() - 1 {
                            assert(wb[x] == wanted@[x]);
                            assert(wb.contains(wanted@[x]));
                        } else if x == wanted@.len() - 1 {
                            assert(wb[y] == wanted@[y]);
                            assert(wb.contains(wanted@[y]));
                        } else {
                            assert(wb[x] == wanted@[x] && wb[y] == wanted@[y]);
                        }
                    }
                }
            }
        },
        None => {
            match index_map_get(&parsed.phony, name) {
                None => {},
                Some(idx) => {
                    if marked[idx] {
                        return;
                    }
                    let ghost entry = marked@;
                    marked.set(idx, true);
                    proof {
                        lemma_unmarked_mark(entry, idx as int);
                    }
                    let p = &parsed.phony_list[idx];
                    let deps = phony_dep_names(p);
                    proof {
                        assert(ph[name@] == p@);
                        assert(plist[idx as int] == p@);
                    }
                    let mut t: usize = 0;
                    while t < deps.len()
                        invariant
                            parsed.wf(),
                            converted.graph.wf(),
                            files == converted.graph.spec_files(),
                            bof == converted.file_to_build@,
                            ph == parsed@.phony,
                            pidx == index_map_contents(parsed.phony),
                            plist == parsed.phony_list@.map_values(|p: PhonyBuild| p@),
                            t <= deps@.len(),
                            strs(deps@) == phony_deps(plist[idx as int]),
                            plist[idx as int] == ph[name@],
                            ph.contains_key(name@),
                            pidx[name@] == idx,
                            idx < marked@.len(),
                            produced_by(files, bof, name@) is None,
                            reached(files, bof, ph, targets, name@),
                            marked@.len() == old(marked)@.len(),
                            old(marked)@.len() == parsed.phony_list@.len(),
                            marked@[idx as int],
                            forall|i: int| 0 <= i < old(marked)@.len() && #[trigger] old(marked)@[i] ==> marked@[i],
                            unmarked(marked@) < unmarked(old(marked)@),
                            forall|w: BuildId| #[trigger] old(wanted)@.contains(w) ==> wanted@.contains(w),
                            wanted@.no_duplicates(),
                            forall|w: BuildId|
                                #[trigger] wanted@.contains(w) ==> wanted_builds(files, bof, ph, targets).contains(w.0),
                            forall|u: int|
                                0 <= u < t ==> covered(files, bof, ph, pidx, wanted@, marked@, #[trigger] strs(deps@)[u]),
                            forall|i: int|
                                0 <= i < marked@.len() && #[trigger] marked@[i] && !old(marked)@[i] && i != idx
                                    ==> marked_closed(files, bof, ph, pidx, plist, wanted@, marked@, i),
                        decreases deps@.len() - t,
                    {
                        let ghost wb = wanted@;
                        let ghost mb = marked@;
                        proof {
                            let path = choose|path: Seq<Seq<char>>|
                                #[trigger] target_path(files, bof, ph, targets, path) && path.last() == name@;
                            let c = deps@[t as int]@;
                            let np = path.push(c);
                            assert(strs(deps@)[t as int] == c);
                            assert(phony_deps(ph[name@]).contains(c));
                            assert(expands_to(files, bof, ph, name@, c));
                            assert forall|i: int| 0 <= i < np.len() - 1 implies expands_to(
                                files,
                                bof,
                                ph,
                                #[trigger] np[i],
                                np[i + 1],
                            ) by {
                                if i < path.len() - 1 {
                                    assert(np[i] == path[i] && np[i + 1] == path[i + 1]);
                                    assert(expands_to(files, bof, ph, path[i], path[i + 1]));
                                } else {
                                    assert(np[i] == name@);
                                }
                            }
                            assert(target_path(files, bof, ph, targets, np));
                            assert(reached(files, bof, ph, targets, c));
                        }
                        add_target_rec(deps[t].as_str(), parsed, converted, wanted, marked, Ghost(targets));
                        proof {
                            lemma_unmarked_mono(mb, marked@);
                            assert forall|u: int| 0 <= u < t + 1 implies covered(
                                files,
                                bof,
                                ph,
                                pidx,
                                wanted@,
                                marked@,
                                #[trigger] strs(deps@)[u],
                            ) by {
                                if u < t {
                                    lemma_covered_mono(files, bof, ph, pidx, wb, mb, wanted@, marked@, strs(deps@)[u]);
                                }
                            }
                            assert forall|i: int|
                                0 <= i < marked@.len() && #[trigger] marked@[i] && !old(marked)@[i] && i != idx
                                    implies marked_closed(files, bof, ph, pidx, plist, wanted@, marked@, i) by {
                                if mb[i] {
                                    assert(marked_closed(files, bof, ph, pidx, plist, wb, mb, i));
                                    assert forall|m: Seq<char>| #[trigger] phony_deps(plist[i]).contains(m) implies covered(
                                        files,
                                        bof,
                                        ph,
                                        pidx,
                                        wanted@,
                                        marked@,
                                        m,
                                    ) by {
                                        lemma_covered_mono(files, bof, ph, pidx, wb, mb, wanted@, marked@, m);
                                    }
                                }
                            }
                        }
                        t = t + 1;
                    }
                    proof {
                        assert forall|m: Seq<char>| #[trigger] phony_deps(plist[idx as int]).contains(m) implies covered(
                            files,
                            bof,
                            ph,
                            pidx,
                            wanted@,
                            marked@,
                            m,
                        ) by {
                            let u = choose|u: int| 0 <= u < phony_deps(plist[idx as int]).len() && phony_deps(plist[idx as int])[u] == m;
                            assert(strs(deps@)[u] == m);
                        }
                        assert(marked_closed(files, bof, ph, pidx, plist, wanted@, marked@, idx as int));
                    }
                }
            }
        },
    }
}


/// With every target taken care of and every marked phony statement
/// closed, every name of a chain from a target is taken care of.
proof fn lemma_path_covered(
    files: Seq<Seq<char>>,
    bof: Map<usize, usize>,
    parsed: NinjaFile,
    wanted: Seq<BuildId>,
    marked: Seq<bool>,
    targets: Seq<Seq<char>>,
    path: Seq<Seq<char>>,
    i: int,
)
    requires
        parsed.wf(),
        marked.len() == parsed.phony_list@.len(),
        forall|u: int|
            0 <= u < targets.len() ==> covered(
                files,
                bof,
                parsed@.phony,
                index_map_contents(parsed.phony),
                wanted,
                marked,
                #[trigger] targets[u],
            ),
        forall|j: int|
            0 <= j < marked.len() && #[trigger] marked[j] ==> marked_closed(
                files,
                bof,
                parsed@.phony,
                index_map_contents(parsed.phony),
                parsed.phony_list@.map_values(|p: PhonyBuild| p@),
                wanted,
                marked,
                j,
            ),
        target_path(files, bof, parsed@.phony, targets, path),
        0 <= i < path.len(),
    ensures
        covered(files, bof, parsed@.phony, index_map_contents(parsed.phony), wanted, marked, path[i]),
    decreases i,
{
    let ph = parsed@.phony;
    let pidx = index_map_contents(parsed.phony);
    let plist = parsed.phony_list@.map_values(|p: PhonyBuild| p@);
    if i == 0 {
        let u = choose|u: int| 0 <= u < targets.len() && targets[u] == path[0];
        assert(covered(files, bof, ph, pidx, wanted, marked, targets[u]));
    } else {
        lemma_path_covered(files, bof, parsed, wanted, marked, targets, path, i - 1);
        let n = path[i - 1];
        assert(expands_to(files, bof, ph, path[i - 1], path[i]));
        let j = pidx[n] as int;
        assert(marked[j]);
        assert(plist[j] == ph[n]);
        assert(marked_closed(files, bof, ph, pidx, plist, wanted, marked, j));
        assert(phony_deps(plist[j]).contains(path[i]));
    }
}

/// The builds to run for the given targets: every build when no target is
/// given; else, without repeats, the builds that produce a target or a name
/// a phony target stands for, phony statements followed through.
pub fn resolve_targets_to_build_ids(targets: &Vec<String>, parsed: &NinjaFile, converted: &ConvertOutput) -> (r: Vec<
    BuildId,
>)
    requires
        parsed.wf(),
        converted.graph.wf(),
    ensures
        targets@.len() == 0 ==> r@ == Seq::new(converted.graph.spec_nodes().len(), |i: int| BuildId(i as usize)),
        targets@.len() > 0 ==> r@.no_duplicates(),
        targets@.len() > 0 ==> forall|b: usize|
            #[trigger] r@.contains(BuildId(b)) <==> wanted_builds(
                converted.graph.spec_files(),
                converted.file_to_build@,
                parsed@.phony,
                strs(targets@),
            ).contains(b),
{
    if targets.len() == 0 {
        let n = converted.graph.node_count();
        let mut all: Vec<BuildId> = Vec::new();
        let mut i: usize = 0;
        while i < n
            invariant
                i <= n,
                all@ == Seq::new(i as nat, |j: int| BuildId(j as usize)),
            decreases n - i,
        {
            all.push(BuildId(i));
            proof {
                assert(all@ =~= Seq::new((i + 1) as nat, |j: int| BuildId(j as usize)));
            }
            i = i + 1;
        }
        return all;
    }
    let ghost files = converted.graph.spec_files();
    let ghost bof = converted.file_to_build@;
    let ghost ph = parsed@.phony;
    let ghost pidx = index_map_contents(parsed.phony);
    let ghost plist = parsed.phony_list@.map_values(|p: PhonyBuild| p@);
    let ghost ts = strs(targets@);
    let mut wanted: Vec<BuildId> = Vec::new();
    let mut marked: Vec<bool> = Vec::new();
    let mut k: usize = 0;
    while k < parsed.phony_list.len()
        invariant
            k <= parsed.phony_list@.len(),
            marked@ == Seq::new(k as nat, |j: int| false),
        decreases parsed.phony_list@.len() - k,
    {
        marked.push(false);
        proof {
            assert(marked@ =~= Seq::new((k + 1) as nat, |j: int| false));
        }
        k = k + 1;
    }
    let mut t: usize = 0;
    while t < targets.len()
        invariant
            parsed.wf(),
            converted.graph.wf(),
            files == converted.graph.spec_files(),
            bof == converted.file_to_build@,
            ph == parsed@.phony,
            pidx == index_map_contents(parsed.phony),
            plist == parsed.phony_list@.map_values(|p: PhonyBuild| p@),
            ts == strs(targets@),
            t <= targets@.len(),
            marked@.len() == parsed.phony_list@.len(),
            wanted@.no_duplicates(),
            forall|w: BuildId| #[trigger] wanted@.contains(w) ==> wanted_builds(files, bof, ph, ts).contains(w.0),
            forall|u: int| 0 <= u < t ==> covered(files, bof, ph, pidx, wanted@, marked@, #[trigger] ts[u]),
            forall|j: int|
                0 <= j < marked@.len() && #[trigger] marked@[j] ==> marked_closed(
                    files,
                    bof,
                    ph,
                    pidx,
                    plist,
                    wanted@,
                    marked@,
                    j,
                ),
        decreases targets@.len() - t,
    {
        let ghost wb = wanted@;
        let ghost mb = marked@;
        proof {
            let path = seq![ts[t as int]];
            assert(ts[t as int] == targets@[t as int]@);
            assert(ts.contains(path[0]));
            assert(target_path(files, bof, ph, ts, path));
            assert(reached(files, bof, ph, ts, targets@[t as int]@));
        }
        add_target_rec(targets[t].as_str(), parsed, converted, &mut wanted, &mut marked, Ghost(ts));
        proof {
            assert forall|u: int| 0 <= u < t + 1 implies covered(files, bof, ph, pidx, wanted@, marked@, #[trigger] ts[u]) by {
                if u < t {
                    lemma_covered_mono(files, bof, ph, pidx, wb, mb, wanted@, marked@, ts[u]);
                } else {
                    assert(ts[u] == targets@[t as int]@);
                }
            }
            assert forall|j: int| 0 <= j < marked@.len() && #[trigger] marked@[j] implies marked_closed(
                files,
                bof,
                ph,
                pidx,
                plist,
                wanted@,
                marked@,
                j,
            ) by {
                if mb[j] {
                    assert(marked_closed(files, bof, ph, pidx, plist, wb, mb, j));
                    assert forall|m: Seq<char>| #[trigger] phony_deps(plist[j]).contains(m) implies covered(
                        files,
                        bof,
                        ph,
                        pidx,
                        wanted@,
                        marked@,
                        m,
                    ) by {
                        lemma_covered_mono(files, bof, ph, pidx, wb, mb, wanted@, marked@, m);
                    }
                }
            }
        }
        t = t + 1;
    }
    proof {
        assert forall|b: usize| wanted_builds(files, bof, ph, ts).contains(b) implies #[trigger] wanted@.contains(BuildId(b)) by {
            let name = choose|name: Seq<char>| #[trigger] reached(files, bof, ph, ts, name) && produced_by(files, bof, name) == Some(b);
            let path = choose|path: Seq<Seq<char>>| #[trigger] target_path(files, bof, ph, ts, path) && path.last() == name;
            lemma_path_covered(files, bof, *parsed, wanted@, marked@, ts, path, path.len() - 1);
        }
    }
    wanted
}

} // verus!
