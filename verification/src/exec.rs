//! Build graph execution: the executor state machine.
//!
//! The executor tracks the state of each build node that needs to be
//! executed. Edges of the graph point from the consumer to the dependency.
//!
//! - Each node reachable from the nodes wanted by the user is tracked.
//! - A node is initially in fresh state.
//! - The number of pending inputs of each node is initialized to the out
//!   degree (the number of input nodes) of the node.
//! - Any fresh node with 0 pending input nodes can be started.
//! - Any newly successfully finished node (success or up-to-date) reduces the
//!   pending input count of all its consumer nodes by 1.
//! - Any newly failed node (failed or skipped) causes all its transitive
//!   consumer nodes to be marked as skipped.
//!
//! Whether a build must run is decided from the database and from the
//! world's answers to a sequence of questions, whether a file exists and
//! when it was modified, asked one at a time: [`stat_decide`] says, for the
//! answers given so far, what the check found or which question comes next.

use crate::collections::{id_set_entries, id_set_insert, id_set_new, id_set_pop};
use crate::collections::{has_cycle, is_walk};
use crate::graph::{
    lemma_acyclic_no_self_edge, lemma_back_closed_holds_reaching, lemma_closed_holds_reached,
    lemma_dependency_in_bounds, lemma_dependent_in_bounds, lemma_edge_in_in_neighbors,
    lemma_edge_in_out_neighbors, lemma_in_neighbors_from_edges, lemma_neighbors_distinct,
    lemma_reaches_prepend, lemma_reaches_refl, lemma_reaches_step, reaches, BuildGraph, BuildId,
};
use crate::db::{
    input_hash_of_digest, same_build_hash, same_input_hash, BuildHash, BuildInfo, BuildInfoView, DbReader, DbView, DbWriter, ExecDb,
    FileInfo, InputHash, Timestamp,
};
use crate::graph::{
    be_bytes_u128, build_hash_stream, hash_build, hash_input_set, input_set_digest, input_set_paths, paths_of, xxh3_128,
    file_produced, BuildNode, FileId,
};
use crate::text::concat;
use crate::world::{World, WorldError};
use indexmap::IndexSet;
use vstd::hash_map::HashMapWithView;
use vstd::prelude::*;

verus! {

/// The configuration of an executor.
#[derive(Debug)]
pub struct ExecConfig {
    /// The maximum amount of actions that can execute in parallel.
    pub parallelism: usize,
}

impl Default for ExecConfig {
    fn default() -> (c: Self)
        ensures
            c.parallelism == 1,
    {
        ExecConfig { parallelism: 1 }
    }
}

/// The status of a build node.
#[derive(Debug, Clone, Copy, PartialEq, Eq, Structural)]
pub enum BuildStatusKind {
    /// The build hasn't been checked yet
    Fresh,
    /// The build has been started
    Started,
    /// The build is up-to-date and does not need running
    UpToDate,
    /// Building has failed
    Failed,
    /// Building has succeeded
    Succeeded,
    /// Cannot run because a dependency has failed
    Skipped,
}

/// The status is final: up-to-date, failed, succeeded or skipped.
pub open spec fn finished_kind(k: BuildStatusKind) -> bool {
    k is UpToDate || k is Failed || k is Succeeded || k is Skipped
}

/// The status is a success: up-to-date or succeeded.
pub open spec fn successful_kind(k: BuildStatusKind) -> bool {
    k is UpToDate || k is Succeeded
}

/// The status is a failure: failed or skipped.
pub open spec fn failed_kind(k: BuildStatusKind) -> bool {
    k is Failed || k is Skipped
}

impl BuildStatusKind {
    /// Whether the status is final.
    pub fn is_finished(self) -> (r: bool)
        ensures
            r == finished_kind(self),
    {
        match self {
            BuildStatusKind::UpToDate | BuildStatusKind::Failed | BuildStatusKind::Succeeded
            | BuildStatusKind::Skipped => true,
            _ => false,
        }
    }

    /// Whether the status is a success.
    pub fn is_successful(self) -> (r: bool)
        ensures
            r == successful_kind(self),
    {
        match self {
            BuildStatusKind::UpToDate | BuildStatusKind::Succeeded => true,
            _ => false,
        }
    }
}

/// The tracked status of one build.
#[derive(Debug, Clone, Copy)]
pub struct BuildStatus {
    pub kind: BuildStatusKind,
    /// The number of input nodes of this build that have yet to finish
    /// successfully.
    pub pending_inputs: usize,
}

/// An error of the executor's own work, as opposed to a build that failed.
#[derive(Debug, Clone)]
pub struct ExecError {
    pub message: String,
}

/// What running one build gave: its final status, or an error of the
/// executor's own work.
#[derive(Debug)]
pub struct BuildNodeResult {
    pub id: BuildId,
    pub result: Result<BuildStatusKind, ExecError>,
}

/// The builds marked in a table of flags.
pub open spec fn marked(v: Seq<bool>) -> Set<usize> {
    Set::new(|u: usize| u < v.len() && v[u as int])
}

/// `d` is tracked and finished successfully.
pub open spec fn succeeded_in(m: Map<usize, BuildStatus>, d: usize) -> bool {
    m.contains_key(d) && successful_kind(m[d].kind)
}

/// How many entries of `ds` have not finished successfully.
pub open spec fn count_unsuccessful(m: Map<usize, BuildStatus>, ds: Seq<usize>) -> nat
    decreases ds.len(),
{
    if ds.len() == 0 {
        0
    } else {
        count_unsuccessful(m, ds.drop_last()) + if succeeded_in(m, ds.last()) {
            0nat
        } else {
            1nat
        }
    }
}

/// The tracked builds whose status satisfies `p`.
pub open spec fn builds_where(m: Map<usize, BuildStatus>, p: spec_fn(BuildStatusKind) -> bool) -> Set<usize> {
    m.dom().filter(|b: usize| p(m[b].kind))
}

/// The tracked builds that have started and not finished.
pub open spec fn started_builds(m: Map<usize, BuildStatus>) -> Set<usize> {
    builds_where(m, |k: BuildStatusKind| k is Started)
}

/// The tracked builds that have finished.
pub open spec fn finished_builds(m: Map<usize, BuildStatus>) -> Set<usize> {
    builds_where(m, |k: BuildStatusKind| finished_kind(k))
}

/// The tracked builds that have failed or were skipped.
pub open spec fn failed_builds(m: Map<usize, BuildStatus>) -> Set<usize> {
    builds_where(m, |k: BuildStatusKind| failed_kind(k))
}

/// `b` is reachable from one of the `starts` along dependency edges.
pub open spec fn reached_from(edges: Seq<(usize, usize)>, starts: Seq<usize>, b: usize) -> bool {
    exists|i: int| 0 <= i < starts.len() && reaches(edges, #[trigger] starts[i], b)
}

/// The statuses after build `x` finished with `stat` and each fresh build
/// listed in `ds` had one pending input less.
pub open spec fn after_inputs_done(m: Map<usize, BuildStatus>, x: usize, stat: BuildStatusKind, ds: Seq<usize>) -> Map<
    usize,
    BuildStatus,
> {
    Map::new(
        |b: usize| m.contains_key(b),
        |b: usize|
            if b == x {
                BuildStatus { kind: stat, pending_inputs: m[x].pending_inputs }
            } else if m[b].kind is Fresh && ds.contains(b) {
                BuildStatus { kind: BuildStatusKind::Fresh, pending_inputs: (m[b].pending_inputs - 1) as usize }
            } else {
                m[b]
            },
    )
}

/// The statuses after build `x` finished successfully with `stat`: each
/// fresh build that depends on `x` has one pending input less.
pub open spec fn after_success(g: BuildGraph, m: Map<usize, BuildStatus>, x: usize, stat: BuildStatusKind) -> Map<
    usize,
    BuildStatus,
> {
    after_inputs_done(m, x, stat, g.spec_dependents(x))
}

/// The entries of `ds` that are tracked and fresh with exactly one pending
/// input, in order: those that become ready when that input succeeds.
pub open spec fn ready_among(m: Map<usize, BuildStatus>, ds: Seq<usize>) -> Seq<usize>
    decreases ds.len(),
{
    if ds.len() == 0 {
        Seq::empty()
    } else {
        let r = ready_among(m, ds.drop_last());
        let d = ds.last();
        if m.contains_key(d) && m[d].kind is Fresh && m[d].pending_inputs == 1 {
            r.push(d)
        } else {
            r
        }
    }
}

/// The statuses after build `x` finished with `stat` and each fresh build in
/// `s` was skipped.
pub open spec fn after_skipping(m: Map<usize, BuildStatus>, x: usize, stat: BuildStatusKind, s: Set<usize>) -> Map<
    usize,
    BuildStatus,
> {
    Map::new(
        |b: usize| m.contains_key(b),
        |b: usize|
            if b == x {
                BuildStatus { kind: stat, pending_inputs: m[x].pending_inputs }
            } else if m[b].kind is Fresh && s.contains(b) {
                BuildStatus { kind: BuildStatusKind::Skipped, pending_inputs: m[b].pending_inputs }
            } else {
                m[b]
            },
    )
}

/// The builds that reach `x` along dependency edges: those that depend on it,
/// directly or transitively.
pub open spec fn reaching(g: BuildGraph, x: usize) -> Set<usize> {
    Set::new(|b: usize| reaches(g.spec_edges(), b, x))
}

/// The statuses after build `x` finished unsuccessfully with `stat`: each
/// fresh build that transitively depends on `x` is skipped.
pub open spec fn after_failure(g: BuildGraph, m: Map<usize, BuildStatus>, x: usize, stat: BuildStatusKind) -> Map<
    usize,
    BuildStatus,
> {
    after_skipping(m, x, stat, reaching(g, x))
}

/// The consistency of the executor's state with its graph.
pub open spec fn state_inv(
    g: BuildGraph,
    m: Map<usize, BuildStatus>,
    pending: Seq<usize>,
    running: nat,
    finished: nat,
    failed: nat,
) -> bool {
    &&& g.wf()
    &&& g.ids_in_bounds()
    &&& m.dom().finite()
    &&& forall|b: usize| #[trigger] m.contains_key(b) ==> b < g.spec_nodes().len()
    // The tracked builds are closed under dependencies.
    &&& forall|b: usize, j: int|
        m.contains_key(b) && 0 <= j < g.spec_dependencies(b).len() ==> m.contains_key(
            #[trigger] g.spec_dependencies(b)[j],
        )
    // A fresh build counts its inputs that have not succeeded.
    &&& forall|b: usize|
        #[trigger] m.contains_key(b) && m[b].kind is Fresh ==> m[b].pending_inputs == count_unsuccessful(
            m,
            g.spec_dependencies(b),
        )
    // A build only starts or succeeds once all its inputs have succeeded.
    &&& forall|b: usize, j: int|
        m.contains_key(b) && (m[b].kind is Started || successful_kind(m[b].kind)) && 0 <= j
            < g.spec_dependencies(b).len() ==> succeeded_in(m, #[trigger] g.spec_dependencies(b)[j])
    // A failure has been passed on: no fresh build has a failed input.
    &&& forall|b: usize, j: int|
        m.contains_key(b) && m[b].kind is Fresh && 0 <= j < g.spec_dependencies(b).len() ==> !(m.contains_key(
            #[trigger] g.spec_dependencies(b)[j],
        ) && failed_kind(m[g.spec_dependencies(b)[j]].kind))
    // The ready set holds exactly the fresh builds with no pending input.
    &&& pending.no_duplicates()
    &&& forall|i: int|
        0 <= i < pending.len() ==> m.contains_key(#[trigger] pending[i]) && m[pending[i]].kind is Fresh
            && m[pending[i]].pending_inputs == 0
    &&& forall|b: usize|
        #[trigger] m.contains_key(b) && m[b].kind is Fresh && m[b].pending_inputs == 0
            ==> pending.contains(b)
    // The counters count the builds in each state.
    &&& running == started_builds(m).len()
    &&& finished == finished_builds(m).len()
    &&& failed == failed_builds(m).len()
}

/// A set of builds below `n` has at most `n` members.
pub proof fn lemma_bounded_set_len(s: Set<usize>, n: usize)
    requires
        forall|x: usize| #[trigger] s.contains(x) ==> x < n,
    ensures
        s.finite(),
        s.len() <= n,
    decreases n,
{
    if n == 0 {
        assert(s =~= Set::<usize>::empty());
    } else {
        let m = (n - 1) as usize;
        let r = s.remove(m);
        lemma_bounded_set_len(r, m);
        if s.contains(m) {
            assert(s =~= r.insert(m));
        } else {
            assert(s =~= r);
        }
    }
}

/// With no build finished successfully, every entry is unsuccessful.
proof fn lemma_count_unsuccessful_none_succeeded(m: Map<usize, BuildStatus>, ds: Seq<usize>)
    requires
        forall|d: usize| #[trigger] m.contains_key(d) ==> !successful_kind(m[d].kind),
    ensures
        count_unsuccessful(m, ds) == ds.len(),
    decreases ds.len(),
{
    if ds.len() > 0 {
        lemma_count_unsuccessful_none_succeeded(m, ds.drop_last());
    }
}

/// What checking a build's inputs found.
#[derive(Debug)]
pub enum NodeInputKind {
    /// The recorded build is current and no input changed since it started.
    UpToDate,
    /// The build must run again.
    Outdated,
    /// An input file of the build does not exist.
    Missing(FileId),
    /// An input file's metadata cannot be read.
    CannotRead(String, WorldError),
}

/// The mathematical value of a [`NodeInputKind`].
pub enum NodeInputView {
    UpToDate,
    Outdated,
    Missing(FileId),
    CannotRead(Seq<char>, WorldError),
}

impl View for NodeInputKind {
    type V = NodeInputView;

    open spec fn view(&self) -> NodeInputView {
        match self {
            NodeInputKind::UpToDate => NodeInputView::UpToDate,
            NodeInputKind::Outdated => NodeInputView::Outdated,
            NodeInputKind::Missing(f) => NodeInputView::Missing(*f),
            NodeInputKind::CannotRead(p, e) => NodeInputView::CannotRead(p@, *e),
        }
    }
}

/// A question put to the world while checking a build: whether a file
/// exists, or when it was last modified.
pub enum Question {
    Exists(String),
    Mtime(String),
}

/// The mathematical value of a [`Question`].
pub enum QuestionView {
    Exists(Seq<char>),
    Mtime(Seq<char>),
}

impl View for Question {
    type V = QuestionView;

    open spec fn view(&self) -> QuestionView {
        match self {
            Question::Exists(p) => QuestionView::Exists(p@),
            Question::Mtime(p) => QuestionView::Mtime(p@),
        }
    }
}

/// Where checking a build stands with the answers the world has given so
/// far: it is decided, or it needs the answer to one more question.
pub enum StatStep {
    Done(NodeInputKind),
    Ask(Question),
}

/// The mathematical value of a [`StatStep`].
pub enum StatStepView {
    Done(NodeInputView),
    Ask(QuestionView),
}

impl View for StatStep {
    type V = StatStepView;

    open spec fn view(&self) -> StatStepView {
        match self {
            StatStep::Done(k) => StatStepView::Done(k@),
            StatStep::Ask(q) => StatStepView::Ask(q@),
        }
    }
}

/// How far one phase of checking a build gets with the answers given.
pub enum PhaseView {
    /// It found what decides the check.
    Found(NodeInputView),
    /// It went through, and the next unused answers about existence and
    /// about modification times are at these positions.
    Through(int, int),
    /// It needs the answer to this question next.
    Ask(QuestionView),
}

/// Checking that the source inputs from the `i`-th on exist, where the
/// world's answers to whether a file exists are `ex`, the `e`-th being the
/// next one. An input that some build produces is not asked about.
pub open spec fn sources_phase(g: BuildGraph, ins: Seq<FileId>, i: int, ex: Seq<bool>, e: int) -> PhaseView
    decreases ins.len() - i,
{
    if i < 0 || i >= ins.len() {
        PhaseView::Through(e, 0)
    } else if file_produced(g, ins[i]) {
        sources_phase(g, ins, i + 1, ex, e)
    } else if e < 0 || e >= ex.len() {
        PhaseView::Ask(QuestionView::Exists(g.spec_files()[ins[i].0 as int]))
    } else if !ex[e] {
        PhaseView::Found(NodeInputView::Missing(ins[i]))
    } else {
        sources_phase(g, ins, i + 1, ex, e + 1)
    }
}

/// Checking that the outputs at `outs` from the `i`-th on exist: one that
/// does not makes the build outdated.
pub open spec fn outputs_phase(outs: Seq<Seq<char>>, i: int, ex: Seq<bool>, e: int) -> PhaseView
    decreases outs.len() - i,
{
    if i < 0 || i >= outs.len() {
        PhaseView::Through(e, 0)
    } else if e < 0 || e >= ex.len() {
        PhaseView::Ask(QuestionView::Exists(outs[i]))
    } else if !ex[e] {
        PhaseView::Found(NodeInputView::Outdated)
    } else {
        outputs_phase(outs, i + 1, ex, e + 1)
    }
}

/// Checking the inputs from the `i`-th on against a build that started at
/// `since`, where the answers about modification times are `mt`, the
/// `m`-th being the next one: each must exist, its time must be readable,
/// and it must not have been modified after `since`.
pub open spec fn inputs_phase(
    files: Seq<Seq<char>>,
    ins: Seq<FileId>,
    i: int,
    since: Timestamp,
    ex: Seq<bool>,
    e: int,
    mt: Seq<Result<Timestamp, WorldError>>,
    m: int,
) -> PhaseView
    decreases ins.len() - i,
{
    if i < 0 || i >= ins.len() {
        PhaseView::Through(e, m)
    } else {
        let p = files[ins[i].0 as int];
        if e < 0 || e >= ex.len() {
            PhaseView::Ask(QuestionView::Exists(p))
        } else if !ex[e] {
            PhaseView::Found(NodeInputView::Missing(ins[i]))
        } else if m < 0 || m >= mt.len() {
            PhaseView::Ask(QuestionView::Mtime(p))
        } else {
            match mt[m] {
                Ok(t) => if t > since {
                    PhaseView::Found(NodeInputView::Outdated)
                } else {
                    inputs_phase(files, ins, i + 1, since, ex, e + 1, mt, m + 1)
                },
                Err(err) => PhaseView::Found(NodeInputView::CannotRead(p, err)),
            }
        }
    }
}

/// Checking the additional inputs from the `i`-th on, as [`inputs_phase`]
/// does, except that a missing one makes the build outdated.
pub open spec fn additional_phase(
    adds: Seq<Seq<char>>,
    i: int,
    since: Timestamp,
    ex: Seq<bool>,
    e: int,
    mt: Seq<Result<Timestamp, WorldError>>,
    m: int,
) -> PhaseView
    decreases adds.len() - i,
{
    if i < 0 || i >= adds.len() {
        PhaseView::Through(e, m)
    } else if e < 0 || e >= ex.len() {
        PhaseView::Ask(QuestionView::Exists(adds[i]))
    } else if !ex[e] {
        PhaseView::Found(NodeInputView::Outdated)
    } else if m < 0 || m >= mt.len() {
        PhaseView::Ask(QuestionView::Mtime(adds[i]))
    } else {
        match mt[m] {
            Ok(t) => if t > since {
                PhaseView::Found(NodeInputView::Outdated)
            } else {
                additional_phase(adds, i + 1, since, ex, e + 1, mt, m + 1)
            },
            Err(err) => PhaseView::Found(NodeInputView::CannotRead(adds[i], err)),
        }
    }
}

/// Where checking a build stands, where the world has answered whether a
/// file exists with `ex` and when it was modified with `mt`, each in the
/// order asked. A missing source input decides first; then, without a
/// current record, the build is outdated; then an output that no longer
/// exists makes it outdated; then the first input, then the first
/// additional input, that is missing, unreadable or modified after the
/// recorded build started decides; else the build is up to date. Where the
/// answers run out before that, the next question is asked.
pub open spec fn stat_step(
    db: DbView,
    g: BuildGraph,
    node: BuildNode,
    h: BuildHash,
    ih: InputHash,
    ex: Seq<bool>,
    mt: Seq<Result<Timestamp, WorldError>>,
) -> StatStepView {
    match sources_phase(g, node.ins@, 0, ex, 0) {
        PhaseView::Ask(q) => StatStepView::Ask(q),
        PhaseView::Found(k) => StatStepView::Done(k),
        PhaseView::Through(e1, _) => if !record_current(db, g.spec_files(), node, h, ih) {
            StatStepView::Done(NodeInputView::Outdated)
        } else {
            match outputs_phase(paths_of(node.outs@, g.spec_files()), 0, ex, e1) {
                PhaseView::Ask(q) => StatStepView::Ask(q),
                PhaseView::Found(k) => StatStepView::Done(k),
                PhaseView::Through(eo, _) => {
                    let since = db.builds[h].last_start;
                    match inputs_phase(g.spec_files(), node.ins@, 0, since, ex, eo, mt, 0) {
                        PhaseView::Ask(q) => StatStepView::Ask(q),
                        PhaseView::Found(k) => StatStepView::Done(k),
                        PhaseView::Through(e2, m2) => match additional_phase(
                            db.builds[h].additional_inputs,
                            0,
                            since,
                            ex,
                            e2,
                            mt,
                            m2,
                        ) {
                            PhaseView::Ask(q) => StatStepView::Ask(q),
                            PhaseView::Found(k) => StatStepView::Done(k),
                            PhaseView::Through(_, _) => StatStepView::Done(NodeInputView::UpToDate),
                        },
                    }
                },
            }
        },
    }
}

/// What checking a build finds once the world has answered every question
/// with `ex` and `mt`.
pub open spec fn checks_to(
    db: DbView,
    g: BuildGraph,
    node: BuildNode,
    h: BuildHash,
    ih: InputHash,
    ex: Seq<bool>,
    mt: Seq<Result<Timestamp, WorldError>>,
    s: NodeInputView,
) -> bool {
    stat_step(db, g, node, h, ih, ex, mt) == StatStepView::Done(s)
}

/// Where every file asked about exists, checking the source inputs from
/// the `i`-th on goes through.
proof fn lemma_sources_all_exist(g: BuildGraph, ins: Seq<FileId>, i: int, ex: Seq<bool>, e: int)
    requires
        0 <= i <= ins.len(),
        0 <= e,
        e + (ins.len() - i) <= ex.len(),
        forall|j: int| 0 <= j < ex.len() ==> #[trigger] ex[j],
    ensures
        sources_phase(g, ins, i, ex, e) matches PhaseView::Through(e2, _) && e2 <= e + (ins.len() - i),
    decreases ins.len() - i,
{
    if i < ins.len() {
        if file_produced(g, ins[i]) {
            lemma_sources_all_exist(g, ins, i + 1, ex, e);
        } else {
            assert(ex[e]);
            lemma_sources_all_exist(g, ins, i + 1, ex, e + 1);
        }
    }
}

/// Where every file asked about exists, checking the outputs from the
/// `i`-th on goes through.
proof fn lemma_outputs_all_exist(outs: Seq<Seq<char>>, i: int, ex: Seq<bool>, e: int)
    requires
        0 <= i <= outs.len(),
        0 <= e,
        e + (outs.len() - i) <= ex.len(),
        forall|j: int| 0 <= j < ex.len() ==> #[trigger] ex[j],
    ensures
        outputs_phase(outs, i, ex, e) == PhaseView::Through(e + (outs.len() - i), 0),
    decreases outs.len() - i,
{
    if i < outs.len() {
        assert(ex[e]);
        lemma_outputs_all_exist(outs, i + 1, ex, e + 1);
    }
}

/// Where every file asked about exists and the `k`-th input's
/// modification time is the `k`-th answer, checking the inputs from the
/// `i`-th on goes through exactly when none of their times is after
/// `since`, and finds the build outdated otherwise.
proof fn lemma_inputs_all_exist(
    files: Seq<Seq<char>>,
    ins: Seq<FileId>,
    i: int,
    since: Timestamp,
    ex: Seq<bool>,
    e: int,
    mt: Seq<Result<Timestamp, WorldError>>,
)
    requires
        0 <= i <= ins.len(),
        0 <= e,
        e + (ins.len() - i) <= ex.len(),
        forall|j: int| 0 <= j < ex.len() ==> #[trigger] ex[j],
        mt.len() == ins.len(),
        forall|k: int| 0 <= k < mt.len() ==> #[trigger] mt[k] is Ok,
    ensures
        inputs_phase(files, ins, i, since, ex, e, mt, i) == if forall|k: int|
            i <= k < ins.len() ==> #[trigger] mt[k]->Ok_0 <= since {
            PhaseView::Through(e + (ins.len() - i), ins.len() as int)
        } else {
            PhaseView::Found(NodeInputView::Outdated)
        },
    decreases ins.len() - i,
{
    if i < ins.len() {
        assert(ex[e]);
        assert(mt[i] is Ok);
        lemma_inputs_all_exist(files, ins, i + 1, since, ex, e + 1, mt);
    }
}

/// With a current record and no additional inputs, where every file
/// asked about exists (outputs included) and the `k`-th input's
/// modification time is the `k`-th answer about times, a build is up to
/// date exactly when no input was modified after the recorded build
/// started, and outdated otherwise.
pub proof fn lemma_up_to_date_iff_no_newer_input(
    db: DbView,
    g: BuildGraph,
    node: BuildNode,
    h: BuildHash,
    ih: InputHash,
    ex: Seq<bool>,
    mt: Seq<Result<Timestamp, WorldError>>,
)
    requires
        record_current(db, g.spec_files(), node, h, ih),
        db.builds[h].additional_inputs.len() == 0,
        ex.len() >= 2 * node.ins@.len() + node.outs@.len(),
        forall|j: int| 0 <= j < ex.len() ==> #[trigger] ex[j],
        mt.len() == node.ins@.len(),
        forall|k: int| 0 <= k < mt.len() ==> #[trigger] mt[k] is Ok,
    ensures
        checks_to(
            db,
            g,
            node,
            h,
            ih,
            ex,
            mt,
            if forall|k: int| 0 <= k < mt.len() ==> #[trigger] mt[k]->Ok_0 <= db.builds[h].last_start {
                NodeInputView::UpToDate
            } else {
                NodeInputView::Outdated
            },
        ),
{
    let files = g.spec_files();
    let ins = node.ins@;
    lemma_sources_all_exist(g, ins, 0, ex, 0);
    lemma_sources_phase(g, ins, 0, ex, 0);
    let e1 = sources_phase(g, ins, 0, ex, 0)->Through_0;
    let outs = paths_of(node.outs@, files);
    lemma_outputs_all_exist(outs, 0, ex, e1);
    let eo = e1 + outs.len();
    lemma_inputs_all_exist(files, ins, 0, db.builds[h].last_start, ex, eo, mt);
}

/// A build whose output no longer exists is outdated, whatever its inputs:
/// with a current record, where the source inputs exist and the first
/// output asked about does not, checking the build finds it outdated.
pub proof fn lemma_missing_output_is_outdated(
    db: DbView,
    g: BuildGraph,
    node: BuildNode,
    h: BuildHash,
    ih: InputHash,
    ex: Seq<bool>,
    mt: Seq<Result<Timestamp, WorldError>>,
    e1: int,
)
    requires
        record_current(db, g.spec_files(), node, h, ih),
        sources_phase(g, node.ins@, 0, ex, 0) == PhaseView::Through(e1, 0),
        node.outs@.len() > 0,
        0 <= e1 < ex.len(),
        !ex[e1],
    ensures
        checks_to(db, g, node, h, ih, ex, mt, NodeInputView::Outdated),
{
}

/// Each file id of the node names a file of the graph.
pub open spec fn node_in_bounds(node: BuildNode, files: Seq<Seq<char>>) -> bool {
    &&& forall|k: int| 0 <= k < node.ins@.len() ==> (#[trigger] node.ins@[k]).0 < files.len()
    &&& forall|k: int| 0 <= k < node.outs@.len() ==> (#[trigger] node.outs@[k]).0 < files.len()
}

/// The recorded output `p` of build `h` still stands: the database says it
/// was produced by `h`, and not seen after the build last completed.
pub open spec fn output_current(db: DbView, p: Seq<char>, h: BuildHash, info: BuildInfoView) -> bool {
    &&& db.files.contains_key(p)
    &&& db.files[p].generated_by == h
    &&& match info.last_end {
        Some(end) => db.files[p].last_seen <= end,
        None => true,
    }
}

/// The database's record of a build is current: the build is recorded with
/// the same input set, and each of its outputs still stands.
pub open spec fn record_current(db: DbView, files: Seq<Seq<char>>, node: BuildNode, h: BuildHash, ih: InputHash) -> bool {
    &&& db.builds.contains_key(h)
    &&& forall|k: int|
        0 <= k < node.outs@.len() ==> output_current(db, #[trigger] paths_of(node.outs@, files)[k], h, db.builds[h])
    &&& db.builds[h].input_set_digest == ih
}

/// The file records after the outputs at `paths` were seen as `fi`.
pub open spec fn with_outputs_seen(files: Map<Seq<char>, FileInfo>, paths: Seq<Seq<char>>, fi: FileInfo) -> Map<
    Seq<char>,
    FileInfo,
> {
    Map::new(|p: Seq<char>| files.contains_key(p) || paths.contains(p), |p: Seq<char>| if paths.contains(p) {
        fi
    } else {
        files[p]
    })
}

/// The file records without the outputs at `paths`.
pub open spec fn without_outputs(files: Map<Seq<char>, FileInfo>, paths: Seq<Seq<char>>) -> Map<Seq<char>, FileInfo> {
    Map::new(|p: Seq<char>| files.contains_key(p) && !paths.contains(p), |p: Seq<char>| files[p])
}

/// The database after a build that started at `start` and completed
/// successfully at `end` was recorded: its outputs were seen at `end`.
pub open spec fn after_write(
    db: DbView,
    files: Seq<Seq<char>>,
    node: BuildNode,
    h: BuildHash,
    ih: InputHash,
    start: Timestamp,
    end: Timestamp,
) -> DbView {
    DbView {
        builds: db.builds.insert(
            h,
            BuildInfoView { last_start: start, last_end: Some(end), input_set_digest: ih, additional_inputs: Seq::empty() },
        ),
        files: with_outputs_seen(db.files, paths_of(node.outs@, files), FileInfo { last_seen: end, generated_by: h }),
    }
}

/// The database after the record of a build and of its outputs was removed.
pub open spec fn after_invalidate(db: DbView, files: Seq<Seq<char>>, node: BuildNode, h: BuildHash) -> DbView {
    DbView { builds: db.builds.remove(h), files: without_outputs(db.files, paths_of(node.outs@, files)) }
}

/// The hash that identifies a build.
pub open spec fn spec_build_hash(node: BuildNode, files: Seq<Seq<char>>) -> BuildHash {
    choose|h: BuildHash| h.0@ == be_bytes_u128(xxh3_128(build_hash_stream(node, files)))
}

/// The hash of a build's input set.
pub open spec fn spec_input_hash(g: BuildGraph, b: usize) -> InputHash {
    choose|h: InputHash| h.0@ == input_set_digest(g, b).subrange(0, 16)
}

/// Pushing onto a sequence adds exactly the pushed item.
pub proof fn lemma_push_contains<A>(s: Seq<A>, a: A)
    ensures
        forall|b: A| #[trigger] s.push(a).contains(b) == (s.contains(b) || b == a),
{
    assert forall|b: A| #[trigger] s.push(a).contains(b) == (s.contains(b) || b == a) by {
        if s.push(a).contains(b) {
            let k = choose|k: int| 0 <= k < s.push(a).len() && s.push(a)[k] == b;
            if k < s.len() {
                assert(s[k] == b);
            }
        }
        if s.contains(b) {
            let k = choose|k: int| 0 <= k < s.len() && s[k] == b;
            assert(s.push(a)[k] == b);
        }
        if b == a {
            assert(s.push(a)[s.len() as int] == b);
        }
    }
}

/// How far one phase of checking a build got, as [`PhaseView`] says.
pub enum Phase {
    Found(NodeInputKind),
    Through(usize, usize),
    Ask(Question),
}

impl View for Phase {
    type V = PhaseView;

    open spec fn view(&self) -> PhaseView {
        match self {
            Phase::Found(k) => PhaseView::Found(k@),
            Phase::Through(e, m) => PhaseView::Through(*e as int, *m as int),
            Phase::Ask(q) => PhaseView::Ask(q@),
        }
    }
}

/// What checking the source inputs can come to: a question about whether
/// a file exists, asked when the answers run out; a source input that is
/// missing; or having gone through, using one answer for each source.
proof fn lemma_sources_phase(g: BuildGraph, ins: Seq<FileId>, i: int, ex: Seq<bool>, e: int)
    requires
        0 <= i <= ins.len(),
        0 <= e,
    ensures
        match sources_phase(g, ins, i, ex, e) {
            PhaseView::Ask(q) => q is Exists && ex.len() < e + (ins.len() - i),
            PhaseView::Found(k) => k matches NodeInputView::Missing(f) && ins.contains(f) && !file_produced(g, f),
            PhaseView::Through(e2, m2) => e <= e2 <= e + (ins.len() - i) && m2 == 0,
        },
    decreases ins.len() - i,
{
    if i < ins.len() {
        if file_produced(g, ins[i]) {
            lemma_sources_phase(g, ins, i + 1, ex, e);
        } else if e < ex.len() && ex[e] {
            lemma_sources_phase(g, ins, i + 1, ex, e + 1);
        } else if e < ex.len() {
            assert(ins[i] == ins[i]);
            assert(ins.contains(ins[i]));
        }
    }
}

/// What checking the outputs can come to: a question about whether one
/// exists; the build outdated; or having gone through, one answer each.
proof fn lemma_outputs_phase(outs: Seq<Seq<char>>, i: int, ex: Seq<bool>, e: int)
    requires
        0 <= i <= outs.len(),
        0 <= e,
    ensures
        match outputs_phase(outs, i, ex, e) {
            PhaseView::Ask(q) => q is Exists && ex.len() < e + (outs.len() - i),
            PhaseView::Found(k) => k is Outdated,
            PhaseView::Through(e2, m2) => e2 == e + (outs.len() - i) && m2 == 0,
        },
    decreases outs.len() - i,
{
    if i < outs.len() && e < ex.len() && ex[e] {
        lemma_outputs_phase(outs, i + 1, ex, e + 1);
    }
}

/// What checking the inputs can come to: a question, asked when the
/// answers of its kind run out; a finding other than being up to date; or
/// having gone through, one answer of each kind for each input.
proof fn lemma_inputs_phase(
    files: Seq<Seq<char>>,
    ins: Seq<FileId>,
    i: int,
    since: Timestamp,
    ex: Seq<bool>,
    e: int,
    mt: Seq<Result<Timestamp, WorldError>>,
    m: int,
)
    requires
        0 <= i <= ins.len(),
        0 <= e,
        0 <= m,
    ensures
        match inputs_phase(files, ins, i, since, ex, e, mt, m) {
            PhaseView::Ask(q) => match q {
                QuestionView::Exists(_) => ex.len() < e + (ins.len() - i),
                QuestionView::Mtime(_) => mt.len() < m + (ins.len() - i),
            },
            PhaseView::Found(k) => !(k is UpToDate),
            PhaseView::Through(e2, m2) => e2 == e + (ins.len() - i) && m2 == m + (ins.len() - i),
        },
    decreases ins.len() - i,
{
    if i < ins.len() && e < ex.len() && ex[e] && m < mt.len() {
        lemma_inputs_phase(files, ins, i + 1, since, ex, e + 1, mt, m + 1);
    }
}

/// What checking the additional inputs can come to, as for the inputs.
proof fn lemma_additional_phase(
    adds: Seq<Seq<char>>,
    i: int,
    since: Timestamp,
    ex: Seq<bool>,
    e: int,
    mt: Seq<Result<Timestamp, WorldError>>,
    m: int,
)
    requires
        0 <= i <= adds.len(),
        0 <= e,
        0 <= m,
    ensures
        match additional_phase(adds, i, since, ex, e, mt, m) {
            PhaseView::Ask(q) => match q {
                QuestionView::Exists(_) => ex.len() < e + (adds.len() - i),
                QuestionView::Mtime(_) => mt.len() < m + (adds.len() - i),
            },
            PhaseView::Found(k) => !(k is UpToDate),
            PhaseView::Through(e2, m2) => e2 == e + (adds.len() - i) && m2 == m + (adds.len() - i),
        },
    decreases adds.len() - i,
{
    if i < adds.len() && e < ex.len() && ex[e] && m < mt.len() {
        lemma_additional_phase(adds, i + 1, since, ex, e + 1, mt, m + 1);
    }
}

/// The number of questions about whether a file exists that checking a
/// build can ask.
pub open spec fn exists_bound(db: DbView, node: BuildNode, h: BuildHash) -> nat {
    2 * node.ins@.len() + node.outs@.len() + if db.builds.contains_key(h) {
        db.builds[h].additional_inputs.len()
    } else {
        0
    }
}

/// The number of questions about modification times that checking a build
/// can ask.
pub open spec fn mtime_bound(db: DbView, node: BuildNode, h: BuildHash) -> nat {
    node.ins@.len() + if db.builds.contains_key(h) {
        db.builds[h].additional_inputs.len()
    } else {
        0
    }
}

/// Checking a build asks a bounded number of questions: a question of each
/// kind is only asked while fewer answers of that kind than the bound were
/// given.
pub proof fn lemma_stat_step_bounded(
    db: DbView,
    g: BuildGraph,
    node: BuildNode,
    h: BuildHash,
    ih: InputHash,
    ex: Seq<bool>,
    mt: Seq<Result<Timestamp, WorldError>>,
)
    ensures
        stat_step(db, g, node, h, ih, ex, mt) matches StatStepView::Ask(QuestionView::Exists(_)) ==> ex.len()
            < exists_bound(db, node, h),
        stat_step(db, g, node, h, ih, ex, mt) matches StatStepView::Ask(QuestionView::Mtime(_)) ==> mt.len()
            < mtime_bound(db, node, h),
{
    let files = g.spec_files();
    lemma_sources_phase(g, node.ins@, 0, ex, 0);
    if let PhaseView::Through(e1, _) = sources_phase(g, node.ins@, 0, ex, 0) {
        if record_current(db, files, node, h, ih) {
            let outs = paths_of(node.outs@, files);
            lemma_outputs_phase(outs, 0, ex, e1);
            if let PhaseView::Through(eo, _) = outputs_phase(outs, 0, ex, e1) {
                let since = db.builds[h].last_start;
                lemma_inputs_phase(files, node.ins@, 0, since, ex, eo, mt, 0);
                if let PhaseView::Through(e2, m2) = inputs_phase(files, node.ins@, 0, since, ex, eo, mt, 0) {
                    lemma_additional_phase(db.builds[h].additional_inputs, 0, since, ex, e2, mt, m2);
                }
            }
        }
    }
}

/// What checking a build finds agrees with the database: it is up to date,
/// or an input cannot be read, only with a current record; a missing input
/// is a source input or comes with a current record; and without a current
/// record the build is outdated or misses a source input.
pub proof fn lemma_checks_to_record(
    db: DbView,
    g: BuildGraph,
    node: BuildNode,
    h: BuildHash,
    ih: InputHash,
    ex: Seq<bool>,
    mt: Seq<Result<Timestamp, WorldError>>,
    s: NodeInputView,
)
    requires
        checks_to(db, g, node, h, ih, ex, mt, s),
    ensures
        s is UpToDate ==> record_current(db, g.spec_files(), node, h, ih),
        s is CannotRead ==> record_current(db, g.spec_files(), node, h, ih),
        s matches NodeInputView::Missing(f) ==> node.ins@.contains(f) && (record_current(
            db,
            g.spec_files(),
            node,
            h,
            ih,
        ) || !file_produced(g, f)),
        !record_current(db, g.spec_files(), node, h, ih) ==> s is Outdated || s is Missing,
{
    let files = g.spec_files();
    lemma_sources_phase(g, node.ins@, 0, ex, 0);
    if let PhaseView::Through(e1, _) = sources_phase(g, node.ins@, 0, ex, 0) {
        if record_current(db, files, node, h, ih) {
            let outs = paths_of(node.outs@, files);
            lemma_outputs_phase(outs, 0, ex, e1);
            if let PhaseView::Through(eo, _) = outputs_phase(outs, 0, ex, e1) {
                let since = db.builds[h].last_start;
                lemma_inputs_phase(files, node.ins@, 0, since, ex, eo, mt, 0);
                lemma_inputs_missing(files, node.ins@, 0, since, ex, eo, mt, 0);
                if let PhaseView::Through(e2, m2) = inputs_phase(files, node.ins@, 0, since, ex, eo, mt, 0) {
                    lemma_additional_phase(db.builds[h].additional_inputs, 0, since, ex, e2, mt, m2);
                    lemma_additional_not_missing(db.builds[h].additional_inputs, 0, since, ex, e2, mt, m2);
                }
            }
        }
    }
}

/// An input found missing while checking the inputs is one of them.
proof fn lemma_inputs_missing(
    files: Seq<Seq<char>>,
    ins: Seq<FileId>,
    i: int,
    since: Timestamp,
    ex: Seq<bool>,
    e: int,
    mt: Seq<Result<Timestamp, WorldError>>,
    m: int,
)
    requires
        0 <= i,
    ensures
        inputs_phase(files, ins, i, since, ex, e, mt, m) matches PhaseView::Found(NodeInputView::Missing(f))
            ==> ins.contains(f),
    decreases ins.len() - i,
{
    if i < ins.len() {
        assert(ins.contains(ins[i]));
        lemma_inputs_missing(files, ins, i + 1, since, ex, e + 1, mt, m + 1);
    }
}

/// Checking the additional inputs never finds one missing: a missing one
/// makes the build outdated.
proof fn lemma_additional_not_missing(
    adds: Seq<Seq<char>>,
    i: int,
    since: Timestamp,
    ex: Seq<bool>,
    e: int,
    mt: Seq<Result<Timestamp, WorldError>>,
    m: int,
)
    ensures
        !(additional_phase(adds, i, since, ex, e, mt, m) matches PhaseView::Found(NodeInputView::Missing(_))),
    decreases adds.len() - i,
{
    if 0 <= i < adds.len() {
        lemma_additional_not_missing(adds, i + 1, since, ex, e + 1, mt, m + 1);
    }
}

/// Check the source inputs against the world's answers `ex`, as
/// [`sources_phase`] says.
fn sources_check(graph: &BuildGraph, ins: &Vec<FileId>, ex: &Vec<bool>) -> (r: Phase)
    requires
        forall|k: int| 0 <= k < ins@.len() ==> (#[trigger] ins@[k]).0 < graph.spec_files().len(),
    ensures
        r@ == sources_phase(*graph, ins@, 0, ex@, 0),
        r matches Phase::Through(e, m) ==> e <= ex@.len() && m == 0,
{
    let mut k: usize = 0;
    let mut e: usize = 0;
    while k < ins.len()
        invariant
            k <= ins@.len(),
            e <= k,
            e <= ex@.len(),
            forall|j: int| 0 <= j < ins@.len() ==> (#[trigger] ins@[j]).0 < graph.spec_files().len(),
            sources_phase(*graph, ins@, 0, ex@, 0) == sources_phase(*graph, ins@, k as int, ex@, e as int),
        decreases ins@.len() - k,
    {
        let f = ins[k];
        if !graph.produces_file(f) {
            if e >= ex.len() {
                let p = graph.lookup_path(f).unwrap();
                return Phase::Ask(Question::Exists(p.clone()));
            }
            if !ex[e] {
                return Phase::Found(NodeInputKind::Missing(f));
            }
            e = e + 1;
        }
        k = k + 1;
    }
    Phase::Through(e, 0)
}

/// Check that the outputs exist, against the answers from the `e0`-th on,
/// as [`outputs_phase`] says.
fn outputs_check(graph: &BuildGraph, outs: &Vec<FileId>, ex: &Vec<bool>, e0: usize) -> (r: Phase)
    requires
        forall|k: int| 0 <= k < outs@.len() ==> (#[trigger] outs@[k]).0 < graph.spec_files().len(),
        e0 <= ex@.len(),
    ensures
        r@ == outputs_phase(paths_of(outs@, graph.spec_files()), 0, ex@, e0 as int),
        r matches Phase::Through(e, m) ==> e <= ex@.len() && m == 0,
{
    let ghost ps = paths_of(outs@, graph.spec_files());
    let mut k: usize = 0;
    let mut e: usize = e0;
    while k < outs.len()
        invariant
            k <= outs@.len(),
            e0 <= e <= ex@.len(),
            ps == paths_of(outs@, graph.spec_files()),
            forall|j: int| 0 <= j < outs@.len() ==> (#[trigger] outs@[j]).0 < graph.spec_files().len(),
            outputs_phase(ps, 0, ex@, e0 as int) == outputs_phase(ps, k as int, ex@, e as int),
        decreases outs@.len() - k,
    {
        let p = graph.lookup_path(outs[k]).unwrap();
        assert(p@ == ps[k as int]);
        if e >= ex.len() {
            return Phase::Ask(Question::Exists(p.clone()));
        }
        if !ex[e] {
            return Phase::Found(NodeInputKind::Outdated);
        }
        e = e + 1;
        k = k + 1;
    }
    Phase::Through(e, 0)
}

/// Check the inputs against a build that started at `since`, with the
/// answers from the `e0`-th on and the modification times from the first
/// on, as [`inputs_phase`] says.
fn inputs_check(
    graph: &BuildGraph,
    ins: &Vec<FileId>,
    since: Timestamp,
    ex: &Vec<bool>,
    e0: usize,
    mt: &Vec<Result<Timestamp, WorldError>>,
) -> (r: Phase)
    requires
        forall|k: int| 0 <= k < ins@.len() ==> (#[trigger] ins@[k]).0 < graph.spec_files().len(),
        e0 <= ex@.len(),
    ensures
        r@ == inputs_phase(graph.spec_files(), ins@, 0, since, ex@, e0 as int, mt@, 0),
        r matches Phase::Through(e, m) ==> e <= ex@.len() && m <= mt@.len(),
{
    let ghost files = graph.spec_files();
    let mut k: usize = 0;
    let mut e: usize = e0;
    let mut m: usize = 0;
    while k < ins.len()
        invariant
            k <= ins@.len(),
            e0 <= e <= ex@.len(),
            m <= mt@.len(),
            files == graph.spec_files(),
            forall|j: int| 0 <= j < ins@.len() ==> (#[trigger] ins@[j]).0 < files.len(),
            inputs_phase(files, ins@, 0, since, ex@, e0 as int, mt@, 0) == inputs_phase(
                files,
                ins@,
                k as int,
                since,
                ex@,
                e as int,
                mt@,
                m as int,
            ),
        decreases ins@.len() - k,
    {
        let f = ins[k];
        let p = graph.lookup_path(f).unwrap();
        assert(p@ == files[ins@[k as int].0 as int]);
        if e >= ex.len() {
            return Phase::Ask(Question::Exists(p.clone()));
        }
        if !ex[e] {
            return Phase::Found(NodeInputKind::Missing(f));
        }
        if m >= mt.len() {
            return Phase::Ask(Question::Mtime(p.clone()));
        }
        match &mt[m] {
            Ok(t) => {
                if *t > since {
                    return Phase::Found(NodeInputKind::Outdated);
                }
            },
            Err(err) => {
                return Phase::Found(NodeInputKind::CannotRead(p.clone(), WorldError { message: err.message.clone() }));
            },
        }
        e = e + 1;
        m = m + 1;
        k = k + 1;
    }
    Phase::Through(e, m)
}

/// Check the additional inputs against a build that started at `since`,
/// with the answers from the `e0`-th and `m0`-th on, as
/// [`additional_phase`] says.
fn additional_check(
    adds: &Vec<String>,
    since: Timestamp,
    ex: &Vec<bool>,
    e0: usize,
    mt: &Vec<Result<Timestamp, WorldError>>,
    m0: usize,
) -> (r: Phase)
    requires
        e0 <= ex@.len(),
        m0 <= mt@.len(),
    ensures
        r@ == additional_phase(adds@.map_values(|s: String| s@), 0, since, ex@, e0 as int, mt@, m0 as int),
{
    let ghost av = adds@.map_values(|s: String| s@);
    let mut k: usize = 0;
    let mut e: usize = e0;
    let mut m: usize = m0;
    while k < adds.len()
        invariant
            k <= adds@.len(),
            e0 <= e <= ex@.len(),
            m0 <= m <= mt@.len(),
            av == adds@.map_values(|s: String| s@),
            additional_phase(av, 0, since, ex@, e0 as int, mt@, m0 as int) == additional_phase(
                av,
                k as int,
                since,
                ex@,
                e as int,
                mt@,
                m as int,
            ),
        decreases adds@.len() - k,
    {
        let p = &adds[k];
        assert(p@ == av[k as int]);
        if e >= ex.len() {
            return Phase::Ask(Question::Exists(p.clone()));
        }
        if !ex[e] {
            return Phase::Found(NodeInputKind::Outdated);
        }
        if m >= mt.len() {
            return Phase::Ask(Question::Mtime(p.clone()));
        }
        match &mt[m] {
            Ok(t) => {
                if *t > since {
                    return Phase::Found(NodeInputKind::Outdated);
                }
            },
            Err(err) => {
                return Phase::Found(NodeInputKind::CannotRead(p.clone(), WorldError { message: err.message.clone() }));
            },
        }
        e = e + 1;
        m = m + 1;
        k = k + 1;
    }
    Phase::Through(e, m)
}

/// The database's record of a build, where it is current.
fn current_record<D: DbReader>(
    db: &D,
    graph: &BuildGraph,
    node: &BuildNode,
    build_hash: BuildHash,
    input_hash: InputHash,
) -> (r: Option<BuildInfo>)
    requires
        node_in_bounds(*node, graph.spec_files()),
    ensures
        r is Some <==> record_current(db.contents(), graph.spec_files(), *node, build_hash, input_hash),
        r matches Some(i) ==> i@ == db.contents().builds[build_hash],
{
    let ghost files = graph.spec_files();
    let ghost outs = paths_of(node.outs@, files);
    let info = match db.get_build_info(build_hash) {
        Some(i) => i,
        None => {
            return None;
        },
    };
    let ghost iv = info@;
    let mut k: usize = 0;
    while k < node.outs.len()
        invariant
            node_in_bounds(*node, files),
            files == graph.spec_files(),
            outs == paths_of(node.outs@, files),
            db.contents().builds.contains_key(build_hash),
            iv == db.contents().builds[build_hash],
            iv == info@,
            k <= node.outs@.len(),
            forall|j: int| 0 <= j < k ==> output_current(db.contents(), #[trigger] outs[j], build_hash, iv),
        decreases node.outs@.len() - k,
    {
        let path = graph.lookup_path(node.outs[k]).unwrap();
        assert(path@ == outs[k as int]);
        let fi = match db.get_file_info(path.as_str()) {
            Some(f) => f,
            None => {
                assert(!output_current(db.contents(), outs[k as int], build_hash, iv));
                return None;
            },
        };
        if !same_build_hash(&fi.generated_by, &build_hash) {
            assert(!output_current(db.contents(), outs[k as int], build_hash, iv));
            return None;
        }
        match info.last_end {
            Some(end) => {
                if fi.last_seen > end {
                    assert(!output_current(db.contents(), outs[k as int], build_hash, iv));
                    return None;
                }
            },
            None => {},
        }
        k = k + 1;
    }
    if !same_input_hash(&info.input_set_digest, &input_hash) {
        return None;
    }
    Some(info)
}

/// Where checking a build stands with the answers the world has given so
/// far, as [`stat_step`] says: decided, or the next question to ask. The
/// answers `ex` to whether a file exists and `mt` to when it was modified
/// are each in the order asked.
pub fn stat_decide<D: DbReader>(
    db: &D,
    graph: &BuildGraph,
    node: &BuildNode,
    build_hash: BuildHash,
    input_hash: InputHash,
    ex: &Vec<bool>,
    mt: &Vec<Result<Timestamp, WorldError>>,
) -> (r: StatStep)
    requires
        node_in_bounds(*node, graph.spec_files()),
    ensures
        r@ == stat_step(db.contents(), *graph, *node, build_hash, input_hash, ex@, mt@),
{
    let e1 = match sources_check(graph, &node.ins, ex) {
        Phase::Ask(q) => {
            return StatStep::Ask(q);
        },
        Phase::Found(k) => {
            return StatStep::Done(k);
        },
        Phase::Through(e, _) => e,
    };
    let info = match current_record(db, graph, node, build_hash, input_hash) {
        Some(i) => i,
        None => {
            return StatStep::Done(NodeInputKind::Outdated);
        },
    };
    let eo = match outputs_check(graph, &node.outs, ex, e1) {
        Phase::Ask(q) => {
            return StatStep::Ask(q);
        },
        Phase::Found(k) => {
            return StatStep::Done(k);
        },
        Phase::Through(e, _) => e,
    };
    // The modify time should be before the start time of the last build
    // run, i.e. the inputs should not be modified after the build started.
    let since = info.last_start;
    let (e2, m2) = match inputs_check(graph, &node.ins, since, ex, eo, mt) {
        Phase::Ask(q) => {
            return StatStep::Ask(q);
        },
        Phase::Found(k) => {
            return StatStep::Done(k);
        },
        Phase::Through(e, m) => (e, m),
    };
    // The additional inputs are not known beforehand. A missing one is no
    // hard error, unlike a fixed input: other aspects of the build may have
    // changed, so the build is outdated.
    match additional_check(&info.additional_inputs, since, ex, e2, mt, m2) {
        Phase::Ask(q) => StatStep::Ask(q),
        Phase::Found(k) => StatStep::Done(k),
        Phase::Through(_, _) => StatStep::Done(NodeInputKind::UpToDate),
    }
}

/// Determine if the node is up-to-date by checking its inputs.
///
/// The check is [`stat_decide`], asked again each time the world has
/// answered its next question: each source input, one that no build of the
/// graph produces, must exist. Then the database decides: without a
/// current record the build is outdated. Otherwise each output must still
/// exist, and each input file, then each additional input recorded for the
/// build, must exist and must not have been modified after the recorded
/// build started.
pub fn stat_node<D: DbReader, W: World>(
    db: &D,
    world: &W,
    graph: &BuildGraph,
    node: &BuildNode,
    build_hash: BuildHash,
    input_hash: InputHash,
) -> (r: NodeInputKind)
    requires
        node_in_bounds(*node, graph.spec_files()),
    ensures
        exists|ex: Seq<bool>, mt: Seq<Result<Timestamp, WorldError>>|
            #[trigger] checks_to(db.contents(), *graph, *node, build_hash, input_hash, ex, mt, r@),
{
    let ghost be = exists_bound(db.contents(), *node, build_hash);
    let ghost bm = mtime_bound(db.contents(), *node, build_hash);
    let mut ex: Vec<bool> = Vec::new();
    let mut mt: Vec<Result<Timestamp, WorldError>> = Vec::new();
    loop
        invariant
            node_in_bounds(*node, graph.spec_files()),
            be == exists_bound(db.contents(), *node, build_hash),
            bm == mtime_bound(db.contents(), *node, build_hash),
            ex@.len() <= be,
            mt@.len() <= bm,
        decreases (be - ex@.len()) + (bm - mt@.len()),
    {
        let step = stat_decide(db, graph, node, build_hash, input_hash, &ex, &mt);
        proof {
            lemma_stat_step_bounded(db.contents(), *graph, *node, build_hash, input_hash, ex@, mt@);
        }
        match step {
            StatStep::Done(k) => {
                assert(checks_to(db.contents(), *graph, *node, build_hash, input_hash, ex@, mt@, k@));
                return k;
            },
            StatStep::Ask(Question::Exists(p)) => {
                let a = world.file_exists(p.as_str());
                ex.push(a);
            },
            StatStep::Ask(Question::Mtime(p)) => {
                let a = world.mtime(p.as_str());
                mt.push(a);
            },
        }
    }
}

/// What checking a build gives for what checking its inputs found, as
/// [`checked_as`] says.
pub fn check_of_stat(stat: NodeInputKind) -> (r: BuildCheck)
    ensures
        checked_as(r, stat@),
{
    match stat {
        NodeInputKind::UpToDate => BuildCheck::Done(Ok(BuildStatusKind::UpToDate)),
        NodeInputKind::CannotRead(path, error) => {
            let message = concat(&["Cannot read input file ", path.as_str(), ": ", error.message.as_str()]);
            proof {
                reveal_with_fuel(crate::text::concat_all, 5);
                reveal_strlit("Cannot read input file ");
                reveal_strlit(": ");
                assert(message@ =~= cannot_read_message(path@, error));
            }
            BuildCheck::Done(Err(ExecError { message }))
        },
        NodeInputKind::Missing(_) => BuildCheck::Done(Ok(BuildStatusKind::Failed)),
        NodeInputKind::Outdated => BuildCheck::Execute,
    }
}

/// Record a build that started at `start` and completed successfully at
/// `end`: its input set, and that it produced each of its outputs, seen at
/// `end`.
pub fn write_build<D: DbWriter>(
    db: &mut D,
    graph: &BuildGraph,
    build: &BuildNode,
    build_hash: BuildHash,
    input_hash: InputHash,
    start: Timestamp,
    end: Timestamp,
)
    requires
        node_in_bounds(*build, graph.spec_files()),
    ensures
        final(db).contents() == after_write(
            old(db).contents(),
            graph.spec_files(),
            *build,
            build_hash,
            input_hash,
            start,
            end,
        ),
{
    let ghost files = graph.spec_files();
    let ghost outs = paths_of(build.outs@, files);
    let build_info = BuildInfo {
        last_start: start,
        last_end: Some(end),
        input_set_digest: input_hash,
        additional_inputs: Vec::new(),
    };
    assert(build_info@.additional_inputs =~= Seq::<Seq<char>>::empty());
    db.set_build_info(build_hash, build_info);
    let fi = FileInfo { last_seen: end, generated_by: build_hash };
    let ghost start = db.contents();
    proof {
        assert(start.files =~= with_outputs_seen(start.files, outs.subrange(0, 0), fi));
    }
    let mut k: usize = 0;
    while k < build.outs.len()
        invariant
            node_in_bounds(*build, files),
            files == graph.spec_files(),
            outs == paths_of(build.outs@, files),
            k <= build.outs@.len(),
            db.contents().builds == start.builds,
            db.contents().files == with_outputs_seen(start.files, outs.subrange(0, k as int), fi),
        decreases build.outs@.len() - k,
    {
        let path = graph.lookup_path(build.outs[k]).unwrap();
        assert(path@ == outs[k as int]);
        db.set_file_info(path.as_str(), fi);
        proof {
            let pre = outs.subrange(0, k as int);
            assert(outs.subrange(0, k + 1) =~= pre.push(path@));
            lemma_push_contains(pre, path@);
            assert(db.contents().files =~= with_outputs_seen(start.files, outs.subrange(0, k + 1), fi));
        }
        k = k + 1;
    }
    proof {
        assert(outs.subrange(0, k as int) =~= outs);
    }
}

/// Forget the record of a build and of each of its outputs.
pub fn invalidate_build<D: DbWriter>(db: &mut D, graph: &BuildGraph, build: &BuildNode, build_hash: BuildHash)
    requires
        node_in_bounds(*build, graph.spec_files()),
    ensures
        final(db).contents() == after_invalidate(old(db).contents(), graph.spec_files(), *build, build_hash),
{
    let ghost files = graph.spec_files();
    let ghost outs = paths_of(build.outs@, files);
    db.invalidate_build(build_hash);
    let ghost start = db.contents();
    proof {
        assert(start.files =~= without_outputs(start.files, outs.subrange(0, 0)));
    }
    let mut k: usize = 0;
    while k < build.outs.len()
        invariant
            node_in_bounds(*build, files),
            files == graph.spec_files(),
            outs == paths_of(build.outs@, files),
            k <= build.outs@.len(),
            db.contents().builds == start.builds,
            db.contents().files == without_outputs(start.files, outs.subrange(0, k as int)),
        decreases build.outs@.len() - k,
    {
        let path = graph.lookup_path(build.outs[k]).unwrap();
        assert(path@ == outs[k as int]);
        db.invalidate_file(path.as_str());
        proof {
            let pre = outs.subrange(0, k as int);
            assert(outs.subrange(0, k + 1) =~= pre.push(path@));
            lemma_push_contains(pre, path@);
            assert(db.contents().files =~= without_outputs(start.files, outs.subrange(0, k + 1)));
        }
        k = k + 1;
    }
    proof {
        assert(outs.subrange(0, k as int) =~= outs);
    }
}

/// The hashes of a build: the one that identifies it, and the one of its
/// input set.
pub fn hash_node(graph: &BuildGraph, id: BuildId) -> (r: (BuildHash, InputHash))
    requires
        graph.ids_in_bounds(),
        id.0 < graph.spec_nodes().len(),
        input_set_paths(*graph, id.0).len() < usize::MAX,
    ensures
        r.0 == spec_build_hash(graph.spec_nodes()[id.0 as int], graph.spec_files()),
        r.1 == spec_input_hash(*graph, id.0),
{
    let build = graph.lookup_build(id).unwrap();
    let build_hash = hash_build(build, graph);
    let digest = hash_input_set(id, graph);
    let input_hash = input_hash_of_digest(&digest);
    proof {
        let node = graph.spec_nodes()[id.0 as int];
        let h = spec_build_hash(node, graph.spec_files());
        assert(h.0@ == build_hash.0@);
        assert(h.0 =~= build_hash.0);
        let ih = spec_input_hash(*graph, id.0);
        assert(ih.0@ == input_hash.0@);
        assert(ih.0 =~= input_hash.0);
    }
    (build_hash, input_hash)
}

/// What checking a build found: its final result, or that it must be
/// executed.
#[derive(Debug)]
pub enum BuildCheck {
    /// The build is settled without executing it.
    Done(Result<BuildStatusKind, ExecError>),
    /// The build must be executed.
    Execute,
}

/// The message of the error for an input whose metadata cannot be read.
pub open spec fn cannot_read_message(p: Seq<char>, e: WorldError) -> Seq<char> {
    "Cannot read input file "@ + p + ": "@ + e.message@
}

/// What checking a build gives for what checking its inputs found: an up to
/// date build is done, a missing input fails it, an unreadable input is an
/// error of the executor's own work, and an outdated build must be
/// executed.
pub open spec fn checked_as(c: BuildCheck, s: NodeInputView) -> bool {
    match s {
        NodeInputView::UpToDate => c == BuildCheck::Done(Ok(BuildStatusKind::UpToDate)),
        NodeInputView::Missing(_) => c == BuildCheck::Done(Ok(BuildStatusKind::Failed)),
        NodeInputView::Outdated => c is Execute,
        NodeInputView::CannotRead(p, e) => c matches BuildCheck::Done(Err(x)) && x.message@ == cannot_read_message(
            p,
            e,
        ),
    }
}

/// Check a build before running it: compute its hashes, then find it up to
/// date, failed for a missing input, in error for an input that cannot be
/// read, or in need of being executed.
pub fn check_build<D: DbReader, W: World>(db: &D, world: &W, graph: &BuildGraph, id: BuildId) -> (r: (
    BuildCheck,
    BuildHash,
    InputHash,
))
    requires
        graph.ids_in_bounds(),
        id.0 < graph.spec_nodes().len(),
        input_set_paths(*graph, id.0).len() < usize::MAX,
    ensures
        ({
            let node = graph.spec_nodes()[id.0 as int];
            let files = graph.spec_files();
            &&& r.1 == spec_build_hash(node, files)
            &&& r.2 == spec_input_hash(*graph, id.0)
            &&& exists|ex: Seq<bool>, mt: Seq<Result<Timestamp, WorldError>>, s: NodeInputView|
                #[trigger] checks_to(db.contents(), *graph, node, r.1, r.2, ex, mt, s) && checked_as(r.0, s)
            &&& r.0 == BuildCheck::Done(Ok(BuildStatusKind::UpToDate)) ==> record_current(
                db.contents(),
                files,
                node,
                r.1,
                r.2,
            )
        }),
{
    let build = graph.lookup_build(id).unwrap();
    let (build_hash, input_hash) = hash_node(graph, id);
    let ghost node = graph.spec_nodes()[id.0 as int];
    let ghost files = graph.spec_files();
    proof {
        assert(node_in_bounds(node, files));
    }
    let stat = stat_node(db, world, graph, build, build_hash, input_hash);
    let check = check_of_stat(stat);
    proof {
        let (ex, mt) = choose|ex: Seq<bool>, mt: Seq<Result<Timestamp, WorldError>>|
            #[trigger] checks_to(db.contents(), *graph, node, build_hash, input_hash, ex, mt, stat@);
        lemma_checks_to_record(db.contents(), *graph, node, build_hash, input_hash, ex, mt, stat@);
        assert(checks_to(db.contents(), *graph, node, build_hash, input_hash, ex, mt, stat@) && checked_as(
            check,
            stat@,
        ));
    }
    (check, build_hash, input_hash)
}

/// The result of a build whose execution in the world gave `outcome`: its
/// status, or the message of an error of the executor's own work.
pub open spec fn outcome_result(outcome: Result<BuildStatusKind, WorldError>) -> Result<BuildStatusKind, Seq<char>> {
    match outcome {
        Ok(k) => if k is Succeeded || k is UpToDate || k is Failed {
            Ok(k)
        } else {
            Err("The world reported a status a build cannot end in"@)
        },
        Err(e) => Err(e.message@),
    }
}

/// What executing a build gave, `o`, makes of the build's result and of the
/// database, for a build that started at `start`: the result is the one
/// [`outcome_result`] gives; a success records the build as started at
/// `start` and completed at some time after the execution; a failure, or an
/// error of the world, removes its record; a status a build cannot end in
/// changes nothing.
pub open spec fn outcome_effect(
    before: DbView,
    files: Seq<Seq<char>>,
    node: BuildNode,
    h: BuildHash,
    ih: InputHash,
    o: Result<BuildStatusKind, WorldError>,
    start: Timestamp,
    result: Result<BuildStatusKind, ExecError>,
    after: DbView,
) -> bool {
    &&& result.is_ok() == outcome_result(o).is_ok()
    &&& result matches Ok(k) ==> outcome_result(o) == Ok::<BuildStatusKind, Seq<char>>(k)
    &&& result matches Err(e) ==> outcome_result(o) == Err::<BuildStatusKind, Seq<char>>(e.message@)
    &&& match o {
        Ok(BuildStatusKind::Succeeded) | Ok(BuildStatusKind::UpToDate) => exists|end: Timestamp|
            after == after_write(before, files, node, h, ih, start, end),
        Ok(BuildStatusKind::Failed) | Err(_) => after == after_invalidate(before, files, node, h),
        Ok(_) => after == before,
    }
}

/// Record in the database what executing a build, which started at
/// `start`, gave: a success records the build as started at `start` and
/// completed at the world's current time; a failure, or an error of the
/// world, removes its record. A status a build cannot end in is an error of
/// the executor's own work and changes nothing.
pub fn finish_build<D: DbWriter, W: World>(
    db: &mut D,
    world: &W,
    graph: &BuildGraph,
    id: BuildId,
    build_hash: BuildHash,
    input_hash: InputHash,
    start: Timestamp,
    outcome: Result<BuildStatusKind, WorldError>,
) -> (r: Result<BuildStatusKind, ExecError>)
    requires
        graph.ids_in_bounds(),
        id.0 < graph.spec_nodes().len(),
    ensures
        outcome_effect(
            old(db).contents(),
            graph.spec_files(),
            graph.spec_nodes()[id.0 as int],
            build_hash,
            input_hash,
            outcome,
            start,
            r,
            final(db).contents(),
        ),
{
    let build = graph.lookup_build(id).unwrap();
    let ghost node = graph.spec_nodes()[id.0 as int];
    let ghost files = graph.spec_files();
    proof {
        assert(node_in_bounds(node, files));
    }
    match outcome {
        Ok(BuildStatusKind::Succeeded) => {
            let end = world.now();
            write_build(db, graph, build, build_hash, input_hash, start, end);
            Ok(BuildStatusKind::Succeeded)
        },
        Ok(BuildStatusKind::UpToDate) => {
            let end = world.now();
            write_build(db, graph, build, build_hash, input_hash, start, end);
            Ok(BuildStatusKind::UpToDate)
        },
        Ok(BuildStatusKind::Failed) => {
            invalidate_build(db, graph, build, build_hash);
            Ok(BuildStatusKind::Failed)
        },
        Err(e) => {
            invalidate_build(db, graph, build, build_hash);
            Err(ExecError { message: e.message })
        },
        Ok(_) => {
            let message = "The world reported a status a build cannot end in".to_owned();
            proof {
                reveal_strlit("The world reported a status a build cannot end in");
            }
            Err(ExecError { message })
        },
    }
}

/// What running a build whose input check found `s` makes of its result
/// and of the database: an up to date build is not executed; a missing
/// input fails it without executing it; an unreadable input is an error of
/// the executor's own work; in these three cases the database is
/// unchanged. An outdated build is executed, and what the execution gave
/// decides, as [`outcome_effect`] says.
pub open spec fn run_effect(
    before: DbView,
    files: Seq<Seq<char>>,
    node: BuildNode,
    h: BuildHash,
    ih: InputHash,
    s: NodeInputView,
    result: Result<BuildStatusKind, ExecError>,
    after: DbView,
) -> bool {
    match s {
        NodeInputView::UpToDate => result == Ok::<BuildStatusKind, ExecError>(BuildStatusKind::UpToDate) && after
            == before,
        NodeInputView::Missing(_) => result == Ok::<BuildStatusKind, ExecError>(BuildStatusKind::Failed) && after
            == before,
        NodeInputView::CannotRead(p, e) => (result matches Err(x) && x.message@ == cannot_read_message(p, e))
            && after == before,
        NodeInputView::Outdated => exists|o: Result<BuildStatusKind, WorldError>, start: Timestamp|
            outcome_effect(before, files, node, h, ih, o, start, result, after),
    }
}

/// What running build `id` of `g` did, given the database `before` it and
/// `after` it: a finished status or an error of the executor's own work,
/// whose effect is the one [`run_effect`] gives for what checking the build
/// found with some answers from the world. A build that succeeded or is up
/// to date has a current record afterwards.
pub open spec fn step_effect(
    g: BuildGraph,
    id: usize,
    before: DbView,
    result: Result<BuildStatusKind, ExecError>,
    after: DbView,
) -> bool {
    let node = g.spec_nodes()[id as int];
    let files = g.spec_files();
    let h = spec_build_hash(node, files);
    let ih = spec_input_hash(g, id);
    &&& result matches Ok(k) ==> finished_kind(k)
    &&& result matches Ok(k) ==> (successful_kind(k) ==> record_current(after, files, node, h, ih))
    &&& exists|ex: Seq<bool>, mt: Seq<Result<Timestamp, WorldError>>, s: NodeInputView|
        #[trigger] checks_to(before, g, node, h, ih, ex, mt, s) && run_effect(before, files, node, h, ih, s, result, after)
}

/// One build run during a run of the executor: its id, its result, and the
/// database after it.
pub struct RunStep {
    pub id: usize,
    pub result: Result<BuildStatusKind, ExecError>,
    pub after: DbView,
}

/// The database after the first `i` steps of a run that started with
/// `start`.
pub open spec fn db_after_steps(start: DbView, t: Seq<RunStep>, i: int) -> DbView {
    if i <= 0 {
        start
    } else {
        t[i - 1].after
    }
}

/// A run of the executor, from the statuses `m0` and the database `db0` to
/// the statuses `m1` and the database `db1`, is the sequence of builds `t`,
/// each run in turn: each step has the effect of running its build on the
/// database the previous step left; no build runs twice, and none that had
/// finished before the run; every step but the last succeeded as a step,
/// and all of them did exactly when `ok`; each build keeps the status its
/// step gave it; and each build that finished during the run, other than
/// by being skipped, was run.
#[verifier::opaque]
pub open spec fn run_record(
    g: BuildGraph,
    m0: Map<usize, BuildStatus>,
    db0: DbView,
    m1: Map<usize, BuildStatus>,
    db1: DbView,
    t: Seq<RunStep>,
    ok: bool,
) -> bool {
    &&& forall|i: int|
        0 <= i < t.len() ==> step_effect(g, (#[trigger] t[i]).id, db_after_steps(db0, t, i), t[i].result, t[i].after)
    &&& db1 == db_after_steps(db0, t, t.len() as int)
    &&& forall|i: int, j: int| 0 <= i < j < t.len() ==> (#[trigger] t[i]).id != (#[trigger] t[j]).id
    &&& forall|i: int|
        0 <= i < t.len() ==> m1.contains_key((#[trigger] t[i]).id) && !(m0.contains_key(t[i].id) && finished_kind(
            m0[t[i].id].kind,
        ))
    &&& forall|i: int| 0 <= i < t.len() - 1 ==> (#[trigger] t[i]).result is Ok
    &&& ok <==> forall|i: int| 0 <= i < t.len() ==> (#[trigger] t[i]).result is Ok
    &&& forall|i: int| 0 <= i < t.len() ==> ((#[trigger] t[i]).result matches Ok(k) ==> m1[t[i].id].kind == k)
    &&& forall|b: usize|
        #[trigger] m1.contains_key(b) && finished_kind(m1[b].kind) && !(m1[b].kind is Skipped) && !(m0.contains_key(b)
            && finished_kind(m0[b].kind)) ==> exists|i: int| 0 <= i < t.len() && (#[trigger] t[i]).id == b
}

/// The result is that the build succeeded or is up to date.
pub open spec fn succeeded_result(r: Result<BuildStatusKind, ExecError>) -> bool {
    r matches Ok(k) && successful_kind(k)
}

/// The paths of the outputs of build `id` of `g`.
pub open spec fn output_paths(g: BuildGraph, id: usize) -> Seq<Seq<char>> {
    paths_of(g.spec_nodes()[id as int].outs@, g.spec_files())
}

/// The record of a build stays current when another build, with another
/// hash and none of its outputs, is recorded or forgotten.
proof fn lemma_other_write_keeps_current(
    db: DbView,
    files: Seq<Seq<char>>,
    node: BuildNode,
    h: BuildHash,
    ih: InputHash,
    other: BuildNode,
    ho: BuildHash,
    iho: InputHash,
    start: Timestamp,
    end: Timestamp,
)
    requires
        record_current(db, files, node, h, ih),
        ho != h,
        forall|p: Seq<char>| paths_of(node.outs@, files).contains(p) ==> !paths_of(other.outs@, files).contains(p),
    ensures
        record_current(after_write(db, files, other, ho, iho, start, end), files, node, h, ih),
        record_current(after_invalidate(db, files, other, ho), files, node, h, ih),
{
    let outs = paths_of(node.outs@, files);
    let w = after_write(db, files, other, ho, iho, start, end);
    let v = after_invalidate(db, files, other, ho);
    assert forall|k: int| 0 <= k < node.outs@.len() implies output_current(w, #[trigger] outs[k], h, w.builds[h])
        && output_current(v, outs[k], h, v.builds[h]) by {
        assert(outs.contains(outs[k]));
        assert(output_current(db, outs[k], h, db.builds[h]));
    }
}

/// One step of a run keeps the record of another build current, when the
/// two builds have different hashes and no output in common.
proof fn lemma_step_keeps_current(
    g: BuildGraph,
    id: usize,
    before: DbView,
    result: Result<BuildStatusKind, ExecError>,
    after: DbView,
    b: usize,
)
    requires
        step_effect(g, id, before, result, after),
        record_current(
            before,
            g.spec_files(),
            g.spec_nodes()[b as int],
            spec_build_hash(g.spec_nodes()[b as int], g.spec_files()),
            spec_input_hash(g, b),
        ),
        spec_build_hash(g.spec_nodes()[id as int], g.spec_files()) != spec_build_hash(
            g.spec_nodes()[b as int],
            g.spec_files(),
        ),
        forall|p: Seq<char>| output_paths(g, b).contains(p) ==> !output_paths(g, id).contains(p),
    ensures
        record_current(
            after,
            g.spec_files(),
            g.spec_nodes()[b as int],
            spec_build_hash(g.spec_nodes()[b as int], g.spec_files()),
            spec_input_hash(g, b),
        ),
{
    let files = g.spec_files();
    let node = g.spec_nodes()[id as int];
    let h = spec_build_hash(node, files);
    let ih = spec_input_hash(g, id);
    let nb = g.spec_nodes()[b as int];
    let hb = spec_build_hash(nb, files);
    let ihb = spec_input_hash(g, b);
    assert forall|p: Seq<char>| paths_of(nb.outs@, files).contains(p) implies !paths_of(node.outs@, files).contains(p) by {
        assert(output_paths(g, b).contains(p));
    }
    let (ex, mt, s) = choose|ex: Seq<bool>, mt: Seq<Result<Timestamp, WorldError>>, s: NodeInputView|
        #[trigger] checks_to(before, g, node, h, ih, ex, mt, s) && run_effect(before, files, node, h, ih, s, result, after);
    if s is Outdated {
        let (o, start) = choose|o: Result<BuildStatusKind, WorldError>, start: Timestamp|
            outcome_effect(before, files, node, h, ih, o, start, result, after);
        match o {
            Ok(BuildStatusKind::Succeeded) | Ok(BuildStatusKind::UpToDate) => {
                let end = choose|end: Timestamp| after == after_write(before, files, node, h, ih, start, end);
                lemma_other_write_keeps_current(before, files, nb, hb, ihb, node, h, ih, start, end);
            },
            Ok(BuildStatusKind::Failed) | Err(_) => {
                lemma_other_write_keeps_current(before, files, nb, hb, ihb, node, h, ih, start, start);
            },
            Ok(_) => {},
        }
    }
}

/// The builds of a run are told apart by their hashes and share no
/// output.
pub open spec fn steps_apart(g: BuildGraph, t: Seq<RunStep>) -> bool {
    forall|i: int, j: int|
        0 <= i < t.len() && 0 <= j < t.len() && i != j ==> {
            &&& spec_build_hash(g.spec_nodes()[t[i].id as int], g.spec_files()) != spec_build_hash(
                g.spec_nodes()[t[j].id as int],
                g.spec_files(),
            )
            &&& forall|p: Seq<char>| #[trigger]
                output_paths(g, t[i].id).contains(p) ==> !output_paths(g, t[j].id).contains(p)
        }
}

/// After a run, each build that the run found up to date or that succeeded
/// has a current record in the database, as long as the builds run have
/// different hashes and share no output.
pub proof fn lemma_run_keeps_records(
    g: BuildGraph,
    m0: Map<usize, BuildStatus>,
    db0: DbView,
    m1: Map<usize, BuildStatus>,
    db1: DbView,
    t: Seq<RunStep>,
    ok: bool,
)
    requires
        run_record(g, m0, db0, m1, db1, t, ok),
        steps_apart(g, t),
    ensures
        forall|i: int|
            0 <= i < t.len() && succeeded_result((#[trigger] t[i]).result) ==> record_current(
                db1,
                g.spec_files(),
                g.spec_nodes()[t[i].id as int],
                spec_build_hash(g.spec_nodes()[t[i].id as int], g.spec_files()),
                spec_input_hash(g, t[i].id),
            ),
{
    reveal(run_record);
    assert forall|i: int| 0 <= i < t.len() && succeeded_result((#[trigger] t[i]).result) implies record_current(
        db1,
        g.spec_files(),
        g.spec_nodes()[t[i].id as int],
        spec_build_hash(g.spec_nodes()[t[i].id as int], g.spec_files()),
        spec_input_hash(g, t[i].id),
    ) by {
        lemma_current_from_step(g, db0, t, i, t.len() as int);
    }
}

/// The record of the build of step `i`, current after that step, stays
/// current through step `j`.
#[verifier::rlimit(40)]
proof fn lemma_current_from_step(g: BuildGraph, db0: DbView, t: Seq<RunStep>, i: int, j: int)
    requires
        0 <= i < j <= t.len(),
        forall|k: int|
            0 <= k < t.len() ==> step_effect(g, (#[trigger] t[k]).id, db_after_steps(db0, t, k), t[k].result, t[k].after),
        steps_apart(g, t),
        succeeded_result(t[i].result),
    ensures
        record_current(
            db_after_steps(db0, t, j),
            g.spec_files(),
            g.spec_nodes()[t[i].id as int],
            spec_build_hash(g.spec_nodes()[t[i].id as int], g.spec_files()),
            spec_input_hash(g, t[i].id),
        ),
    decreases j - i,
{
    assert(step_effect(g, t[i].id, db_after_steps(db0, t, i), t[i].result, t[i].after));
    if j > i + 1 {
        lemma_current_from_step(g, db0, t, i, j - 1);
        let k = j - 1;
        assert(step_effect(g, t[k].id, db_after_steps(db0, t, k), t[k].result, t[k].after));
        assert(spec_build_hash(g.spec_nodes()[t[k].id as int], g.spec_files()) != spec_build_hash(
            g.spec_nodes()[t[i].id as int],
            g.spec_files(),
        ));
        assert forall|p: Seq<char>| output_paths(g, t[i].id).contains(p) implies !output_paths(g, t[k].id).contains(
            p,
        ) by {
            assert(output_paths(g, t[i].id).contains(p));
        }
        lemma_step_keeps_current(g, t[k].id, db_after_steps(db0, t, k), t[k].result, t[k].after, t[i].id);
    }
}

/// Run one build: check whether it is up to date, and if not, execute it
/// in the world and record the outcome in the database.
///
/// An up-to-date build is not executed. A source input that does not
/// exist, or an input that no longer exists, fails the build without
/// executing it. A build that executes successfully is recorded as started
/// at the world's time read before the execution, and completed at the
/// world's time read after it; one that fails, or whose execution cannot be
/// carried out, has its record removed. An input whose metadata cannot be
/// read, and a status from the world that a build cannot end in, are errors
/// of the executor's own work.
pub fn run_build<D: ExecDb, W: World>(db: &mut D, world: &W, graph: &BuildGraph, id: BuildId) -> (r: BuildNodeResult)
    requires
        graph.ids_in_bounds(),
        id.0 < graph.spec_nodes().len(),
        input_set_paths(*graph, id.0).len() < usize::MAX,
    ensures
        r.id == id,
        step_effect(*graph, id.0, old(db).contents(), r.result, final(db).contents()),
{
    let ghost node = graph.spec_nodes()[id.0 as int];
    let ghost files = graph.spec_files();
    let ghost before = db.contents();
    let (check, build_hash, input_hash) = check_build(&*db, world, graph, id);
    let ghost (ex, mt, sv) = choose|ex: Seq<bool>, mt: Seq<Result<Timestamp, WorldError>>, s: NodeInputView|
        #[trigger] checks_to(before, *graph, node, build_hash, input_hash, ex, mt, s) && checked_as(check, s);
    let result = match check {
        BuildCheck::Done(res) => res,
        BuildCheck::Execute => {
            let build = graph.lookup_build(id).unwrap();
            let start = world.now();
            let outcome = world.execute(&build.command);
            let res = finish_build(db, world, graph, id, build_hash, input_hash, start, outcome);
            proof {
                if res.is_ok() && successful_kind(res->Ok_0) {
                    let end = choose|end: Timestamp|
                        db.contents() == after_write(before, files, node, build_hash, input_hash, start, end);
                    lemma_recorded_build_is_current(before, files, node, build_hash, input_hash, start, end);
                }
                assert(outcome_effect(before, files, node, build_hash, input_hash, outcome, start, res, db.contents()));
            }
            res
        },
    };
    proof {
        assert(checks_to(before, *graph, node, build_hash, input_hash, ex, mt, sv) && run_effect(
            before,
            files,
            node,
            build_hash,
            input_hash,
            sv,
            result,
            db.contents(),
        ));
    }
    BuildNodeResult { id, result }
}

/// Every build's input set can be counted in a `usize`.
pub open spec fn input_sets_fit(g: BuildGraph) -> bool {
    forall|b: usize| b < g.spec_nodes().len() ==> #[trigger] input_set_paths(g, b).len() < usize::MAX
}

/// The executor that runs a build graph.
///
/// It holds the state machine described at the top of this module. The
/// work of running each build is done outside, by whoever drives the
/// executor: it takes the builds that [`Self::start_next`] hands out, runs
/// them, and reports each result to [`Self::build_finished`].
pub struct Executor<'a, D: ExecDb, W: World> {
    cfg: &'a ExecConfig,
    graph: &'a BuildGraph,
    /// The database that records what was built
    db: D,
    /// The world the builds run in
    world: &'a W,
    /// Nodes that can be immediately started
    pending: IndexSet<usize>,
    /// The current status of each tracked build node
    builds: HashMapWithView<usize, BuildStatus>,
    /// Number of nodes that are currently running
    running: usize,
    /// Number of nodes already finished (including failed)
    finished: usize,
    /// Number of nodes that have failed or were skipped
    failed: usize,
    build_started: bool,
}

impl<'a, D: ExecDb, W: World> Executor<'a, D, W> {
    /// The graph this executor runs.
    pub closed spec fn spec_graph(&self) -> BuildGraph {
        *self.graph
    }

    /// The database of this executor.
    pub closed spec fn spec_db(&self) -> D {
        self.db
    }

    /// The world of this executor.
    pub closed spec fn spec_world(&self) -> W {
        *self.world
    }

    /// The status of each tracked build.
    pub closed spec fn spec_builds(&self) -> Map<usize, BuildStatus> {
        self.builds@
    }

    /// The builds that can be started right away, in insertion order.
    pub closed spec fn spec_pending(&self) -> Seq<usize> {
        id_set_entries(self.pending)
    }

    /// The number of builds running.
    pub closed spec fn spec_running(&self) -> nat {
        self.running as nat
    }

    /// The number of builds finished.
    pub closed spec fn spec_finished(&self) -> nat {
        self.finished as nat
    }

    /// The number of builds failed or skipped.
    pub closed spec fn spec_failed(&self) -> nat {
        self.failed as nat
    }

    /// Whether the run has begun; builds cannot be wanted afterwards.
    pub closed spec fn spec_build_started(&self) -> bool {
        self.build_started
    }

    /// The executor's invariant.
    pub open spec fn inv(&self) -> bool {
        &&& state_inv(
            self.spec_graph(),
            self.spec_builds(),
            self.spec_pending(),
            self.spec_running(),
            self.spec_finished(),
            self.spec_failed(),
        )
        &&& !self.spec_build_started() ==> forall|b: usize| #[trigger]
            self.spec_builds().contains_key(b) ==> self.spec_builds()[b].kind is Fresh
    }

    /// Create a new executor for a graph, with the database that records
    /// what was built and the world the builds run in.
    pub fn with_world(cfg: &'a ExecConfig, graph: &'a BuildGraph, db: D, world: &'a W) -> (e: Self)
        requires
            graph.wf(),
            graph.ids_in_bounds(),
        ensures
            e.inv(),
            e.spec_graph() == *graph,
            e.spec_config() == *cfg,
            e.spec_db() == db,
            e.spec_world() == *world,
            e.spec_builds() == Map::<usize, BuildStatus>::empty(),
            e.spec_pending() == Seq::<usize>::empty(),
            !e.spec_build_started(),
    {
        broadcast use vstd::std_specs::hash::group_hash_axioms;
        broadcast use vstd::set::group_set_axioms;

        let e = Executor {
            cfg,
            graph,
            db,
            world,
            pending: id_set_new(),
            builds: HashMapWithView::new(),
            running: 0,
            finished: 0,
            failed: 0,
            build_started: false,
        };
        proof {
            let m = e.builds@;
            assert(started_builds(m) =~= Set::<usize>::empty());
            assert(finished_builds(m) =~= Set::<usize>::empty());
            assert(failed_builds(m) =~= Set::<usize>::empty());
        }
        e
    }

    /// The configuration this executor was made with.
    pub closed spec fn spec_config(&self) -> ExecConfig {
        *self.cfg
    }

    /// The configuration of this executor.
    pub fn config(&self) -> (c: &'a ExecConfig)
        ensures
            *c == self.spec_config(),
    {
        self.cfg
    }

    /// The graph of this executor.
    pub fn graph(&self) -> (g: &'a BuildGraph)
        ensures
            *g == self.spec_graph(),
    {
        self.graph
    }

    /// Add build nodes to be executed, with everything they depend on.
    /// Returns the number of nodes that were not tracked before.
    ///
    /// This method should be called before the run begins.
    pub fn want(&mut self, build: Vec<BuildId>) -> (affected: usize)
        requires
            old(self).inv(),
            !old(self).spec_build_started(),
            forall|i: int| 0 <= i < build@.len() ==> (#[trigger] build@[i]).0 < old(self).spec_graph().spec_nodes().len(),
        ensures
            final(self).inv(),
            final(self).spec_graph() == old(self).spec_graph(),
            !final(self).spec_build_started(),
            forall|b: usize|
                #[trigger] final(self).spec_builds().contains_key(b) <==> (old(self).spec_builds().contains_key(b)
                    || reached_from(
                    old(self).spec_graph().spec_edges(),
                    build@.map_values(|x: BuildId| x.0),
                    b,
                )),
            forall|b: usize|
                #[trigger] old(self).spec_builds().contains_key(b) ==> final(self).spec_builds()[b]
                    == old(self).spec_builds()[b],
            forall|b: usize|
                #[trigger] final(self).spec_builds().contains_key(b) && !old(self).spec_builds().contains_key(b)
                    ==> final(self).spec_builds()[b].kind is Fresh && final(self).spec_builds()[b].pending_inputs
                    == old(self).spec_graph().spec_dependencies(b).len(),
            affected == final(self).spec_builds().dom().len() - old(self).spec_builds().dom().len(),
            final(self).spec_pending().subrange(0, old(self).spec_pending().len() as int)
                == old(self).spec_pending(),
    {
        broadcast use vstd::set::group_set_axioms;

        let ghost g = *self.graph;
        let ghost edges = g.spec_edges();
        let nn = self.graph.node_count();
        let ghost n = g.spec_nodes().len();
        let ghost starts = build@.map_values(|x: BuildId| x.0);
        let ghost old_m = self.builds@;
        let ghost old_pending = id_set_entries(self.pending);
        let mut affected_nodes: usize = 0;
        let mut dfs_stack = build;
        proof {
            lemma_bounded_set_len(old_m.dom(), nn);
            lemma_count_unsuccessful_none_succeeded_all(old_m, g);
            assert forall|i: int| 0 <= i < dfs_stack@.len() implies reached_from(edges, starts, #[trigger] dfs_stack@[i].0) by {
                assert(starts[i] == dfs_stack@[i].0);
                lemma_reaches_refl(edges, starts[i]);
            }
        }
        while dfs_stack.len() > 0
            invariant
                g == *self.graph,
                edges == g.spec_edges(),
                n == g.spec_nodes().len(),
                nn == n,
                g.wf(),
                g.ids_in_bounds(),
                !self.build_started,
                self.running == old(self).running,
                self.finished == old(self).finished,
                self.failed == old(self).failed,
                self.cfg == old(self).cfg,
                starts == build@.map_values(|x: BuildId| x.0),
                forall|i: int| 0 <= i < starts.len() ==> #[trigger] starts[i] < n,
                self.builds@.dom().finite(),
                old_m.dom().finite(),
                forall|b: usize| #[trigger] self.builds@.contains_key(b) ==> b < n,
                forall|b: usize| #[trigger] old_m.contains_key(b) ==> self.builds@.contains_key(b) && self.builds@[b] == old_m[b],
                forall|b: usize| #[trigger] self.builds@.contains_key(b) ==> self.builds@[b].kind is Fresh,
                forall|b: usize|
                    #[trigger] self.builds@.contains_key(b) ==> self.builds@[b].pending_inputs
                        == g.spec_dependencies(b).len(),
                forall|b: usize|
                    #[trigger] self.builds@.contains_key(b) && !old_m.contains_key(b) ==> reached_from(edges, starts, b),
                forall|i: int| 0 <= i < dfs_stack@.len() ==> reached_from(edges, starts, #[trigger] dfs_stack@[i].0),
                forall|i: int| 0 <= i < dfs_stack@.len() ==> (#[trigger] dfs_stack@[i]).0 < n,
                forall|b: usize, j: int|
                    self.builds@.contains_key(b) && 0 <= j < g.spec_dependencies(b).len() ==> (self.builds@.contains_key(
                        #[trigger] g.spec_dependencies(b)[j],
                    ) || exists|k: int| 0 <= k < dfs_stack@.len() && dfs_stack@[k].0 == g.spec_dependencies(b)[j]),
                forall|i: int|
                    0 <= i < starts.len() ==> (self.builds@.contains_key(#[trigger] starts[i]) || exists|k: int|
                        0 <= k < dfs_stack@.len() && dfs_stack@[k].0 == starts[i]),
                id_set_entries(self.pending).no_duplicates(),
                forall|i: int|
                    0 <= i < id_set_entries(self.pending).len() ==> self.builds@.contains_key(
                        #[trigger] id_set_entries(self.pending)[i],
                    ) && self.builds@[id_set_entries(self.pending)[i]].pending_inputs == 0,
                forall|b: usize|
                    #[trigger] self.builds@.contains_key(b) && self.builds@[b].pending_inputs == 0
                        ==> id_set_entries(self.pending).contains(b),
                id_set_entries(self.pending).subrange(0, old_pending.len() as int) == old_pending,
                old_pending.len() <= id_set_entries(self.pending).len(),
                affected_nodes == self.builds@.dom().len() - old_m.dom().len(),
                self.builds@.dom().len() <= n,
            decreases n - self.builds@.dom().len(), dfs_stack@.len(),
        {
            let ghost st0 = dfs_stack@;
            let b = dfs_stack.pop().unwrap();
            if self.builds.contains_key(&b.0) {
                proof {
                    let m = self.builds@;
                    assert forall|x: usize, j: int|
                        m.contains_key(x) && 0 <= j < g.spec_dependencies(x).len() implies (m.contains_key(
                            #[trigger] g.spec_dependencies(x)[j],
                        ) || exists|k: int| 0 <= k < dfs_stack@.len() && dfs_stack@[k].0 == g.spec_dependencies(x)[j]) by {
                        if !m.contains_key(g.spec_dependencies(x)[j]) {
                            let k = choose|k: int| 0 <= k < st0.len() && st0[k].0 == g.spec_dependencies(x)[j];
                            if k < st0.len() - 1 {
                                assert(dfs_stack@[k] == st0[k]);
                            }
                        }
                    }
                    assert forall|i: int|
                        0 <= i < starts.len() implies (m.contains_key(#[trigger] starts[i]) || exists|k: int|
                            0 <= k < dfs_stack@.len() && dfs_stack@[k].0 == starts[i]) by {
                        if !m.contains_key(starts[i]) {
                            let k = choose|k: int| 0 <= k < st0.len() && st0[k].0 == starts[i];
                            if k < st0.len() - 1 {
                                assert(dfs_stack@[k] == st0[k]);
                            }
                        }
                    }
                    assert forall|i: int| 0 <= i < dfs_stack@.len() implies reached_from(edges, starts, #[trigger] dfs_stack@[i].0) by {
                        assert(dfs_stack@[i] == st0[i]);
                    }
                }
                continue;
            }
            proof {
                lemma_bounded_set_len(self.builds@.dom().insert(b.0), nn);
            }
            affected_nodes = affected_nodes + 1;
            let deps = self.graph.build_dependencies(b);
            let ghost dl = g.spec_dependencies(b.0);
            proof {
                assert(deps@.len() == dl.len());
                assert forall|j: int| 0 <= j < deps@.len() implies #[trigger] deps@[j].0 == dl[j] by {
                    assert(deps@.map_values(|x: BuildId| x.0)[j] == deps@[j].0);
                }
            }
            let ghost before = dfs_stack@;
            let mut children_count: usize = 0;
            while children_count < deps.len()
                invariant
                    g == *self.graph,
                    g.ids_in_bounds(),
                    n == g.spec_nodes().len(),
                    b.0 < n,
                    reached_from(edges, starts, b.0),
                    edges == g.spec_edges(),
                    dl == g.spec_dependencies(b.0),
                    deps@.len() == dl.len(),
                    forall|j: int| 0 <= j < deps@.len() ==> #[trigger] deps@[j].0 == dl[j],
                    children_count <= deps@.len(),
                    dfs_stack@ == before + deps@.subrange(0, children_count as int),
                decreases deps@.len() - children_count,
            {
                dfs_stack.push(deps[children_count]);
                proof {
                    assert(deps@.subrange(0, children_count + 1) =~= deps@.subrange(0, children_count as int).push(
                        deps@[children_count as int],
                    ));
                }
                children_count = children_count + 1;
            }
            proof {
                assert(deps@.subrange(0, children_count as int) =~= deps@);
                assert forall|j: int| 0 <= j < dl.len() implies reached_from(edges, starts, #[trigger] dl[j]) && dl[j] < n by {
                    lemma_dependency_in_bounds(g, b.0, j);
                    lemma_out_neighbors_edge(edges, b.0, j);
                    let i = choose|i: int| 0 <= i < starts.len() && reaches(edges, #[trigger] starts[i], b.0);
                    lemma_reaches_step(edges, starts[i], b.0, dl[j]);
                }
            }
            if children_count == 0 {
                let ghost p0 = id_set_entries(self.pending);
                assert(!p0.contains(b.0));
                id_set_insert(&mut self.pending, b.0);
                assert(id_set_entries(self.pending)[p0.len() as int] == b.0);
                assert(id_set_entries(self.pending).subrange(0, p0.len() as int) =~= p0);
            }
            let ghost prev = self.builds@;
            self.builds.insert(b.0, BuildStatus { kind: BuildStatusKind::Fresh, pending_inputs: children_count });
            proof {
                let m = self.builds@;
                assert(m.dom() =~= prev.dom().insert(b.0));
                lemma_bounded_set_len(m.dom(), nn);
                assert forall|x: usize, j: int|
                    m.contains_key(x) && 0 <= j < g.spec_dependencies(x).len() implies (m.contains_key(
                        #[trigger] g.spec_dependencies(x)[j],
                    ) || exists|k: int| 0 <= k < dfs_stack@.len() && dfs_stack@[k].0 == g.spec_dependencies(x)[j]) by {
                    if x == b.0 {
                        assert(dfs_stack@[before.len() + j].0 == dl[j]);
                    } else if !prev.contains_key(g.spec_dependencies(x)[j]) {
                        let k = choose|k: int| 0 <= k < st0.len() && st0[k].0 == g.spec_dependencies(x)[j];
                        if k < before.len() {
                            assert(dfs_stack@[k] == before[k]);
                        }
                    }
                }
                assert forall|i: int|
                    0 <= i < starts.len() implies (m.contains_key(#[trigger] starts[i]) || exists|k: int|
                        0 <= k < dfs_stack@.len() && dfs_stack@[k].0 == starts[i]) by {
                    if !prev.contains_key(starts[i]) {
                        let k = choose|k: int| 0 <= k < st0.len() && st0[k].0 == starts[i];
                        if k < before.len() {
                            assert(dfs_stack@[k] == before[k]);
                        }
                    }
                }
                assert forall|i: int| 0 <= i < dfs_stack@.len() implies reached_from(edges, starts, #[trigger] dfs_stack@[i].0) by {
                    if i >= before.len() {
                        assert(dfs_stack@[i].0 == dl[i - before.len()]);
                    }
                }
            }
        }
        proof {
            let m = self.builds@;
            let s = m.dom();
            assert forall|u: usize, v: usize| s.contains(u) && #[trigger] edges.contains((u, v)) implies s.contains(v) by {
                lemma_edge_in_out_neighbors(edges, u, v);
                let j = choose|j: int| 0 <= j < g.spec_dependencies(u).len() && g.spec_dependencies(u)[j] == v;
            }
            assert forall|b: usize| #[trigger] m.contains_key(b) <==> (old_m.contains_key(b) || reached_from(edges, starts, b)) by {
                if reached_from(edges, starts, b) {
                    let i = choose|i: int| 0 <= i < starts.len() && reaches(edges, #[trigger] starts[i], b);
                    lemma_closed_holds_reached(edges, s, starts[i], b);
                }
            }
            lemma_count_unsuccessful_none_succeeded_all(m, g);
            assert(started_builds(m) =~= Set::<usize>::empty());
            assert(finished_builds(m) =~= Set::<usize>::empty());
            assert(failed_builds(m) =~= Set::<usize>::empty());
            assert(started_builds(old_m) =~= Set::<usize>::empty());
            assert(finished_builds(old_m) =~= Set::<usize>::empty());
            assert(failed_builds(old_m) =~= Set::<usize>::empty());
        }
        affected_nodes
    }

    /// Begin the run: from now on no more builds can be wanted.
    pub fn begin_run(&mut self)
        requires
            old(self).inv(),
        ensures
            final(self).inv(),
            final(self).spec_build_started(),
            final(self).spec_graph() == old(self).spec_graph(),
            final(self).spec_builds() == old(self).spec_builds(),
            final(self).spec_pending() == old(self).spec_pending(),
            final(self).spec_running() == old(self).spec_running(),
            final(self).spec_finished() == old(self).spec_finished(),
            final(self).spec_failed() == old(self).spec_failed(),
    {
        self.build_started = true;
    }

    /// Whether the run is over: every tracked build has finished, whether it
    /// succeeded, is up to date, failed or was skipped.
    pub fn should_stop(&self) -> (r: bool)
        requires
            self.inv(),
        ensures
            r == (self.spec_finished() == self.spec_builds().dom().len()),
            r ==> forall|b: usize| #[trigger]
                self.spec_builds().contains_key(b) ==> finished_kind(self.spec_builds()[b].kind),
    {
        broadcast use vstd::set::group_set_axioms;

        proof {
            let m0 = self.builds@;
            lemma_builds_where_finite(m0, |k: BuildStatusKind| finished_kind(k));
            vstd::set_lib::lemma_len_subset(finished_builds(m0), m0.dom());
            if self.finished == m0.dom().len() {
                vstd::set_lib::lemma_subset_equality(finished_builds(m0), m0.dom());
                assert forall|b: usize| #[trigger] m0.contains_key(b) implies finished_kind(m0[b].kind) by {
                    assert(finished_builds(m0).contains(b));
                }
            }
        }
        self.finished == self.builds.len()
    }

    /// The number of builds running.
    pub fn running(&self) -> (r: usize)
        ensures
            r == self.spec_running(),
    {
        self.running
    }

    /// Take the next build that can start, and mark it started.
    pub fn start_next(&mut self) -> (r: Option<BuildId>)
        requires
            old(self).inv(),
            old(self).spec_build_started(),
        ensures
            final(self).inv(),
            final(self).spec_build_started(),
            final(self).spec_graph() == old(self).spec_graph(),
            final(self).spec_db() == old(self).spec_db(),
            final(self).spec_finished() == old(self).spec_finished(),
            final(self).spec_failed() == old(self).spec_failed(),
            old(self).spec_pending().len() == 0 ==> r is None && final(self).spec_builds() == old(self).spec_builds()
                && final(self).spec_pending() == old(self).spec_pending() && final(self).spec_running()
                == old(self).spec_running(),
            old(self).spec_pending().len() > 0 ==> {
                let id = old(self).spec_pending().last();
                &&& r == Some(BuildId(id))
                &&& final(self).spec_pending() == old(self).spec_pending().drop_last()
                &&& final(self).spec_builds() == old(self).spec_builds().insert(
                    id,
                    BuildStatus { kind: BuildStatusKind::Started, pending_inputs: 0 },
                )
                &&& final(self).spec_running() == old(self).spec_running() + 1
            },
    {
        broadcast use vstd::set::group_set_axioms;

        let ghost m = self.builds@;
        let ghost g = *self.graph;
        let ghost p = id_set_entries(self.pending);
        let nn = self.graph.node_count();
        match id_set_pop(&mut self.pending) {
            None => None,
            Some(id) => {
                proof {
                    assert(p[p.len() - 1] == id);
                    lemma_count_unsuccessful_zero(m, g.spec_dependencies(id));
                    lemma_builds_where_finite(m, |k: BuildStatusKind| k is Started);
                }
                let st = BuildStatus { kind: BuildStatusKind::Started, pending_inputs: 0 };
                self.builds.insert(id, st);
                proof {
                    let m2 = self.builds@;
                    assert(m2.dom() =~= m.dom());
                    assert(started_builds(m2) =~= started_builds(m).insert(id));
                    assert(finished_builds(m2) =~= finished_builds(m));
                    assert(failed_builds(m2) =~= failed_builds(m));
                    assert forall|b: usize| #[trigger] m2.contains_key(b) && m2[b].kind is Fresh implies m2[b].pending_inputs
                        == count_unsuccessful(m2, g.spec_dependencies(b)) by {
                        lemma_count_unsuccessful_same(m, m2, g.spec_dependencies(b));
                    }
                    assert forall|b: usize| #[trigger] m2.contains_key(b) && m2[b].kind is Fresh && m2[b].pending_inputs == 0
                        implies id_set_entries(self.pending).contains(b) by {
                        let k = choose|k: int| 0 <= k < p.len() && p[k] == b;
                        assert(k != p.len() - 1);
                        assert(id_set_entries(self.pending)[k] == b);
                    }
                    assert forall|i: int| 0 <= i < id_set_entries(self.pending).len() implies m2.contains_key(
                        #[trigger] id_set_entries(self.pending)[i],
                    ) && m2[id_set_entries(self.pending)[i]].kind is Fresh && m2[id_set_entries(self.pending)[i]].pending_inputs == 0 by {
                        assert(id_set_entries(self.pending)[i] == p[i]);
                        assert(p[i] != p[p.len() - 1]);
                    }
                    assert forall|b: usize, j: int|
                        m2.contains_key(b) && (m2[b].kind is Started || successful_kind(m2[b].kind)) && 0 <= j
                            < g.spec_dependencies(b).len() implies succeeded_in(m2, #[trigger] g.spec_dependencies(b)[j]) by {
                        assert(succeeded_in(m, g.spec_dependencies(b)[j]));
                    }
                    lemma_bounded_set_len(started_builds(m2), nn);
                }
                self.running = self.running + 1;
                Some(BuildId(id))
            },
        }
    }

    /// The database of this executor.
    pub fn db(&self) -> (r: &D)
        ensures
            *r == self.spec_db(),
    {
        &self.db
    }

    /// Give up the executor, and get its database back.
    pub fn into_db(self) -> (r: D)
        ensures
            r == self.spec_db(),
    {
        self.db
    }

    /// Check a build, before executing it, against the database and the
    /// world of this executor.
    pub fn check_started(&self, id: BuildId) -> (r: (BuildCheck, BuildHash, InputHash))
        requires
            self.inv(),
            id.0 < self.spec_graph().spec_nodes().len(),
            input_sets_fit(self.spec_graph()),
        ensures
            ({
                let g = self.spec_graph();
                let node = g.spec_nodes()[id.0 as int];
                let files = g.spec_files();
                &&& r.1 == spec_build_hash(node, files)
                &&& r.2 == spec_input_hash(g, id.0)
                &&& exists|ex: Seq<bool>, mt: Seq<Result<Timestamp, WorldError>>, s: NodeInputView|
                    #[trigger] checks_to(self.spec_db().contents(), g, node, r.1, r.2, ex, mt, s) && checked_as(
                        r.0,
                        s,
                    )
            }),
    {
        let r = check_build(&self.db, self.world, self.graph, id);
        proof {
            let g = *self.graph;
            let node = g.spec_nodes()[id.0 as int];
            let (ex, mt, sv) = choose|ex: Seq<bool>, mt: Seq<Result<Timestamp, WorldError>>, s: NodeInputView|
                #[trigger] checks_to(self.db.contents(), g, node, r.1, r.2, ex, mt, s) && checked_as(r.0, s);
            assert(checks_to(self.spec_db().contents(), g, node, r.1, r.2, ex, mt, sv) && checked_as(r.0, sv));
        }
        r
    }

    /// Record in this executor's database what executing a build, which
    /// started at `start`, gave, as [`finish_build`] does, and give the
    /// result to report to [`Self::build_finished`]. Nothing else of the
    /// executor changes.
    pub fn record_outcome(
        &mut self,
        id: BuildId,
        build_hash: BuildHash,
        input_hash: InputHash,
        start: Timestamp,
        outcome: Result<BuildStatusKind, WorldError>,
    ) -> (r: BuildNodeResult)
        requires
            old(self).inv(),
            id.0 < old(self).spec_graph().spec_nodes().len(),
        ensures
            final(self).inv(),
            final(self).spec_graph() == old(self).spec_graph(),
            final(self).spec_world() == old(self).spec_world(),
            final(self).spec_config() == old(self).spec_config(),
            final(self).spec_builds() == old(self).spec_builds(),
            final(self).spec_pending() == old(self).spec_pending(),
            final(self).spec_running() == old(self).spec_running(),
            final(self).spec_finished() == old(self).spec_finished(),
            final(self).spec_failed() == old(self).spec_failed(),
            final(self).spec_build_started() == old(self).spec_build_started(),
            r.id == id,
            outcome_effect(
                old(self).spec_db().contents(),
                old(self).spec_graph().spec_files(),
                old(self).spec_graph().spec_nodes()[id.0 as int],
                build_hash,
                input_hash,
                outcome,
                start,
                r.result,
                final(self).spec_db().contents(),
            ),
    {
        let result = finish_build(&mut self.db, self.world, self.graph, id, build_hash, input_hash, start, outcome);
        BuildNodeResult { id, result }
    }

    /// Perform the build.
    ///
    /// The builds run one at a time: each build that can start is started,
    /// run in the world, and its result recorded, until every tracked build
    /// has finished: succeeded, is up to date, failed, or was skipped
    /// because a build it depends on failed. A failure does not stop the
    /// builds that do not depend on it. An error of the executor's own work
    /// stops the run and is handed back; the build it came from is left
    /// started.
    pub fn run(&mut self) -> (r: Result<(), ExecError>)
        requires
            old(self).inv(),
            old(self).spec_running() == 0,
            input_sets_fit(old(self).spec_graph()),
        ensures
            final(self).inv(),
            final(self).spec_build_started(),
            final(self).spec_graph() == old(self).spec_graph(),
            final(self).spec_builds().dom() == old(self).spec_builds().dom(),
            old(self).spec_builds().dom().len() == 0 ==> r is Ok,
            r is Ok ==> final(self).spec_running() == 0,
            r is Ok ==> forall|b: usize| #[trigger]
                final(self).spec_builds().contains_key(b) ==> finished_kind(final(self).spec_builds()[b].kind),
            r is Err ==> exists|b: usize| #[trigger]
                final(self).spec_builds().contains_key(b) && final(self).spec_builds()[b].kind is Started,
            exists|t: Seq<RunStep>|
                #[trigger] run_record(
                    old(self).spec_graph(),
                    old(self).spec_builds(),
                    old(self).spec_db().contents(),
                    final(self).spec_builds(),
                    final(self).spec_db().contents(),
                    t,
                    r is Ok,
                ),
    {
        broadcast use vstd::set::group_set_axioms;

        let ghost g = *self.graph;
        let ghost ms = self.builds@;
        let ghost db0 = self.db.contents();
        let ghost mut t: Seq<RunStep> = Seq::empty();
        self.build_started = true;
        proof {
            reveal(run_record);
            assert(run_record(g, ms, db0, self.builds@, self.db.contents(), t, true));
        }
        loop
            invariant
                self.inv(),
                self.build_started,
                self.running == 0,
                input_sets_fit(*self.graph),
                self.graph == old(self).graph,
                g == *self.graph,
                ms == old(self).builds@,
                db0 == old(self).db.contents(),
                self.builds@.dom() == old(self).builds@.dom(),
                forall|b: usize|
                    #[trigger] ms.contains_key(b) && finished_kind(ms[b].kind) ==> self.builds@[b] == ms[b],
                run_record(g, ms, db0, self.builds@, self.db.contents(), t, true),
            decreases self.builds@.dom().len() - self.finished,
        {
            let ghost m0 = self.builds@;
            proof {
                lemma_builds_where_finite(m0, |k: BuildStatusKind| finished_kind(k));
                vstd::set_lib::lemma_len_subset(finished_builds(m0), m0.dom());
            }
            if self.should_stop() {
                let r = Ok(());
                proof {
                    assert(run_record(g, ms, db0, self.builds@, self.db.contents(), t, r is Ok));
                    assert(run_record(
                        old(self).spec_graph(),
                        old(self).spec_builds(),
                        old(self).spec_db().contents(),
                        self.spec_builds(),
                        self.spec_db().contents(),
                        t,
                        r is Ok,
                    ));
                }
                return r;
            }
            let ghost p0 = id_set_entries(self.pending);
            match self.start_next() {
                None => {
                    let r = Ok(());
                    proof {
                        lemma_idle_executor_is_done(*self);
                        assert(run_record(g, ms, db0, self.builds@, self.db.contents(), t, r is Ok));
                        assert(run_record(
                            old(self).spec_graph(),
                            old(self).spec_builds(),
                            old(self).spec_db().contents(),
                            self.spec_builds(),
                            self.spec_db().contents(),
                            t,
                            r is Ok,
                        ));
                    }
                    return r;
                },
                Some(id) => {
                    let ghost m1 = self.builds@;
                    let ghost x = id.0;
                    proof {
                        assert(p0[p0.len() - 1] == id.0);
                        assert(m0.contains_key(x) && m0[x].kind is Fresh);
                        assert(m1.dom() =~= m0.dom());
                        assert(finished_builds(m1) =~= finished_builds(m0));
                        assert(input_set_paths(*self.graph, id.0).len() < usize::MAX);
                    }
                    let ghost db_before = self.db.contents();
                    let res = run_build(&mut self.db, self.world, self.graph, id);
                    let ghost step = RunStep { id: x, result: res.result, after: self.db.contents() };
                    let ghost t2 = t.push(step);
                    assert(step_effect(g, x, db_before, step.result, step.after));
                    let ghost stat = res.result->Ok_0;
                    match self.build_finished(res) {
                        Ok(()) => {},
                        Err(e) => {
                            proof {
                                let m = self.builds@;
                                assert(m.contains_key(id.0) && m[id.0].kind is Started);
                                assert(m.dom().remove(id.0).len() == m.dom().len() - 1);
                                lemma_run_step_err(g, ms, db0, m0, m, db_before, t, step);
                                assert(run_record(g, ms, db0, m, self.db.contents(), t2, false));
                            }
                            let r = Err(e);
                            proof {
                                assert(run_record(
                                    old(self).spec_graph(),
                                    old(self).spec_builds(),
                                    old(self).spec_db().contents(),
                                    self.spec_builds(),
                                    self.spec_db().contents(),
                                    t2,
                                    r is Ok,
                                ));
                            }
                            return r;
                        },
                    }
                    proof {
                        let m2 = self.builds@;
                        assert(m2.dom() =~= m1.dom());
                        assert(finished_builds(m1).insert(id.0).subset_of(finished_builds(m2)));
                        lemma_builds_where_finite(m2, |k: BuildStatusKind| finished_kind(k));
                        vstd::set_lib::lemma_len_subset(finished_builds(m1).insert(id.0), finished_builds(m2));
                        lemma_builds_where_finite(m1, |k: BuildStatusKind| finished_kind(k));
                        assert(!finished_builds(m1).contains(id.0));
                        assert(finished_builds(m1).insert(id.0).len() == finished_builds(m1).len() + 1);
                        assert(self.finished == finished_builds(m2).len());
                        assert(self.builds@.dom().len() == m0.dom().len());
                        vstd::set_lib::lemma_len_subset(finished_builds(m2), m2.dom());
                        lemma_after_finish(g, m1, x, stat);
                        lemma_run_step_ok(g, ms, db0, m0, m2, db_before, t, step);
                        assert(run_record(g, ms, db0, m2, self.db.contents(), t2, true));
                        t = t2;
                    }
                },
            }
        }
    }

    /// Record the result of a started build.
    ///
    /// An error of the executor's own work is handed back and changes
    /// nothing. A successful build lowers the pending count of each fresh
    /// build that depends on it, and those left with no pending input become
    /// ready. A failed build skips every fresh build that transitively
    /// depends on it.
    pub fn build_finished(&mut self, msg: BuildNodeResult) -> (r: Result<(), ExecError>)
        requires
            old(self).inv(),
            old(self).spec_build_started(),
            match msg.result {
                Ok(stat) => finished_kind(stat) && old(self).spec_builds().contains_key(msg.id.0)
                    && old(self).spec_builds()[msg.id.0].kind is Started,
                Err(_) => true,
            },
        ensures
            final(self).inv(),
            final(self).spec_build_started(),
            final(self).spec_graph() == old(self).spec_graph(),
            final(self).spec_config() == old(self).spec_config(),
            final(self).spec_db() == old(self).spec_db(),
            match msg.result {
                Err(e) => {
                    &&& r == Err::<(), ExecError>(e)
                    &&& final(self).spec_builds() == old(self).spec_builds()
                    &&& final(self).spec_pending() == old(self).spec_pending()
                    &&& final(self).spec_running() == old(self).spec_running()
                    &&& final(self).spec_finished() == old(self).spec_finished()
                    &&& final(self).spec_failed() == old(self).spec_failed()
                },
                Ok(stat) => {
                    &&& r is Ok
                    &&& final(self).spec_running() == old(self).spec_running() - 1
                    &&& successful_kind(stat) ==> final(self).spec_builds() == after_success(
                        old(self).spec_graph(),
                        old(self).spec_builds(),
                        msg.id.0,
                        stat,
                    ) && final(self).spec_pending() == old(self).spec_pending() + ready_among(
                        old(self).spec_builds(),
                        old(self).spec_graph().spec_dependents(msg.id.0),
                    )
                    &&& failed_kind(stat) ==> final(self).spec_builds() == after_failure(
                        old(self).spec_graph(),
                        old(self).spec_builds(),
                        msg.id.0,
                        stat,
                    ) && final(self).spec_pending() == old(self).spec_pending()
                },
            },
    {
        broadcast use vstd::set::group_set_axioms;

        let id = msg.id;
        let stat = match msg.result {
            Ok(s) => s,
            Err(e) => {
                return Err(e);
            },
        };
        let x = id.0;
        let ghost g = *self.graph;
        let ghost edges = g.spec_edges();
        let ghost m0 = self.builds@;
        let ghost p0 = id_set_entries(self.pending);
        let ghost r0 = self.running as nat;
        let ghost f0 = self.finished as nat;
        let ghost fl0 = self.failed as nat;
        let nn = self.graph.node_count();
        proof {
            lemma_builds_where_finite(m0, |k: BuildStatusKind| k is Started);
            lemma_builds_where_finite(m0, |k: BuildStatusKind| finished_kind(k));
            lemma_builds_where_finite(m0, |k: BuildStatusKind| failed_kind(k));
            assert(started_builds(m0).contains(x));
            lemma_bounded_set_len(finished_builds(m0).insert(x), nn);
            lemma_bounded_set_len(failed_builds(m0).insert(x), nn);
        }
        let pi = match self.builds.get(&x) {
            Some(st) => st.pending_inputs,
            None => 0,
        };
        self.running = self.running - 1;
        self.finished = self.finished + 1;
        self.builds.insert(x, BuildStatus { kind: stat, pending_inputs: pi });
        if stat.is_successful() {
            let deps = self.graph.build_dependents(id);
            let ghost dl = g.spec_dependents(x);
            proof {
                lemma_neighbors_distinct(edges, x);
                lemma_acyclic_no_self_edge(edges, x);
                assert forall|j: int| 0 <= j < deps@.len() implies #[trigger] deps@[j].0 == dl[j] by {
                    assert(deps@.map_values(|b: BuildId| b.0)[j] == deps@[j].0);
                }
                assert(self.builds@ =~= after_inputs_done(m0, x, stat, dl.subrange(0, 0)));
                assert(id_set_entries(self.pending) =~= p0 + ready_among(m0, dl.subrange(0, 0)));
            }
            let mut i: usize = 0;
            while i < deps.len()
                invariant
                    self.db == old(self).db,
                    g == *self.graph,
                    edges == g.spec_edges(),
                    self.cfg == old(self).cfg,
                    self.build_started,
                    self.running == old(self).running - 1,
                    self.finished == old(self).finished + 1,
                    self.failed == old(self).failed,
                    state_inv(g, m0, p0, r0, f0, fl0),
                    m0.contains_key(x),
                    m0[x].kind is Started,
                    successful_kind(stat),
                    !edges.contains((x, x)),
                    deps@.len() == dl.len(),
                    forall|j: int| 0 <= j < deps@.len() ==> #[trigger] deps@[j].0 == dl[j],
                    dl == g.spec_dependents(x),
                    dl.no_duplicates(),
                    i <= dl.len(),
                    self.builds@ == after_inputs_done(m0, x, stat, dl.subrange(0, i as int)),
                    id_set_entries(self.pending) == p0 + ready_among(m0, dl.subrange(0, i as int)),
                decreases dl.len() - i,
            {
                let d = deps[i].0;
                let ghost pre = dl.subrange(0, i as int);
                let ghost post = dl.subrange(0, i + 1);
                let ghost cur = self.builds@;
                proof {
                    assert(post.drop_last() =~= pre);
                    assert(post.last() == d);
                    assert(!pre.contains(d)) by {
                        if pre.contains(d) {
                            let k = choose|k: int| 0 <= k < pre.len() && pre[k] == d;
                            assert(dl[k] == dl[i as int]);
                        }
                    }
                    assert(dl.contains(d)) by {
                        assert(dl[i as int] == d);
                    }
                    lemma_dependent_iff(g, x, d);
                    assert(d != x);
                    assert forall|b: usize| #[trigger] post.contains(b) == (pre.contains(b) || b == d) by {
                        if post.contains(b) {
                            let k = choose|k: int| 0 <= k < post.len() && post[k] == b;
                            if k < pre.len() {
                                assert(pre[k] == b);
                            }
                        }
                        if pre.contains(b) {
                            let k = choose|k: int| 0 <= k < pre.len() && pre[k] == b;
                            assert(post[k] == b);
                        }
                        if b == d {
                            assert(post[post.len() - 1] == b);
                        }
                    }
                }
                let found: Option<BuildStatus> = match self.builds.get(&d) {
                    Some(st) => Some(*st),
                    None => None,
                };
                match found {
                    Some(st) => {
                        match st.kind {
                            BuildStatusKind::Fresh => {
                                proof {
                                    assert(st == m0[d]);
                                    lemma_fresh_dependent_pending(g, m0, p0, r0, f0, fl0, x, d);
                                }
                                let np = st.pending_inputs - 1;
                                self.builds.insert(d, BuildStatus { kind: BuildStatusKind::Fresh, pending_inputs: np });
                                if np == 0 {
                                    proof {
                                        lemma_ready_among(m0, pre);
                                        let pp = p0 + ready_among(m0, pre);
                                        assert(!pp.contains(d)) by {
                                            if pp.contains(d) {
                                                let k = choose|k: int| 0 <= k < pp.len() && pp[k] == d;
                                                if k < p0.len() {
                                                    assert(p0[k] == pp[k]);
                                                } else {
                                                    assert(ready_among(m0, pre)[k - p0.len()] == pp[k]);
                                                }
                                            }
                                        }
                                    }
                                    id_set_insert(&mut self.pending, d);
                                    proof {
                                        assert(id_set_entries(self.pending) =~= p0 + ready_among(m0, post));
                                    }
                                } else {
                                    proof {
                                        assert(id_set_entries(self.pending) =~= p0 + ready_among(m0, post));
                                    }
                                }
                                proof {
                                    assert(self.builds@ =~= after_inputs_done(m0, x, stat, post));
                                }
                            },
                            _ => {
                                proof {
                                    assert(self.builds@ =~= after_inputs_done(m0, x, stat, post));
                                    assert(id_set_entries(self.pending) =~= p0 + ready_among(m0, post));
                                }
                            },
                        }
                    },
                    None => {
                        proof {
                            assert(self.builds@ =~= after_inputs_done(m0, x, stat, post));
                            assert(id_set_entries(self.pending) =~= p0 + ready_among(m0, post));
                        }
                    },
                }
                i = i + 1;
            }
            proof {
                assert(dl.subrange(0, i as int) =~= dl);
                lemma_success_state(g, m0, p0, r0, f0, fl0, x, stat);
            }
        } else {
            self.failed = self.failed + 1;
            proof {
                assert(self.builds@ == m0.insert(x, BuildStatus { kind: stat, pending_inputs: m0[x].pending_inputs }));
                assert(finished_builds(self.builds@) =~= finished_builds(m0).insert(x));
                assert(failed_builds(self.builds@) =~= failed_builds(m0).insert(x));
            }
            self.propagate_failure(x, stat, Ghost(m0), Ghost(p0), Ghost(r0), Ghost(f0), Ghost(fl0));
        }
        Ok(())
    }

    /// Skip every fresh build that transitively depends on `x`, which has
    /// just failed: a search along the dependent edges from `x`.
    fn propagate_failure(
        &mut self,
        x: usize,
        stat: BuildStatusKind,
        Ghost(m0): Ghost<Map<usize, BuildStatus>>,
        Ghost(p0): Ghost<Seq<usize>>,
        Ghost(r0): Ghost<nat>,
        Ghost(f0): Ghost<nat>,
        Ghost(fl0): Ghost<nat>,
    )
        requires
            state_inv(*old(self).graph, m0, p0, r0, f0, fl0),
            m0.contains_key(x),
            m0[x].kind is Started,
            failed_kind(stat),
            old(self).builds@ == m0.insert(x, BuildStatus { kind: stat, pending_inputs: m0[x].pending_inputs }),
            id_set_entries(old(self).pending) == p0,
            old(self).build_started,
            old(self).running == r0 - 1,
            old(self).finished == finished_builds(old(self).builds@).len(),
            old(self).failed == failed_builds(old(self).builds@).len(),
        ensures
            final(self).builds@ == after_failure(*old(self).graph, m0, x, stat),
            final(self).graph == old(self).graph,
            final(self).db == old(self).db,
            final(self).cfg == old(self).cfg,
            final(self).pending == old(self).pending,
            final(self).running == old(self).running,
            final(self).build_started,
            final(self).inv(),
    {
        broadcast use vstd::set::group_set_axioms;

        let ghost g = *self.graph;
        let ghost edges = g.spec_edges();
        let nn = self.graph.node_count();
        let mut visited: Vec<bool> = Vec::new();
        let mut k: usize = 0;
        while k < nn
            invariant
                self.db == old(self).db,
                k <= nn,
                visited@.len() == k,
                forall|i: int| 0 <= i < k ==> !visited@[i],
            decreases nn - k,
        {
            visited.push(false);
            k = k + 1;
        }
        proof {
            assert(marked(visited@) =~= Set::<usize>::empty());
            assert(self.builds@ =~= after_skipping(m0, x, stat, marked(visited@).insert(x)));
        }
        visited.set(x, true);
        let mut stack: Vec<usize> = Vec::new();
        stack.push(x);
        proof {
            assert(marked(visited@) =~= Set::<usize>::empty().insert(x));
            assert(stack@[0] == x);
            assert(stack@.contains(x));
            lemma_reaches_refl(edges, x);
            lemma_bounded_set_len(marked(visited@), nn);
        }
        while stack.len() > 0
            invariant
                self.db == old(self).db,
                g == *self.graph,
                edges == g.spec_edges(),
                nn == g.spec_nodes().len(),
                self.cfg == old(self).cfg,
                self.pending == old(self).pending,
                self.running == old(self).running,
                self.build_started,
                state_inv(g, m0, p0, r0, f0, fl0),
                m0.contains_key(x),
                m0[x].kind is Started,
                failed_kind(stat),
                visited@.len() == nn,
                marked(visited@).finite(),
                marked(visited@).len() <= nn,
                marked(visited@).contains(x),
                forall|u: usize| #[trigger] marked(visited@).contains(u) ==> m0.contains_key(u) && reaches(edges, u, x),
                forall|i: int| 0 <= i < stack@.len() ==> marked(visited@).contains(#[trigger] stack@[i]),
                stack@.no_duplicates(),
                forall|u: usize, v: usize|
                    marked(visited@).contains(u) && !stack@.contains(u) && m0.contains_key(v) && #[trigger] edges.contains(
                        (v, u),
                    ) ==> marked(visited@).contains(v),
                self.builds@ == after_skipping(m0, x, stat, marked(visited@)),
                self.finished == finished_builds(self.builds@).len(),
                self.failed == failed_builds(self.builds@).len(),
            decreases nn - marked(visited@).len(), stack@.len(),
        {
            let ghost st0 = stack@;
            let u = stack.pop().unwrap();
            let ghost vis0 = marked(visited@);
            let ghost s_after = stack@;
            proof {
                assert(s_after =~= st0.drop_last());
                assert(!s_after.contains(u)) by {
                    if s_after.contains(u) {
                        let k = choose|k: int| 0 <= k < s_after.len() && s_after[k] == u;
                        assert(st0[k] == st0[st0.len() - 1]);
                    }
                }
                assert(vis0.contains(u)) by {
                    assert(st0[st0.len() - 1] == u);
                }
                assert forall|w: usize| #[trigger] st0.contains(w) <==> (s_after.contains(w) || w == u) by {
                    if st0.contains(w) {
                        let k = choose|k: int| 0 <= k < st0.len() && st0[k] == w;
                        if k < s_after.len() {
                            assert(s_after[k] == w);
                        }
                    }
                    if s_after.contains(w) {
                        let k = choose|k: int| 0 <= k < s_after.len() && s_after[k] == w;
                        assert(st0[k] == w);
                    }
                    if w == u {
                        assert(st0[st0.len() - 1] == w);
                    }
                }
            }
            let ds = self.graph.build_dependents(BuildId(u));
            let ghost dsl = g.spec_dependents(u);
            proof {
                assert forall|j: int| 0 <= j < ds@.len() implies #[trigger] ds@[j].0 == dsl[j] by {
                    assert(ds@.map_values(|b: BuildId| b.0)[j] == ds@[j].0);
                }
            }
            let mut j: usize = 0;
            while j < ds.len()
                invariant
                    self.db == old(self).db,
                    g == *self.graph,
                    edges == g.spec_edges(),
                    nn == g.spec_nodes().len(),
                    self.cfg == old(self).cfg,
                    self.pending == old(self).pending,
                    self.running == old(self).running,
                    self.build_started,
                    state_inv(g, m0, p0, r0, f0, fl0),
                    m0.contains_key(x),
                    failed_kind(stat),
                    visited@.len() == nn,
                    marked(visited@).finite(),
                    marked(visited@).len() <= nn,
                    marked(visited@).contains(x),
                    marked(visited@).contains(u),
                    vis0.finite(),
                    vis0.subset_of(marked(visited@)),
                    !stack@.contains(u),
                    stack@.len() == s_after.len() + (marked(visited@).len() - vis0.len()),
                    ds@.len() == dsl.len(),
                    dsl == g.spec_dependents(u),
                    forall|i: int| 0 <= i < ds@.len() ==> #[trigger] ds@[i].0 == dsl[i],
                    j <= ds@.len(),
                    forall|w: usize| #[trigger] marked(visited@).contains(w) ==> m0.contains_key(w) && reaches(edges, w, x),
                    forall|i: int| 0 <= i < stack@.len() ==> marked(visited@).contains(#[trigger] stack@[i]),
                    stack@.no_duplicates(),
                    forall|w: usize, v: usize|
                        marked(visited@).contains(w) && !stack@.contains(w) && w != u && m0.contains_key(v)
                            && #[trigger] edges.contains((v, w)) ==> marked(visited@).contains(v),
                    forall|i: int| 0 <= i < j && m0.contains_key(#[trigger] dsl[i]) ==> marked(visited@).contains(dsl[i]),
                    self.builds@ == after_skipping(m0, x, stat, marked(visited@)),
                    self.finished == finished_builds(self.builds@).len(),
                    self.failed == failed_builds(self.builds@).len(),
                decreases ds@.len() - j,
            {
                let d = ds[j].0;
                proof {
                    lemma_dependent_in_bounds(g, u, j as int);
                }
                if !visited[d] && self.builds.contains_key(&d) {
                    let ghost vis1 = marked(visited@);
                    let ghost cur = self.builds@;
                    let ghost s1 = stack@;
                    proof {
                        lemma_in_neighbors_from_edges(edges, u, j as int);
                        let e = choose|e: int| 0 <= e < edges.len() && #[trigger] edges[e] == (d, u);
                        assert(edges.contains((d, u)));
                        lemma_reaches_prepend(edges, d, u, x);
                        assert(!vis1.contains(d));
                        assert(!s1.contains(d)) by {
                            if s1.contains(d) {
                                let k = choose|k: int| 0 <= k < s1.len() && s1[k] == d;
                                assert(vis1.contains(s1[k]));
                            }
                        }
                    }
                    visited.set(d, true);
                    proof {
                        assert(marked(visited@) =~= vis1.insert(d));
                        lemma_bounded_set_len(marked(visited@), nn);
                    }
                    let kind = match self.builds.get(&d) {
                        Some(st) => st.kind,
                        None => BuildStatusKind::Fresh,
                    };
                    match kind {
                        BuildStatusKind::Fresh => {
                            let pi = match self.builds.get(&d) {
                                Some(st) => st.pending_inputs,
                                None => 0,
                            };
                            proof {
                                assert(cur.dom() =~= m0.dom());
                                assert(cur[d] == m0[d]);
                                lemma_builds_where_finite(cur, |k: BuildStatusKind| finished_kind(k));
                                lemma_builds_where_finite(cur, |k: BuildStatusKind| failed_kind(k));
                                lemma_bounded_set_len(finished_builds(cur).insert(d), nn);
                                lemma_bounded_set_len(failed_builds(cur).insert(d), nn);
                            }
                            self.builds.insert(d, BuildStatus { kind: BuildStatusKind::Skipped, pending_inputs: pi });
                            proof {
                                assert(finished_builds(self.builds@) =~= finished_builds(cur).insert(d));
                                assert(failed_builds(self.builds@) =~= failed_builds(cur).insert(d));
                            }
                            self.finished = self.finished + 1;
                            self.failed = self.failed + 1;
                        },
                        _ => {},
                    }
                    stack.push(d);
                    proof {
                        assert(self.builds@ =~= after_skipping(m0, x, stat, marked(visited@)));
                        assert(stack@.no_duplicates()) by {
                            assert forall|a: int, b: int| 0 <= a < stack@.len() && 0 <= b < stack@.len() && a != b implies stack@[a]
                                != stack@[b] by {
                                if a < s1.len() && b < s1.len() {
                                    assert(stack@[a] == s1[a] && stack@[b] == s1[b]);
                                } else if a < s1.len() {
                                    assert(stack@[a] == s1[a]);
                                } else if b < s1.len() {
                                    assert(stack@[b] == s1[b]);
                                }
                            }
                        }
                        assert forall|i: int| 0 <= i < stack@.len() implies marked(visited@).contains(#[trigger] stack@[i]) by {
                            if i < s1.len() {
                                assert(stack@[i] == s1[i]);
                            }
                        }
                        assert(!stack@.contains(u)) by {
                            if stack@.contains(u) {
                                let k = choose|k: int| 0 <= k < stack@.len() && stack@[k] == u;
                                if k < s1.len() {
                                    assert(s1[k] == u);
                                }
                            }
                        }
                        assert forall|w: usize, v: usize|
                            marked(visited@).contains(w) && !stack@.contains(w) && w != u && m0.contains_key(v)
                                && #[trigger] edges.contains((v, w)) implies marked(visited@).contains(v) by {
                            if w != d {
                                assert(!s1.contains(w)) by {
                                    if s1.contains(w) {
                                        let k = choose|k: int| 0 <= k < s1.len() && s1[k] == w;
                                        assert(stack@[k] == w);
                                    }
                                }
                            } else {
                                assert(stack@[stack@.len() - 1] == d);
                            }
                        }
                    }
                }
                j = j + 1;
            }
            proof {
                vstd::set_lib::lemma_len_subset(vis0, marked(visited@));
                assert forall|w: usize, v: usize|
                    marked(visited@).contains(w) && !stack@.contains(w) && m0.contains_key(v) && #[trigger] edges.contains(
                        (v, w),
                    ) implies marked(visited@).contains(v) by {
                    if w == u {
                        lemma_edge_in_in_neighbors(edges, v, u);
                        let i = choose|i: int| 0 <= i < dsl.len() && dsl[i] == v;
                    }
                }
            }
        }
        proof {
            let vis = marked(visited@);
            let s = Set::new(|w: usize| vis.contains(w) || !m0.contains_key(w));
            assert forall|w: usize, v: usize| s.contains(w) && #[trigger] edges.contains((v, w)) implies s.contains(v) by {
                if !vis.contains(w) && m0.contains_key(v) {
                    lemma_edge_in_out_neighbors(edges, v, w);
                    let i = choose|i: int| 0 <= i < g.spec_dependencies(v).len() && g.spec_dependencies(v)[i] == w;
                }
            }
            assert forall|b: usize| m0.contains_key(b) && #[trigger] reaches(edges, b, x) implies vis.contains(b) by {
                lemma_back_closed_holds_reaching(edges, s, x, b);
            }
            assert(after_skipping(m0, x, stat, vis) =~= after_failure(g, m0, x, stat));
            lemma_failure_state(g, m0, p0, r0, f0, fl0, x, stat);
        }
    }

}

/// When build `x` finishes with `stat`, it takes that status; a build that
/// was not fresh keeps its status, and a fresh one stays fresh or is
/// skipped.
proof fn lemma_after_finish(g: BuildGraph, m1: Map<usize, BuildStatus>, x: usize, stat: BuildStatusKind)
    requires
        m1.contains_key(x),
        finished_kind(stat),
    ensures
        ({
            let m2 = if successful_kind(stat) {
                after_success(g, m1, x, stat)
            } else {
                after_failure(g, m1, x, stat)
            };
            &&& m2.dom() == m1.dom()
            &&& m2[x].kind == stat
            &&& forall|b: usize| #[trigger] m2.contains_key(b) && b != x && !(m1[b].kind is Fresh) ==> m2[b] == m1[b]
            &&& forall|b: usize|
                #[trigger] m2.contains_key(b) && b != x && m1[b].kind is Fresh ==> (m2[b].kind is Fresh
                    || m2[b].kind is Skipped)
        }),
{
    let m2 = if successful_kind(stat) {
        after_success(g, m1, x, stat)
    } else {
        after_failure(g, m1, x, stat)
    };
    assert(m2.dom() =~= m1.dom());
}

/// A step whose build ended with an error of the executor's own work ends
/// the record of a run: the statuses stay as they were when the build
/// started.
proof fn lemma_run_step_err(
    g: BuildGraph,
    ms: Map<usize, BuildStatus>,
    db0: DbView,
    m0: Map<usize, BuildStatus>,
    m: Map<usize, BuildStatus>,
    dbb: DbView,
    t: Seq<RunStep>,
    step: RunStep,
)
    requires
        run_record(g, ms, db0, m0, dbb, t, true),
        m0.dom() == ms.dom(),
        forall|b: usize| #[trigger] ms.contains_key(b) && finished_kind(ms[b].kind) ==> m0[b] == ms[b],
        m0.contains_key(step.id),
        m0[step.id].kind is Fresh,
        m == m0.insert(step.id, BuildStatus { kind: BuildStatusKind::Started, pending_inputs: 0 }),
        step.result is Err,
        step_effect(g, step.id, dbb, step.result, step.after),
    ensures
        run_record(g, ms, db0, m, step.after, t.push(step), false),
{
    reveal(run_record);
    let t2 = t.push(step);
    let x = step.id;
    assert forall|i: int| 0 <= i <= t.len() implies db_after_steps(db0, t2, i) == db_after_steps(db0, t, i) by {
        if i > 0 {
            assert(t2[i - 1] == t[i - 1]);
        }
    }
    assert forall|i: int| 0 <= i < t.len() implies (#[trigger] t[i]).id != x by {
        assert(finished_kind(m0[t[i].id].kind));
    }
    assert forall|i: int| 0 <= i < t2.len() implies step_effect(
        g,
        (#[trigger] t2[i]).id,
        db_after_steps(db0, t2, i),
        t2[i].result,
        t2[i].after,
    ) by {
        if i < t.len() {
            assert(t2[i] == t[i]);
        }
    }
    assert(!(ms.contains_key(x) && finished_kind(ms[x].kind)));
    assert forall|i: int, j: int| 0 <= i < j < t2.len() implies (#[trigger] t2[i]).id != (#[trigger] t2[j]).id by {
        assert(t2[i] == t[i]);
        if j < t.len() {
            assert(t2[j] == t[j]);
        }
    }
    assert forall|i: int| 0 <= i < t2.len() implies m.contains_key((#[trigger] t2[i]).id) && !(ms.contains_key(
        t2[i].id,
    ) && finished_kind(ms[t2[i].id].kind)) by {
        if i < t.len() {
            assert(t2[i] == t[i]);
        }
    }
    assert forall|i: int| 0 <= i < t2.len() - 1 implies (#[trigger] t2[i]).result is Ok by {
        assert(t2[i] == t[i]);
    }
    assert(t2[t.len() as int].result is Err);
    assert forall|i: int| 0 <= i < t2.len() implies ((#[trigger] t2[i]).result matches Ok(k) ==> m[t2[i].id].kind
        == k) by {
        if i < t.len() {
            assert(t2[i] == t[i]);
        }
    }
    assert forall|b: usize|
        #[trigger] m.contains_key(b) && finished_kind(m[b].kind) && !(m[b].kind is Skipped) && !(ms.contains_key(b)
            && finished_kind(ms[b].kind)) implies exists|i: int| 0 <= i < t2.len() && (#[trigger] t2[i]).id == b by {
        let i = choose|i: int| 0 <= i < t.len() && (#[trigger] t[i]).id == b;
        assert(t2[i] == t[i]);
    }
}

/// A step whose build ended with a finished status extends the record of
/// a run: the build takes that status, a build that was not fresh keeps
/// its status, and a fresh one stays fresh or is skipped.
proof fn lemma_run_step_ok(
    g: BuildGraph,
    ms: Map<usize, BuildStatus>,
    db0: DbView,
    m0: Map<usize, BuildStatus>,
    m2: Map<usize, BuildStatus>,
    dbb: DbView,
    t: Seq<RunStep>,
    step: RunStep,
)
    requires
        run_record(g, ms, db0, m0, dbb, t, true),
        m0.dom() == ms.dom(),
        forall|b: usize| #[trigger] ms.contains_key(b) && finished_kind(ms[b].kind) ==> m0[b] == ms[b],
        m0.contains_key(step.id),
        m0[step.id].kind is Fresh,
        step.result is Ok,
        step_effect(g, step.id, dbb, step.result, step.after),
        m2.dom() == m0.dom(),
        m2[step.id].kind == step.result->Ok_0,
        forall|b: usize| #[trigger] m2.contains_key(b) && b != step.id && !(m0[b].kind is Fresh) ==> m2[b] == m0[b],
        forall|b: usize|
            #[trigger] m2.contains_key(b) && b != step.id && m0[b].kind is Fresh ==> (m2[b].kind is Fresh
                || m2[b].kind is Skipped),
    ensures
        run_record(g, ms, db0, m2, step.after, t.push(step), true),
        forall|b: usize| #[trigger] ms.contains_key(b) && finished_kind(ms[b].kind) ==> m2[b] == ms[b],
{
    reveal(run_record);
    let t2 = t.push(step);
    let x = step.id;
    assert forall|i: int| 0 <= i <= t.len() implies db_after_steps(db0, t2, i) == db_after_steps(db0, t, i) by {
        if i > 0 {
            assert(t2[i - 1] == t[i - 1]);
        }
    }
    assert forall|i: int| 0 <= i < t.len() implies (#[trigger] t[i]).id != x by {
        assert(finished_kind(m0[t[i].id].kind));
    }
    assert forall|i: int| 0 <= i < t2.len() implies step_effect(
        g,
        (#[trigger] t2[i]).id,
        db_after_steps(db0, t2, i),
        t2[i].result,
        t2[i].after,
    ) by {
        if i < t.len() {
            assert(t2[i] == t[i]);
        }
    }
    assert forall|b: usize| #[trigger] ms.contains_key(b) && finished_kind(ms[b].kind) implies m2[b] == ms[b] by {
        assert(m0[b] == ms[b]);
        assert(m0.contains_key(b));
    }
    assert(!(ms.contains_key(x) && finished_kind(ms[x].kind)));
    assert forall|i: int, j: int| 0 <= i < j < t2.len() implies (#[trigger] t2[i]).id != (#[trigger] t2[j]).id by {
        assert(t2[i] == t[i]);
        if j < t.len() {
            assert(t2[j] == t[j]);
        }
    }
    assert forall|i: int| 0 <= i < t2.len() implies m2.contains_key((#[trigger] t2[i]).id) && !(ms.contains_key(
        t2[i].id,
    ) && finished_kind(ms[t2[i].id].kind)) by {
        if i < t.len() {
            assert(t2[i] == t[i]);
        }
    }
    assert forall|i: int| 0 <= i < t2.len() implies (#[trigger] t2[i]).result is Ok by {
        if i < t.len() {
            assert(t2[i] == t[i]);
        }
    }
    assert forall|i: int| 0 <= i < t2.len() implies ((#[trigger] t2[i]).result matches Ok(k) ==> m2[t2[i].id].kind
        == k) by {
        if i < t.len() {
            assert(t2[i] == t[i]);
            assert(finished_kind(m0[t[i].id].kind));
            assert(m0.contains_key(t[i].id));
        }
    }
    assert forall|b: usize|
        #[trigger] m2.contains_key(b) && finished_kind(m2[b].kind) && !(m2[b].kind is Skipped) && !(ms.contains_key(b)
            && finished_kind(ms[b].kind)) implies exists|i: int| 0 <= i < t2.len() && (#[trigger] t2[i]).id == b by {
        if b == x {
            assert(t2[t.len() as int].id == b);
        } else {
            assert(m0.contains_key(b));
            assert(m2[b] == m0[b]);
            let i = choose|i: int| 0 <= i < t.len() && (#[trigger] t[i]).id == b;
            assert(t2[i] == t[i]);
        }
    }
}

/// The run never gets stuck: once no build is ready and none is running,
/// every tracked build has finished (succeeded, is up to date, failed or
/// was skipped). Since the graph has no cycle, a fresh build always has an
/// input chain that ends in a build that can start.
pub proof fn lemma_idle_executor_is_done<D: ExecDb, W: World>(e: Executor<'_, D, W>)
    requires
        e.inv(),
        e.spec_pending().len() == 0,
        e.spec_running() == 0,
    ensures
        forall|b: usize| #[trigger] e.spec_builds().contains_key(b) ==> finished_kind(e.spec_builds()[b].kind),
        e.spec_finished() == e.spec_builds().dom().len(),
{
    let g = e.spec_graph();
    let m = e.spec_builds();
    let p = e.spec_pending();
    g.lemma_node_count_fits();
    let n = g.spec_nodes().len() as usize;
    assert forall|b: usize| #[trigger] m.contains_key(b) implies finished_kind(m[b].kind) by {
        if m[b].kind is Fresh {
            let w = lemma_fresh_walk(g, m, p, 0, e.spec_finished(), e.spec_failed(), b, n as nat);
            assert forall|i: int| 0 <= i < w.len() implies #[trigger] w[i] < n by {
                assert(m.contains_key(w[i]));
            }
            lemma_long_walk_cycle(g.spec_edges(), w, n);
        }
        if m[b].kind is Started {
            broadcast use vstd::set::group_set_axioms;
            lemma_builds_where_finite(m, |k: BuildStatusKind| k is Started);
            assert(started_builds(m).contains(b));
            assert(started_builds(m).remove(b).len() == started_builds(m).len() - 1);
        }
    }
    assert(finished_builds(m) =~= m.dom());
}

/// A build that was just recorded is current in the database: it is
/// recorded with its input set, and each of its outputs is recorded as
/// produced by it.
pub proof fn lemma_recorded_build_is_current(
    db: DbView,
    files: Seq<Seq<char>>,
    node: BuildNode,
    h: BuildHash,
    ih: InputHash,
    start: Timestamp,
    end: Timestamp,
)
    ensures
        record_current(after_write(db, files, node, h, ih, start, end), files, node, h, ih),
{
    let after = after_write(db, files, node, h, ih, start, end);
    let outs = paths_of(node.outs@, files);
    assert forall|k: int| 0 <= k < node.outs@.len() implies output_current(after, #[trigger] outs[k], h, after.builds[h]) by {
        assert(outs.contains(outs[k]));
    }
}

/// A build whose record was removed is not current in the database, so it
/// is found outdated without asking the world.
pub proof fn lemma_invalidated_build_is_outdated(
    db: DbView,
    files: Seq<Seq<char>>,
    node: BuildNode,
    h: BuildHash,
    ih: InputHash,
)
    ensures
        !record_current(after_invalidate(db, files, node, h), files, node, h, ih),
{
}

/// What the database gives back of a build record is what was last written
/// for that build, and other builds' records and the file records are
/// unchanged.
pub proof fn lemma_build_read_after_write(db: DbView, h: BuildHash, other: BuildHash, info: BuildInfoView, p: Seq<char>)
    ensures
        (DbView { builds: db.builds.insert(h, info), files: db.files }).build_info(h) == Some(info),
        other != h ==> (DbView { builds: db.builds.insert(h, info), files: db.files }).build_info(other) == db.build_info(
            other,
        ),
        (DbView { builds: db.builds.insert(h, info), files: db.files }).file_info(p) == db.file_info(p),
{
}

/// What the database gives back of a file record is what was last written
/// for that path, and other paths' records and the build records are
/// unchanged.
pub proof fn lemma_file_read_after_write(db: DbView, p: Seq<char>, other: Seq<char>, info: FileInfo, h: BuildHash)
    ensures
        (DbView { builds: db.builds, files: db.files.insert(p, info) }).file_info(p) == Some(info),
        other != p ==> (DbView { builds: db.builds, files: db.files.insert(p, info) }).file_info(other) == db.file_info(
            other,
        ),
        (DbView { builds: db.builds, files: db.files.insert(p, info) }).build_info(h) == db.build_info(h),
{
}

/// A removed record reads as absent.
pub proof fn lemma_read_after_remove(db: DbView, h: BuildHash, p: Seq<char>)
    ensures
        (DbView { builds: db.builds.remove(h), files: db.files }).build_info(h) is None,
        (DbView { builds: db.builds, files: db.files.remove(p) }).file_info(p) is None,
{
}

proof fn lemma_count_unsuccessful_zero(m: Map<usize, BuildStatus>, ds: Seq<usize>)
    requires
        count_unsuccessful(m, ds) == 0,
    ensures
        forall|j: int| 0 <= j < ds.len() ==> succeeded_in(m, #[trigger] ds[j]),
    decreases ds.len(),
{
    if ds.len() > 0 {
        lemma_count_unsuccessful_zero(m, ds.drop_last());
        assert forall|j: int| 0 <= j < ds.len() implies succeeded_in(m, #[trigger] ds[j]) by {
            if j < ds.len() - 1 {
                assert(ds.drop_last()[j] == ds[j]);
            }
        }
    }
}

proof fn lemma_count_unsuccessful_positive(m: Map<usize, BuildStatus>, ds: Seq<usize>, j: int)
    requires
        0 <= j < ds.len(),
        !succeeded_in(m, ds[j]),
    ensures
        count_unsuccessful(m, ds) >= 1,
    decreases ds.len(),
{
    if j < ds.len() - 1 {
        assert(ds.drop_last()[j] == ds[j]);
        lemma_count_unsuccessful_positive(m, ds.drop_last(), j);
    }
}

proof fn lemma_count_unsuccessful_same(m1: Map<usize, BuildStatus>, m2: Map<usize, BuildStatus>, ds: Seq<usize>)
    requires
        forall|j: int| 0 <= j < ds.len() ==> succeeded_in(m1, #[trigger] ds[j]) == succeeded_in(m2, ds[j]),
    ensures
        count_unsuccessful(m1, ds) == count_unsuccessful(m2, ds),
    decreases ds.len(),
{
    if ds.len() > 0 {
        assert forall|j: int| 0 <= j < ds.drop_last().len() implies succeeded_in(m1, #[trigger] ds.drop_last()[j])
            == succeeded_in(m2, ds.drop_last()[j]) by {
            assert(ds.drop_last()[j] == ds[j]);
        }
        lemma_count_unsuccessful_same(m1, m2, ds.drop_last());
        assert(succeeded_in(m1, ds[ds.len() - 1]) == succeeded_in(m2, ds[ds.len() - 1]));
    }
}

proof fn lemma_count_after_success(m: Map<usize, BuildStatus>, x: usize, v: BuildStatus, ds: Seq<usize>)
    requires
        ds.no_duplicates(),
        !succeeded_in(m, x),
        successful_kind(v.kind),
    ensures
        count_unsuccessful(m.insert(x, v), ds) + (if ds.contains(x) {
            1nat
        } else {
            0nat
        }) == count_unsuccessful(m, ds),
    decreases ds.len(),
{
    if ds.len() > 0 {
        let d = ds.drop_last();
        assert(d.no_duplicates());
        lemma_count_after_success(m, x, v, d);
        if ds.last() == x {
            assert(!d.contains(x)) by {
                if d.contains(x) {
                    let k = choose|k: int| 0 <= k < d.len() && d[k] == x;
                    assert(ds[k] == ds[ds.len() - 1]);
                }
            }
            assert(ds.contains(x)) by {
                assert(ds[ds.len() - 1] == x);
            }
        } else {
            assert(ds.contains(x) == d.contains(x)) by {
                if ds.contains(x) {
                    let k = choose|k: int| 0 <= k < ds.len() && ds[k] == x;
                    assert(d[k] == x);
                }
                if d.contains(x) {
                    let k = choose|k: int| 0 <= k < d.len() && d[k] == x;
                    assert(ds[k] == x);
                }
            }
        }
    }
}

proof fn lemma_builds_where_finite(m: Map<usize, BuildStatus>, p: spec_fn(BuildStatusKind) -> bool)
    requires
        m.dom().finite(),
    ensures
        builds_where(m, p).finite(),
{
    m.dom().lemma_len_filter(|b: usize| p(m[b].kind));
}

/// An entry of the dependency list is an edge.
proof fn lemma_out_neighbors_edge(edges: Seq<(usize, usize)>, b: usize, j: int)
    requires
        0 <= j < crate::collections::out_neighbors(edges, b).len(),
    ensures
        edges.contains((b, crate::collections::out_neighbors(edges, b)[j])),
{
    crate::graph::lemma_out_neighbors_from_edges(edges, b, j);
    let e = choose|e: int| 0 <= e < edges.len() && #[trigger] edges[e] == (b, crate::collections::out_neighbors(edges, b)[j]);
}

proof fn lemma_count_unsuccessful_none_succeeded_all(m: Map<usize, BuildStatus>, g: BuildGraph)
    requires
        forall|d: usize| #[trigger] m.contains_key(d) ==> m[d].kind is Fresh,
    ensures
        forall|b: usize| #[trigger] m.contains_key(b) ==> count_unsuccessful(m, g.spec_dependencies(b))
            == g.spec_dependencies(b).len(),
{
    assert forall|b: usize| #[trigger] m.contains_key(b) implies count_unsuccessful(m, g.spec_dependencies(b))
        == g.spec_dependencies(b).len() by {
        lemma_count_unsuccessful_none_succeeded(m, g.spec_dependencies(b));
    }
}

/// What `ready_among` holds: the tracked fresh entries with one pending
/// input, each once if `ds` names each build once.
proof fn lemma_ready_among(m: Map<usize, BuildStatus>, ds: Seq<usize>)
    ensures
        forall|i: int|
            0 <= i < ready_among(m, ds).len() ==> ds.contains(#[trigger] ready_among(m, ds)[i]) && m.contains_key(
                ready_among(m, ds)[i],
            ) && m[ready_among(m, ds)[i]].kind is Fresh && m[ready_among(m, ds)[i]].pending_inputs == 1,
        forall|b: usize|
            #[trigger] ds.contains(b) && m.contains_key(b) && m[b].kind is Fresh && m[b].pending_inputs == 1
                ==> ready_among(m, ds).contains(b),
        ds.no_duplicates() ==> ready_among(m, ds).no_duplicates(),
    decreases ds.len(),
{
    if ds.len() > 0 {
        let d = ds.drop_last();
        let r = ready_among(m, d);
        let x = ds.last();
        lemma_ready_among(m, d);
        let rr = ready_among(m, ds);
        assert forall|i: int| 0 <= i < rr.len() implies ds.contains(#[trigger] rr[i]) && m.contains_key(rr[i])
            && m[rr[i]].kind is Fresh && m[rr[i]].pending_inputs == 1 by {
            if i < r.len() {
                assert(rr[i] == r[i]);
                let k = choose|k: int| 0 <= k < d.len() && d[k] == r[i];
                assert(ds[k] == d[k]);
            } else {
                assert(rr[i] == x);
                assert(ds[ds.len() - 1] == x);
            }
        }
        assert forall|b: usize|
            #[trigger] ds.contains(b) && m.contains_key(b) && m[b].kind is Fresh && m[b].pending_inputs == 1
                implies rr.contains(b) by {
            let k = choose|k: int| 0 <= k < ds.len() && ds[k] == b;
            if k < ds.len() - 1 {
                assert(d[k] == b);
                assert(d.contains(b));
                assert(r.contains(b));
                let j = choose|j: int| 0 <= j < r.len() && r[j] == b;
                assert(rr[j] == b);
            } else {
                assert(rr[rr.len() - 1] == b);
            }
        }
        if ds.no_duplicates() {
            assert(d.no_duplicates());
            if rr.len() > r.len() {
                assert(!r.contains(x)) by {
                    if r.contains(x) {
                        let j = choose|j: int| 0 <= j < r.len() && r[j] == x;
                        let k = choose|k: int| 0 <= k < d.len() && d[k] == x;
                        assert(ds[k] == ds[ds.len() - 1]);
                    }
                }
                assert forall|i: int, j: int| 0 <= i < rr.len() && 0 <= j < rr.len() && i != j implies rr[i] != rr[j] by {
                    if i < r.len() && j < r.len() {
                        assert(rr[i] == r[i] && rr[j] == r[j]);
                    } else if i < r.len() {
                        assert(rr[i] == r[i]);
                    } else if j < r.len() {
                        assert(rr[j] == r[j]);
                    }
                }
            }
        }
    }
}

/// For every pair of builds, `b` is among the dependents of `x` exactly
/// when `x` is among the dependencies of `b`, which is exactly when the
/// graph has the edge from `b` to `x`.
pub proof fn lemma_dependent_iff(g: BuildGraph, x: usize, b: usize)
    ensures
        g.spec_dependents(x).contains(b) <==> g.spec_dependencies(b).contains(x),
        g.spec_dependents(x).contains(b) <==> g.spec_edges().contains((b, x)),
{
    let edges = g.spec_edges();
    if g.spec_dependents(x).contains(b) {
        let j = choose|j: int| 0 <= j < g.spec_dependents(x).len() && g.spec_dependents(x)[j] == b;
        lemma_in_neighbors_from_edges(edges, x, j);
        let e = choose|e: int| 0 <= e < edges.len() && #[trigger] edges[e] == (b, x);
        assert(edges.contains((b, x)));
        lemma_edge_in_out_neighbors(edges, b, x);
    }
    if g.spec_dependencies(b).contains(x) {
        let j = choose|j: int| 0 <= j < g.spec_dependencies(b).len() && g.spec_dependencies(b)[j] == x;
        lemma_out_neighbors_edge(edges, b, j);
        lemma_edge_in_in_neighbors(edges, b, x);
    }
    if edges.contains((b, x)) {
        lemma_edge_in_in_neighbors(edges, b, x);
    }
}

/// A build whose inputs have all succeeded only reaches succeeded builds:
/// along a walk, each build has succeeded, so its own inputs have too.
proof fn lemma_walk_succeeded(g: BuildGraph, m: Map<usize, BuildStatus>, p: Seq<usize>, k: int)
    requires
        is_walk(g.spec_edges(), p),
        1 <= k < p.len(),
        forall|j: int| 0 <= j < g.spec_dependencies(p[0]).len() ==> succeeded_in(m, #[trigger] g.spec_dependencies(p[0])[j]),
        forall|b: usize, j: int|
            m.contains_key(b) && (m[b].kind is Started || successful_kind(m[b].kind)) && 0 <= j
                < g.spec_dependencies(b).len() ==> succeeded_in(m, #[trigger] g.spec_dependencies(b)[j]),
    ensures
        succeeded_in(m, p[k]),
    decreases k,
{
    let edges = g.spec_edges();
    let i = k - 1;
    assert(edges.contains((p[i], p[i + 1])));
    lemma_edge_in_out_neighbors(edges, p[i], p[k]);
    let j = choose|j: int| 0 <= j < g.spec_dependencies(p[i]).len() && g.spec_dependencies(p[i])[j] == p[k];
    if k > 1 {
        lemma_walk_succeeded(g, m, p, k - 1);
    }
    assert(succeeded_in(m, g.spec_dependencies(p[i])[j]));
}

/// A build other than `x` whose inputs have all succeeded and that reaches
/// `x` proves that `x` has succeeded.
proof fn lemma_reaches_succeeded(g: BuildGraph, m: Map<usize, BuildStatus>, b: usize, x: usize)
    requires
        b != x,
        reaches(g.spec_edges(), b, x),
        forall|j: int| 0 <= j < g.spec_dependencies(b).len() ==> succeeded_in(m, #[trigger] g.spec_dependencies(b)[j]),
        forall|c: usize, j: int|
            m.contains_key(c) && (m[c].kind is Started || successful_kind(m[c].kind)) && 0 <= j
                < g.spec_dependencies(c).len() ==> succeeded_in(m, #[trigger] g.spec_dependencies(c)[j]),
    ensures
        succeeded_in(m, x),
{
    let p = choose|p: Seq<usize>| p.len() >= 1 && p[0] == b && p.last() == x && #[trigger] is_walk(g.spec_edges(), p);
    lemma_walk_succeeded(g, m, p, p.len() - 1);
}

/// A fresh build that depends on an unsucceeded build has a pending input.
proof fn lemma_fresh_dependent_pending(
    g: BuildGraph,
    m: Map<usize, BuildStatus>,
    p: Seq<usize>,
    r: nat,
    f: nat,
    fl: nat,
    x: usize,
    b: usize,
)
    requires
        state_inv(g, m, p, r, f, fl),
        !succeeded_in(m, x),
        m.contains_key(b),
        m[b].kind is Fresh,
        g.spec_dependents(x).contains(b),
    ensures
        m[b].pending_inputs >= 1,
{
    lemma_dependent_iff(g, x, b);
    let j = choose|j: int| 0 <= j < g.spec_dependencies(b).len() && g.spec_dependencies(b)[j] == x;
    lemma_count_unsuccessful_positive(m, g.spec_dependencies(b), j);
}

/// Finishing a started build successfully keeps the state consistent: the
/// fresh builds that depend on it have one pending input less, and those
/// left with none become ready.
#[verifier::rlimit(40)]
proof fn lemma_success_state(
    g: BuildGraph,
    m: Map<usize, BuildStatus>,
    p: Seq<usize>,
    r: nat,
    f: nat,
    fl: nat,
    x: usize,
    stat: BuildStatusKind,
)
    requires
        state_inv(g, m, p, r, f, fl),
        m.contains_key(x),
        m[x].kind is Started,
        successful_kind(stat),
    ensures
        r >= 1,
        state_inv(g, after_success(g, m, x, stat), p + ready_among(m, g.spec_dependents(x)), (r - 1) as nat, f + 1, fl),
{
    broadcast use vstd::set::group_set_axioms;

    let m2 = after_success(g, m, x, stat);
    let dl = g.spec_dependents(x);
    let edges = g.spec_edges();
    let v = m2[x];
    let rd = ready_among(m, dl);
    let p2 = p + rd;
    assert(m2.dom() =~= m.dom());
    lemma_neighbors_distinct(edges, x);
    lemma_ready_among(m, dl);
    assert forall|y: usize| succeeded_in(m2, y) == #[trigger] succeeded_in(m.insert(x, v), y) by {}
    // Fresh builds count their unsucceeded inputs.
    assert forall|b: usize| #[trigger] m2.contains_key(b) && m2[b].kind is Fresh implies m2[b].pending_inputs
        == count_unsuccessful(m2, g.spec_dependencies(b)) by {
        let ds = g.spec_dependencies(b);
        lemma_neighbors_distinct(edges, b);
        lemma_count_unsuccessful_same(m2, m.insert(x, v), ds);
        lemma_count_after_success(m, x, v, ds);
        lemma_dependent_iff(g, x, b);
        if dl.contains(b) {
            lemma_fresh_dependent_pending(g, m, p, r, f, fl, x, b);
        }
    }
    // Started and successful builds have all inputs succeeded.
    assert forall|b: usize, j: int|
        m2.contains_key(b) && (m2[b].kind is Started || successful_kind(m2[b].kind)) && 0 <= j
            < g.spec_dependencies(b).len() implies succeeded_in(m2, #[trigger] g.spec_dependencies(b)[j]) by {
        let y = g.spec_dependencies(b)[j];
        if b == x {
            assert(succeeded_in(m, y));
        } else {
            assert(m2[b] == m[b]);
            assert(succeeded_in(m, y));
        }
    }
    // The ready builds.
    assert forall|i: int| 0 <= i < p.len() implies !dl.contains(#[trigger] p[i]) && p[i] != x by {
        if dl.contains(p[i]) {
            lemma_fresh_dependent_pending(g, m, p, r, f, fl, x, p[i]);
        }
    }
    assert forall|i: int|
        0 <= i < p2.len() implies m2.contains_key(#[trigger] p2[i]) && m2[p2[i]].kind is Fresh
            && m2[p2[i]].pending_inputs == 0 by {
        if i < p.len() {
            assert(p2[i] == p[i]);
        } else {
            assert(p2[i] == rd[i - p.len()]);
        }
    }
    assert forall|b: usize| #[trigger] m2.contains_key(b) && m2[b].kind is Fresh && m2[b].pending_inputs == 0 implies p2.contains(
        b,
    ) by {
        if dl.contains(b) && m[b].kind is Fresh {
            lemma_fresh_dependent_pending(g, m, p, r, f, fl, x, b);
            assert(rd.contains(b));
            let k = choose|k: int| 0 <= k < rd.len() && rd[k] == b;
            assert(p2[p.len() + k] == b);
        } else {
            assert(p.contains(b));
            let k = choose|k: int| 0 <= k < p.len() && p[k] == b;
            assert(p2[k] == b);
        }
    }
    assert(p2.no_duplicates()) by {
        assert forall|i: int, j: int| 0 <= i < p2.len() && 0 <= j < p2.len() && i != j implies p2[i] != p2[j] by {
            if i < p.len() && j < p.len() {
                assert(p2[i] == p[i] && p2[j] == p[j]);
            } else if i >= p.len() && j >= p.len() {
                assert(p2[i] == rd[i - p.len()] && p2[j] == rd[j - p.len()]);
            } else if i < p.len() {
                assert(p2[i] == p[i] && p2[j] == rd[j - p.len()]);
            } else {
                assert(p2[j] == p[j] && p2[i] == rd[i - p.len()]);
            }
        }
    }
    // The counters.
    lemma_builds_where_finite(m, |k: BuildStatusKind| k is Started);
    lemma_builds_where_finite(m, |k: BuildStatusKind| finished_kind(k));
    lemma_builds_where_finite(m, |k: BuildStatusKind| failed_kind(k));
    assert(started_builds(m2) =~= started_builds(m).remove(x));
    assert(finished_builds(m2) =~= finished_builds(m).insert(x));
    assert(failed_builds(m2) =~= failed_builds(m));
}

/// Finishing a started build unsuccessfully keeps the state consistent:
/// every fresh build that transitively depends on it is skipped, and no
/// ready build is among them.
#[verifier::rlimit(40)]
proof fn lemma_failure_state(
    g: BuildGraph,
    m: Map<usize, BuildStatus>,
    p: Seq<usize>,
    r: nat,
    f: nat,
    fl: nat,
    x: usize,
    stat: BuildStatusKind,
)
    requires
        state_inv(g, m, p, r, f, fl),
        m.contains_key(x),
        m[x].kind is Started,
        failed_kind(stat),
    ensures
        r >= 1,
        state_inv(
            g,
            after_failure(g, m, x, stat),
            p,
            (r - 1) as nat,
            finished_builds(after_failure(g, m, x, stat)).len(),
            failed_builds(after_failure(g, m, x, stat)).len(),
        ),
{
    broadcast use vstd::set::group_set_axioms;

    let m2 = after_failure(g, m, x, stat);
    let edges = g.spec_edges();
    assert(m2.dom() =~= m.dom());
    assert forall|y: usize| #[trigger] succeeded_in(m2, y) == succeeded_in(m, y) by {}
    assert forall|b: usize| #[trigger] m2.contains_key(b) && m2[b].kind is Fresh implies m2[b].pending_inputs
        == count_unsuccessful(m2, g.spec_dependencies(b)) by {
        lemma_count_unsuccessful_same(m2, m, g.spec_dependencies(b));
    }
    assert forall|b: usize, j: int|
        m2.contains_key(b) && (m2[b].kind is Started || successful_kind(m2[b].kind)) && 0 <= j
            < g.spec_dependencies(b).len() implies succeeded_in(m2, #[trigger] g.spec_dependencies(b)[j]) by {
        assert(m2[b] == m[b]);
    }
    assert forall|i: int| 0 <= i < p.len() implies m2.contains_key(#[trigger] p[i]) && m2[p[i]].kind is Fresh
        && m2[p[i]].pending_inputs == 0 by {
        let b = p[i];
        if b != x && reaches(edges, b, x) {
            lemma_count_unsuccessful_zero(m, g.spec_dependencies(b));
            lemma_reaches_succeeded(g, m, b, x);
        }
    }
    assert forall|b: usize, j: int|
        m2.contains_key(b) && m2[b].kind is Fresh && 0 <= j < g.spec_dependencies(b).len() implies !(m2.contains_key(
            #[trigger] g.spec_dependencies(b)[j],
        ) && failed_kind(m2[g.spec_dependencies(b)[j]].kind)) by {
        let d = g.spec_dependencies(b)[j];
        if m2.contains_key(d) && failed_kind(m2[d].kind) {
            lemma_out_neighbors_edge(edges, b, j);
            if d == x {
                lemma_reaches_refl(edges, x);
                lemma_reaches_prepend(edges, b, x, x);
            } else if !failed_kind(m[d].kind) {
                lemma_reaches_prepend(edges, b, d, x);
            }
        }
    }
    lemma_builds_where_finite(m, |k: BuildStatusKind| k is Started);
    assert(started_builds(m2) =~= started_builds(m).remove(x));
}

/// With every entry succeeded, none is counted.
proof fn lemma_count_unsuccessful_all_succeeded(m: Map<usize, BuildStatus>, ds: Seq<usize>)
    requires
        forall|j: int| 0 <= j < ds.len() ==> succeeded_in(m, #[trigger] ds[j]),
    ensures
        count_unsuccessful(m, ds) == 0,
    decreases ds.len(),
{
    if ds.len() > 0 {
        assert forall|j: int| 0 <= j < ds.drop_last().len() implies succeeded_in(m, #[trigger] ds.drop_last()[j]) by {
            assert(ds.drop_last()[j] == ds[j]);
        }
        lemma_count_unsuccessful_all_succeeded(m, ds.drop_last());
        assert(succeeded_in(m, ds[ds.len() - 1]));
    }
}

/// With nothing ready and nothing running, a fresh build has a fresh input:
/// one of its inputs has not succeeded, and it has neither started nor
/// failed.
proof fn lemma_fresh_has_fresh_input(
    g: BuildGraph,
    m: Map<usize, BuildStatus>,
    p: Seq<usize>,
    r: nat,
    f: nat,
    fl: nat,
    b: usize,
) -> (j: int)
    requires
        state_inv(g, m, p, r, f, fl),
        p.len() == 0,
        r == 0,
        m.contains_key(b),
        m[b].kind is Fresh,
    ensures
        0 <= j < g.spec_dependencies(b).len(),
        m.contains_key(g.spec_dependencies(b)[j]),
        m[g.spec_dependencies(b)[j]].kind is Fresh,
{
    broadcast use vstd::set::group_set_axioms;

    let ds = g.spec_dependencies(b);
    assert(!p.contains(b));
    if forall|j: int| 0 <= j < ds.len() ==> succeeded_in(m, #[trigger] ds[j]) {
        lemma_count_unsuccessful_all_succeeded(m, ds);
    }
    let j = choose|j: int| 0 <= j < ds.len() && !succeeded_in(m, #[trigger] ds[j]);
    let d = ds[j];
    assert(m.contains_key(d));
    lemma_builds_where_finite(m, |k: BuildStatusKind| k is Started);
    if m[d].kind is Started {
        assert(started_builds(m).contains(d));
        assert(started_builds(m).remove(d).len() == started_builds(m).len() - 1);
    }
    j
}

/// With nothing ready and nothing running, a fresh build starts walks of
/// fresh builds of any length.
proof fn lemma_fresh_walk(
    g: BuildGraph,
    m: Map<usize, BuildStatus>,
    p: Seq<usize>,
    r: nat,
    f: nat,
    fl: nat,
    b: usize,
    k: nat,
) -> (w: Seq<usize>)
    requires
        state_inv(g, m, p, r, f, fl),
        p.len() == 0,
        r == 0,
        m.contains_key(b),
        m[b].kind is Fresh,
    ensures
        w.len() == k + 1,
        w[0] == b,
        is_walk(g.spec_edges(), w),
        forall|i: int| 0 <= i < w.len() ==> m.contains_key(#[trigger] w[i]),
    decreases k,
{
    if k == 0 {
        let w = seq![b];
        assert(is_walk(g.spec_edges(), w));
        w
    } else {
        let j = lemma_fresh_has_fresh_input(g, m, p, r, f, fl, b);
        let c = g.spec_dependencies(b)[j];
        let rest = lemma_fresh_walk(g, m, p, r, f, fl, c, (k - 1) as nat);
        lemma_out_neighbors_edge(g.spec_edges(), b, j);
        let w = seq![b] + rest;
        assert forall|i: int| 0 <= i < w.len() - 1 implies #[trigger] g.spec_edges().contains((w[i], w[i + 1])) by {
            if i > 0 {
                let t = i - 1;
                assert(w[i] == rest[t] && w[i + 1] == rest[t + 1]);
            }
        }
        assert forall|i: int| 0 <= i < w.len() implies m.contains_key(#[trigger] w[i]) by {
            if i > 0 {
                assert(w[i] == rest[i - 1]);
            }
        }
        w
    }
}

/// A walk that visits more nodes than there are, all below `n`, goes around
/// a cycle.
proof fn lemma_long_walk_cycle(edges: Seq<(usize, usize)>, w: Seq<usize>, n: usize)
    requires
        is_walk(edges, w),
        w.len() > n,
        forall|i: int| 0 <= i < w.len() ==> #[trigger] w[i] < n,
    ensures
        has_cycle(edges),
{
    if w.no_duplicates() {
        w.unique_seq_to_set();
        assert forall|u: usize| #[trigger] w.to_set().contains(u) implies u < n by {
            let i = choose|i: int| 0 <= i < w.len() && w[i] == u;
        }
        lemma_bounded_set_len(w.to_set(), n);
    } else {
        let (i, j) = choose|i: int, j: int| 0 <= i < w.len() && 0 <= j < w.len() && i != j && w[i] == w[j];
        let (a, b) = if i < j {
            (i, j)
        } else {
            (j, i)
        };
        let c = w.subrange(a, b + 1);
        assert forall|t: int| 0 <= t < c.len() - 1 implies #[trigger] edges.contains((c[t], c[t + 1])) by {
            assert(c[t] == w[a + t] && c[t + 1] == w[a + t + 1]);
        }
        assert(c.len() >= 2 && is_walk(edges, c) && c[0] == c.last());
    }
}

} // verus!
