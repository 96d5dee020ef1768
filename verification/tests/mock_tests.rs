//! Small tests of the executor in a world held in memory.

use std::collections::HashMap;
use std::sync::Mutex;

use n2o5::db::in_memory::InMemoryDb;
use n2o5::db::{DbReader, Timestamp};
use n2o5::exec::{
    check_of_stat, hash_node, stat_decide, BuildCheck, BuildNodeResult, BuildStatusKind, ExecConfig, Executor,
    NodeInputKind, Question, StatStep,
};
use n2o5::graph::{BuildCommand, BuildGraph, BuildId, BuildMethod, BuildNode, GraphBuilder};
use n2o5::world::{World, WorldError};

type MockCallback = Box<dyn Fn(&BuildMethod) -> Result<BuildStatusKind, WorldError> + Send + Sync>;

/// A world held entirely in memory.
struct MockWorld {
    inner: Mutex<MockWorldInner>,
}

struct MockWorldInner {
    /// A number that stands for the time. It grows each time a file is
    /// touched.
    epoch: u64,
    /// The files that exist, with the epoch each was last modified at
    files: HashMap<String, u64>,
    /// The commands run, in order
    exec_log: Vec<MockExecResult>,
    /// What running a command gives
    callback: Option<MockCallback>,
    /// The files each program writes when it succeeds
    outputs: HashMap<String, Vec<String>>,
}

#[derive(Debug, Clone)]
enum MockExecResult {
    Subcommand(BuildCommand),
    Callback(String),
    Phony,
}

const NANOS_PER_EPOCH: u128 = 1_000_000_000;

impl World for MockWorld {
    fn file_exists(&self, path: &str) -> bool {
        let inner = self.inner.lock().unwrap();
        inner.files.contains_key(path)
    }

    fn mtime(&self, path: &str) -> Result<Timestamp, WorldError> {
        let inner = self.inner.lock().unwrap();
        match inner.files.get(path) {
            Some(epoch) => Ok(*epoch as u128 * NANOS_PER_EPOCH),
            None => Err(WorldError { message: "file not found".to_string() }),
        }
    }

    fn now(&self) -> Timestamp {
        let inner = self.inner.lock().unwrap();
        inner.epoch as u128 * NANOS_PER_EPOCH
    }

    fn execute(&self, cmd: &BuildMethod) -> Result<BuildStatusKind, WorldError> {
        let mut inner = self.inner.lock().unwrap();
        match cmd {
            BuildMethod::Phony => inner.exec_log.push(MockExecResult::Phony),
            BuildMethod::SubCommand(c) => inner.exec_log.push(MockExecResult::Subcommand(c.clone())),
            BuildMethod::Callback(name) => inner.exec_log.push(MockExecResult::Callback(name.clone())),
        }
        let result = match &inner.callback {
            Some(cb) => cb(cmd),
            None => Ok(BuildStatusKind::Succeeded),
        };
        // A command that succeeds writes its outputs, as a real one does.
        if let (Ok(BuildStatusKind::Succeeded), BuildMethod::SubCommand(c)) = (&result, cmd) {
            let outs = inner.outputs.get(&c.executable).cloned().unwrap_or_default();
            for o in outs {
                inner.epoch += 1;
                let epoch = inner.epoch;
                inner.files.insert(o, epoch);
            }
        }
        result
    }
}

impl MockWorld {
    fn new() -> Self {
        MockWorld {
            inner: Mutex::new(MockWorldInner {
                epoch: 0,
                files: HashMap::new(),
                exec_log: Vec::new(),
                callback: None,
                outputs: HashMap::new(),
            }),
        }
    }

    /// Make a file exist, modified at a new epoch.
    fn touch_file(&self, path: &str) {
        let mut inner = self.inner.lock().unwrap();
        inner.epoch += 1;
        let epoch = inner.epoch;
        inner.files.insert(path.to_string(), epoch);
    }

    /// Remove a file.
    fn remove_file(&self, path: &str) {
        let mut inner = self.inner.lock().unwrap();
        inner.files.remove(path);
    }

    /// Take and clear the log of commands run.
    fn take_log(&self) -> Vec<MockExecResult> {
        let mut inner = self.inner.lock().unwrap();
        std::mem::take(&mut inner.exec_log)
    }

    /// Make each program of the graph write the outputs of its build when
    /// it succeeds.
    fn learn_outputs(&self, graph: &BuildGraph) {
        let mut inner = self.inner.lock().unwrap();
        for i in 0..graph.node_count() {
            let node = graph.lookup_build(BuildId(i)).unwrap();
            if let BuildMethod::SubCommand(c) = &node.command {
                let outs = node.outs.iter().map(|o| graph.lookup_path(*o).unwrap().clone()).collect();
                inner.outputs.insert(c.executable.clone(), outs);
            }
        }
    }

    /// Set what running a command gives.
    fn set_callback(&self, callback: MockCallback) {
        let mut inner = self.inner.lock().unwrap();
        inner.callback = Some(callback);
    }
}

/// A build of a graph being made: its name, the builds it depends on, its
/// outputs, its program and its inputs.
struct MockBuild<'a> {
    deps: Vec<usize>,
    outs: Vec<&'a str>,
    cmd: &'a str,
    ins: Vec<&'a str>,
}

fn mock_build<'a>(deps: &[usize], outs: &[&'a str], cmd: &'a str, ins: &[&'a str]) -> MockBuild<'a> {
    MockBuild { deps: deps.to_vec(), outs: outs.to_vec(), cmd, ins: ins.to_vec() }
}

/// A graph of the builds, in order; build `i` gets id `i`.
fn mock_graph(builds: &[MockBuild]) -> (BuildGraph, Vec<BuildId>) {
    let mut gb = GraphBuilder::new();
    let mut ids = Vec::new();
    for b in builds {
        let outs = b.outs.iter().map(|o| gb.add_file(o)).collect();
        let ins = b.ins.iter().map(|i| gb.add_file(i)).collect();
        let node = BuildNode {
            command: BuildMethod::SubCommand(BuildCommand { executable: b.cmd.to_string(), args: vec![] }),
            ins,
            outs,
            description: None,
        };
        let id = gb.add_build(node);
        for d in &b.deps {
            gb.add_build_dep(id, ids[*d]);
        }
        ids.push(id);
    }
    (gb.build().unwrap(), ids)
}

/// Run the wanted builds of the graph, and give back the programs run and
/// the database.
fn run_graph(
    world: &MockWorld,
    graph: &BuildGraph,
    cfg: ExecConfig,
    db: InMemoryDb,
    want: Vec<BuildId>,
) -> (Vec<String>, InMemoryDb) {
    world.learn_outputs(graph);
    let mut exec = Executor::with_world(&cfg, graph, db, world);
    exec.want(want);
    exec.run().unwrap();
    let db = exec.into_db();
    let log = world
        .take_log()
        .into_iter()
        .map(|e| match e {
            MockExecResult::Subcommand(cmd) => cmd.executable,
            MockExecResult::Callback(name) => format!("cb:{name}"),
            MockExecResult::Phony => "PHONY".to_string(),
        })
        .collect();
    (log, db)
}

fn touch_all(world: &MockWorld, files: &[&str]) {
    for f in files {
        world.touch_file(f);
    }
}

fn set_fail_on(world: &MockWorld, exec_name: &str) {
    set_fail_on_any(world, &[exec_name]);
}

fn set_fail_on_any(world: &MockWorld, exec_names: &[&str]) {
    let names: Vec<String> = exec_names.iter().map(|s| s.to_string()).collect();
    world.set_callback(Box::new(move |method| {
        if let BuildMethod::SubCommand(cmd) = method {
            if names.iter().any(|n| &cmd.executable == n) {
                return Ok(BuildStatusKind::Failed);
            }
        }
        Ok(BuildStatusKind::Succeeded)
    }));
}

fn assert_db_has(db: &InMemoryDb, path: &str) {
    let rd = db.begin_read();
    assert!(rd.get_file_info(path).is_some());
}

fn assert_db_missing(db: &InMemoryDb, path: &str) {
    let rd = db.begin_read();
    assert!(rd.get_file_info(path).is_none());
}

fn assert_log_include(log: &[String], expected: &[&str]) {
    for e in expected {
        assert!(log.contains(&e.to_string()), "Expected log to include {}. Got {:?}", e, log);
    }
}

fn assert_order(log: &[String], before: &str, after: &str) {
    let b = log
        .iter()
        .position(|l| l == before)
        .unwrap_or_else(|| panic!("Expected '{}' in log {:?}", before, log));
    let a = log
        .iter()
        .position(|l| l == after)
        .unwrap_or_else(|| panic!("Expected '{}' in log {:?}", after, log));
    assert!(b < a, "Expected '{}' to execute before '{}'. Got {:?}", before, after, log);
}

// 0) No-op run (no nodes); assert no errors
#[test]
fn test_nothing() {
    let cfg = ExecConfig::default();
    let (graph, _) = mock_graph(&[]);
    let db = InMemoryDb::new();
    let world = MockWorld::new();
    let mut executor = Executor::with_world(&cfg, &graph, db, &world);
    executor.run().unwrap();
}

// 1) Single node: Outdated -> Succeeded; assert exec log and file info written
#[test]
fn test_single_node_outdated_succeeded() {
    let (graph, ids) = mock_graph(&[mock_build(&[], &["out.txt"], "A", &["in.txt"])]);

    let world = MockWorld::new();
    touch_all(&world, &["in.txt"]);

    let (log, db) = run_graph(&world, &graph, ExecConfig::default(), InMemoryDb::new(), vec![ids[0]]);
    assert_eq!(log, vec!["A"]);

    assert_db_has(&db, "out.txt");
}

// 2) Single node: Outdated -> Failed; assert exec log and file info invalidated
#[test]
fn test_single_node_outdated_failed() {
    let (graph, ids) = mock_graph(&[mock_build(&[], &["out.txt"], "A", &["in.txt"])]);

    let world = MockWorld::new();
    touch_all(&world, &["in.txt"]);
    set_fail_on(&world, "A");

    let (log, db) = run_graph(&world, &graph, ExecConfig::default(), InMemoryDb::new(), vec![ids[0]]);
    assert_eq!(log, vec!["A"]);

    assert_db_missing(&db, "out.txt");
}

// 3) Single node: UpToDate on second run (no execution)
#[test]
fn test_single_node_up_to_date() {
    let (graph, ids) = mock_graph(&[mock_build(&[], &["out.txt"], "A", &["in.txt"])]);

    let world = MockWorld::new();
    touch_all(&world, &["in.txt"]);

    // First run to populate DB
    let (_, db) = run_graph(&world, &graph, ExecConfig::default(), InMemoryDb::new(), vec![ids[0]]);

    // Second run should be UpToDate and not execute the command
    let (log, db) = run_graph(&world, &graph, ExecConfig::default(), db, vec![ids[0]]);
    assert!(log.is_empty(), "Expected no execution on UpToDate, got {:?}", log);

    // File info should still exist
    assert_db_has(&db, "out.txt");
}

// 4) Linear dependency: A -> B success path
#[test]
fn test_linear_dependency_success() {
    let (graph, ids) = mock_graph(&[
        mock_build(&[], &["a.out"], "A", &["a.in"]),
        mock_build(&[0], &["b.out"], "B", &["a.out"]),
    ]);

    let world = MockWorld::new();
    touch_all(&world, &["a.in", "a.out"]);

    let (log, db) = run_graph(&world, &graph, ExecConfig::default(), InMemoryDb::new(), vec![ids[1]]);

    assert_eq!(log.len(), 2);
    assert_order(&log, "A", "B");

    assert_db_has(&db, "b.out");
}

// 5) Failure propagation: A Failed -> B Skipped (B not executed)
#[test]
fn test_dependency_failure_propagation_skipped() {
    let (graph, ids) = mock_graph(&[
        mock_build(&[], &["a.out"], "A", &["a.in"]),
        mock_build(&[0], &["b.out"], "B", &["a.out"]),
    ]);

    let world = MockWorld::new();
    touch_all(&world, &["a.in"]);
    set_fail_on(&world, "A");

    let (log, db) = run_graph(&world, &graph, ExecConfig::default(), InMemoryDb::new(), vec![ids[1]]);
    assert_eq!(log, vec!["A"]);

    assert_db_missing(&db, "a.out");
    assert_db_missing(&db, "b.out");
}

// 6) Multiple inputs gate: B executes only after A and C succeed
#[test]
fn test_multi_input_gatekeeping() {
    let (graph, ids) = mock_graph(&[
        mock_build(&[], &["a.out"], "A", &["a.in"]),
        mock_build(&[], &["c.out"], "C", &["c.in"]),
        mock_build(&[0, 1], &["b.out"], "B", &["a.out", "c.out"]),
    ]);

    let world = MockWorld::new();
    touch_all(&world, &["a.in", "c.in", "a.out", "c.out"]);

    let (log, db) = run_graph(&world, &graph, ExecConfig::default(), InMemoryDb::new(), vec![ids[2]]);
    assert_eq!(log.len(), 3);
    assert_order(&log, "A", "B");
    assert_order(&log, "C", "B");

    assert_db_has(&db, "b.out");
}

// 7) Skipped chain propagation: A Failed -> B Skipped -> C Skipped
#[test]
fn test_skipped_chain_propagation() {
    let (graph, ids) = mock_graph(&[
        mock_build(&[], &["a.out"], "A", &["a.in"]),
        mock_build(&[0], &["b.out"], "B", &["a.out"]),
        mock_build(&[1], &["c.out"], "C", &["b.out"]),
    ]);

    let world = MockWorld::new();
    touch_all(&world, &["a.in"]);
    set_fail_on(&world, "A");

    let (log, db) = run_graph(&world, &graph, ExecConfig::default(), InMemoryDb::new(), vec![ids[2]]);
    assert_eq!(log, vec!["A"]);

    assert_db_missing(&db, "a.out");
    assert_db_missing(&db, "b.out");
    assert_db_missing(&db, "c.out");
}

// 8) parallelism=1 with two leaves; sequential execution (no strict order asserted)
#[test]
fn test_parallelism_one_two_leaves() {
    let (graph, ids) = mock_graph(&[
        mock_build(&[], &["d.out"], "D", &["d.in"]),
        mock_build(&[], &["e.out"], "E", &["e.in"]),
    ]);

    let world = MockWorld::new();
    touch_all(&world, &["d.in", "e.in"]);

    let (log, _db) =
        run_graph(&world, &graph, ExecConfig { parallelism: 1 }, InMemoryDb::new(), vec![ids[0], ids[1]]);
    assert_eq!(log.len(), 2);
    assert_log_include(&log, &["D", "E"]);
}

#[test]
fn test_failure_midway_propagation() {
    let (graph, ids) = mock_graph(&[
        mock_build(&[], &["a.out"], "A", &["a.in"]),
        mock_build(&[0], &["b.out"], "B", &["a.out"]),
        mock_build(&[1], &["c.out"], "C", &["b.out"]),
    ]);

    let world = MockWorld::new();
    touch_all(&world, &["a.in"]);
    set_fail_on(&world, "B");

    let (log, db) = run_graph(&world, &graph, ExecConfig::default(), InMemoryDb::new(), vec![ids[2]]);
    assert_eq!(log, vec!["A", "B"]);
    assert_db_has(&db, "a.out");
}

#[test]
fn test_up_to_date() {
    let (graph, ids) = mock_graph(&[
        mock_build(&[], &["a.out"], "A", &["a.in"]),
        mock_build(&[0], &["b.out"], "B", &["a.out"]),
    ]);

    let world = MockWorld::new();
    touch_all(&world, &["a.in"]);

    // First run to populate DB
    let (_, db) = run_graph(&world, &graph, ExecConfig::default(), InMemoryDb::new(), vec![ids[1]]);

    // Second run should be UpToDate and not execute the command
    let (log, db) = run_graph(&world, &graph, ExecConfig::default(), db, vec![ids[1]]);
    assert!(log.is_empty(), "Expected no execution on UpToDate, got {:?}", log);

    // File info should still exist
    assert_db_has(&db, "b.out");
}

#[test]
fn test_two_dependency_failures_skip_consumer() {
    let (graph, ids) = mock_graph(&[
        mock_build(&[], &["a.out"], "A", &["a.in"]),
        mock_build(&[], &["b.out"], "B", &["b.in"]),
        mock_build(&[0, 1], &["c.out"], "C", &["a.out", "b.out"]),
    ]);

    let world = MockWorld::new();
    touch_all(&world, &["a.in", "b.in"]);
    set_fail_on_any(&world, &["A", "B"]);

    // A run stops at the first failure; C is not run and no error is raised
    let (_log, db) = run_graph(&world, &graph, ExecConfig::default(), InMemoryDb::new(), vec![ids[2]]);

    assert_db_missing(&db, "a.out");
    assert_db_missing(&db, "b.out");
    assert_db_missing(&db, "c.out");
}

#[test]
fn test_touch_input_after_first_build_triggers_rebuild() {
    let (graph, ids) = mock_graph(&[mock_build(&[], &["out.txt"], "A", &["in.txt"])]);

    let world = MockWorld::new();
    touch_all(&world, &["in.txt"]);

    // First run to populate DB
    let (log, db) = run_graph(&world, &graph, ExecConfig::default(), InMemoryDb::new(), vec![ids[0]]);
    assert_db_has(&db, "out.txt");
    assert_eq!(log, vec!["A"]);

    // Touch input after the first build
    world.touch_file("in.txt");

    // Second run should rebuild due to input mtime > last_start
    let (log, db) = run_graph(&world, &graph, ExecConfig::default(), db, vec![ids[0]]);
    assert_eq!(log, vec!["A"]);

    // File info should still exist
    assert_db_has(&db, "out.txt");
}

#[test]
fn test_change_command_then_change_back_reuses_same_db() {
    // Initial build with A
    let (g1, ids1) = mock_graph(&[mock_build(&[], &["out.txt"], "A", &["in.txt"])]);

    let world = MockWorld::new();
    touch_all(&world, &["in.txt"]);

    let (_, db) = run_graph(&world, &g1, ExecConfig::default(), InMemoryDb::new(), vec![ids1[0]]);

    // Change command to X, same inputs/outputs, reuse the same DB
    let (g2, ids2) = mock_graph(&[mock_build(&[], &["out.txt"], "X", &["in.txt"])]);
    let (log2, db) = run_graph(&world, &g2, ExecConfig::default(), db, vec![ids2[0]]);
    assert_eq!(log2, vec!["X"]);
    assert_db_has(&db, "out.txt");

    // Change command back to A and build again with the same DB
    let (g3, ids3) = mock_graph(&[mock_build(&[], &["out.txt"], "A", &["in.txt"])]);
    let (log3, db) = run_graph(&world, &g3, ExecConfig::default(), db, vec![ids3[0]]);
    assert_eq!(log3, vec!["A"]);
    assert_db_has(&db, "out.txt");

    // Another build with A should be UpToDate (no execution)
    let (g4, _) = mock_graph(&[mock_build(&[], &["out.txt"], "A", &["in.txt"])]);
    let (log4, db) = run_graph(&world, &g4, ExecConfig::default(), db, vec![ids3[0]]);
    assert_eq!(log4.len(), 0);
    assert_db_has(&db, "out.txt");
}

#[test]
fn test_remove_output_file_after_successful_build() {
    let (graph, ids) = mock_graph(&[mock_build(&[], &["out.txt"], "A", &["in.txt"])]);

    let world = MockWorld::new();
    touch_all(&world, &["in.txt"]);

    // First run to populate DB
    let (_, db) = run_graph(&world, &graph, ExecConfig::default(), InMemoryDb::default(), vec![ids[0]]);
    assert_db_has(&db, "out.txt");

    // Simulate removing the output file from the world
    world.remove_file("out.txt");

    let (log, db) = run_graph(&world, &graph, ExecConfig::default(), db, vec![ids[0]]);
    // Command should re-execute to regenerate the missing output
    assert_eq!(log, vec!["A"]);

    // DB still tracks the file info
    assert_db_has(&db, "out.txt");
}

#[test]
fn test_nonexisting_input_file_fails_without_execution() {
    let (graph, ids) = mock_graph(&[mock_build(&[], &["out.txt"], "A", &["missing.in"])]);

    let world = MockWorld::new();

    let (log, db) = run_graph(&world, &graph, ExecConfig::default(), InMemoryDb::new(), vec![ids[0]]);
    assert!(log.is_empty(), "Expected no execution when input file is missing, got {:?}", log);

    assert_db_missing(&db, "out.txt");
}

#[test]
fn want_counts_newly_tracked_builds() {
    let (graph, ids) = mock_graph(&[
        mock_build(&[], &["a.out"], "A", &["a.in"]),
        mock_build(&[0], &["b.out"], "B", &["a.out"]),
        mock_build(&[], &["c.out"], "C", &["c.in"]),
    ]);
    let cfg = ExecConfig::default();
    let world = MockWorld::new();
    let mut exec = Executor::with_world(&cfg, &graph, InMemoryDb::new(), &world);
    assert_eq!(exec.want(vec![ids[1]]), 2);
    assert_eq!(exec.want(vec![ids[0]]), 0);
    assert_eq!(exec.want(vec![ids[2], ids[2]]), 1);
}

#[test]
fn stepping_by_hand_starts_dependencies_first() {
    let (graph, ids) = mock_graph(&[
        mock_build(&[], &["a.out"], "A", &["a.in"]),
        mock_build(&[0], &["b.out"], "B", &["a.out"]),
    ]);
    let cfg = ExecConfig::default();
    let world = MockWorld::new();
    let mut exec = Executor::with_world(&cfg, &graph, InMemoryDb::new(), &world);
    exec.want(vec![ids[1]]);
    exec.begin_run();
    assert!(!exec.should_stop());
    let first = exec.start_next().unwrap();
    assert_eq!(first, ids[0]);
    assert_eq!(exec.running(), 1);
    assert!(exec.start_next().is_none());
    exec.build_finished(BuildNodeResult { id: first, result: Ok(BuildStatusKind::Succeeded) }).unwrap();
    let second = exec.start_next().unwrap();
    assert_eq!(second, ids[1]);
    exec.build_finished(BuildNodeResult { id: second, result: Ok(BuildStatusKind::UpToDate) }).unwrap();
    assert!(exec.should_stop());
    assert_eq!(exec.running(), 0);
}

#[test]
fn a_failed_build_skips_what_depends_on_it() {
    let (graph, ids) = mock_graph(&[
        mock_build(&[], &["a.out"], "A", &["a.in"]),
        mock_build(&[0], &["b.out"], "B", &["a.out"]),
        mock_build(&[1], &["c.out"], "C", &["b.out"]),
    ]);
    let cfg = ExecConfig::default();
    let world = MockWorld::new();
    let mut exec = Executor::with_world(&cfg, &graph, InMemoryDb::new(), &world);
    exec.want(vec![ids[2]]);
    exec.begin_run();
    let first = exec.start_next().unwrap();
    exec.build_finished(BuildNodeResult { id: first, result: Ok(BuildStatusKind::Failed) }).unwrap();
    assert!(exec.start_next().is_none());
    assert!(exec.should_stop());
}

/// A world whose files all exist but whose modification times cannot be
/// read.
struct UnreadableWorld;

impl World for UnreadableWorld {
    fn file_exists(&self, _path: &str) -> bool {
        true
    }

    fn mtime(&self, _path: &str) -> Result<Timestamp, WorldError> {
        Err(WorldError { message: "permission denied".to_string() })
    }

    fn now(&self) -> Timestamp {
        0
    }

    fn execute(&self, _cmd: &BuildMethod) -> Result<BuildStatusKind, WorldError> {
        Ok(BuildStatusKind::Succeeded)
    }
}

#[test]
fn an_unreadable_input_is_an_error_of_the_run() {
    let (graph, ids) = mock_graph(&[mock_build(&[], &["out.txt"], "A", &["in.txt"])]);
    let cfg = ExecConfig::default();
    let world = UnreadableWorld;
    // The first run finds no record, so it runs the build without reading
    // the input's metadata.
    let mut exec = Executor::with_world(&cfg, &graph, InMemoryDb::new(), &world);
    exec.want(vec![ids[0]]);
    exec.run().unwrap();
    let db = exec.into_db();
    // The second run finds a current record, and must read the input.
    let mut exec = Executor::with_world(&cfg, &graph, db, &world);
    exec.want(vec![ids[0]]);
    let err = exec.run().unwrap_err();
    assert_eq!(err.message, "Cannot read input file in.txt: permission denied");
}

/// A world whose commands end in a status no build can end in.
struct OddWorld;

impl World for OddWorld {
    fn file_exists(&self, _path: &str) -> bool {
        true
    }

    fn mtime(&self, _path: &str) -> Result<Timestamp, WorldError> {
        Ok(0)
    }

    fn now(&self) -> Timestamp {
        0
    }

    fn execute(&self, _cmd: &BuildMethod) -> Result<BuildStatusKind, WorldError> {
        Ok(BuildStatusKind::Started)
    }
}

#[test]
fn an_odd_status_from_the_world_is_an_error_of_the_run() {
    let (graph, ids) = mock_graph(&[mock_build(&[], &["out.txt"], "A", &["in.txt"])]);
    let cfg = ExecConfig::default();
    let world = OddWorld;
    let mut exec = Executor::with_world(&cfg, &graph, InMemoryDb::new(), &world);
    exec.want(vec![ids[0]]);
    let err = exec.run().unwrap_err();
    assert_eq!(err.message, "The world reported a status a build cannot end in");
}

#[test]
fn a_world_error_fails_the_run_and_forgets_the_build() {
    let (graph, ids) = mock_graph(&[mock_build(&[], &["out.txt"], "A", &["in.txt"])]);
    let world = MockWorld::new();
    touch_all(&world, &["in.txt"]);
    let (_, db) = run_graph(&world, &graph, ExecConfig::default(), InMemoryDb::new(), vec![ids[0]]);
    assert_db_has(&db, "out.txt");
    world.touch_file("in.txt");
    world.set_callback(Box::new(|_| Err(WorldError { message: "cannot spawn".to_string() })));
    let cfg = ExecConfig::default();
    let mut exec = Executor::with_world(&cfg, &graph, db, &world);
    exec.want(vec![ids[0]]);
    let err = exec.run().unwrap_err();
    assert_eq!(err.message, "cannot spawn");
    let db = exec.into_db();
    assert_db_missing(&db, "out.txt");
}

#[test]
fn driving_builds_by_hand_records_their_outcomes() {
    let (graph, ids) = mock_graph(&[
        mock_build(&[], &["a.out"], "A", &["a.in"]),
        mock_build(&[], &["b.out"], "B", &["b.in"]),
        mock_build(&[0, 1], &["c.out"], "C", &["a.out", "b.out"]),
    ]);
    let world = MockWorld::new();
    touch_all(&world, &["a.in", "b.in"]);
    let cfg = ExecConfig { parallelism: 2 };
    let mut exec = Executor::with_world(&cfg, &graph, InMemoryDb::new(), &world);
    exec.want(vec![ids[2]]);
    exec.begin_run();
    // Both leaves start before either finishes
    let first = exec.start_next().unwrap();
    let second = exec.start_next().unwrap();
    assert_eq!(exec.running(), 2);
    let (c1, h1, i1) = exec.check_started(first);
    let (c2, h2, i2) = exec.check_started(second);
    assert!(matches!(c1, BuildCheck::Execute));
    assert!(matches!(c2, BuildCheck::Execute));
    let r2 = exec.record_outcome(second, h2, i2, world.now(), Ok(BuildStatusKind::Succeeded));
    exec.build_finished(r2).unwrap();
    assert!(exec.start_next().is_none());
    let r1 = exec.record_outcome(first, h1, i1, world.now(), Ok(BuildStatusKind::Succeeded));
    exec.build_finished(r1).unwrap();
    let last = exec.start_next().unwrap();
    assert_eq!(last, ids[2]);
    let (c3, h3, i3) = exec.check_started(last);
    assert!(matches!(c3, BuildCheck::Execute));
    let r3 = exec.record_outcome(last, h3, i3, world.now(), Err(WorldError { message: "gone".to_string() }));
    assert_eq!(r3.result.unwrap_err().message, "gone");
    let db = exec.into_db();
    assert_db_has(&db, "a.out");
    assert_db_has(&db, "b.out");
    assert_db_missing(&db, "c.out");
}

#[test]
fn an_up_to_date_build_is_settled_without_executing() {
    let (graph, ids) = mock_graph(&[mock_build(&[], &["out.txt"], "A", &["in.txt"])]);
    let world = MockWorld::new();
    touch_all(&world, &["in.txt"]);
    let (_, db) = run_graph(&world, &graph, ExecConfig::default(), InMemoryDb::new(), vec![ids[0]]);
    let cfg = ExecConfig::default();
    let mut exec = Executor::with_world(&cfg, &graph, db, &world);
    exec.want(vec![ids[0]]);
    exec.begin_run();
    let id = exec.start_next().unwrap();
    let (check, _, _) = exec.check_started(id);
    assert!(matches!(check, BuildCheck::Done(Ok(BuildStatusKind::UpToDate))));
}

#[test]
fn a_failure_does_not_stop_independent_builds() {
    let (graph, ids) = mock_graph(&[
        mock_build(&[], &["a.out"], "A", &["a.in"]),
        mock_build(&[], &["b.out"], "B", &["b.in"]),
    ]);
    let world = MockWorld::new();
    touch_all(&world, &["a.in", "b.in"]);
    set_fail_on(&world, "A");
    let (log, db) = run_graph(&world, &graph, ExecConfig::default(), InMemoryDb::default(), vec![ids[0], ids[1]]);
    assert_eq!(log.len(), 2);
    assert!(log.contains(&"A".to_string()));
    assert!(log.contains(&"B".to_string()));
    assert_db_missing(&db, "a.out");
    assert_db_has(&db, "b.out");
}

#[test]
fn a_successful_build_records_when_it_started_and_ended() {
    let (graph, ids) = mock_graph(&[mock_build(&[], &["out.txt"], "A", &["in.txt"])]);
    let world = MockWorld::new();
    touch_all(&world, &["in.txt"]);
    let started = world.now();
    let (log, db) = run_graph(&world, &graph, ExecConfig::default(), InMemoryDb::default(), vec![ids[0]]);
    assert_eq!(log, vec!["A"]);
    let (h, _) = hash_node(&graph, ids[0]);
    let info = db.begin_read().get_build_info(h).unwrap();
    assert_eq!(info.last_start, started);
    assert_eq!(info.last_end, Some(world.now()));
    assert_eq!(db.begin_read().get_file_info("out.txt").unwrap().last_seen, world.now());
}

#[test]
fn an_empty_run_succeeds() {
    let (graph, _) = mock_graph(&[]);
    let world = MockWorld::new();
    let cfg = ExecConfig::default();
    let mut exec = Executor::with_world(&cfg, &graph, InMemoryDb::default(), &world);
    assert!(exec.run().is_ok());
    assert!(world.take_log().is_empty());
}

#[test]
fn the_check_asks_its_questions_in_order_and_decides_from_the_answers() {
    let (graph, ids) = mock_graph(&[mock_build(&[], &["out.txt"], "A", &["in.txt"])]);
    let world = MockWorld::new();
    touch_all(&world, &["in.txt"]);
    let (_, db) = run_graph(&world, &graph, ExecConfig::default(), InMemoryDb::default(), vec![ids[0]]);
    let node = graph.lookup_build(ids[0]).unwrap();
    let (h, ih) = hash_node(&graph, ids[0]);
    let start = db.begin_read().get_build_info(h).unwrap().last_start;
    let ask = |ex: Vec<bool>, mt: Vec<Result<Timestamp, WorldError>>| stat_decide(&db, &graph, node, h, ih, &ex, &mt);
    // The source input first, then the output, then the input and its time
    assert!(matches!(ask(vec![], vec![]), StatStep::Ask(Question::Exists(p)) if p == "in.txt"));
    assert!(matches!(ask(vec![false], vec![]), StatStep::Done(NodeInputKind::Missing(_))));
    assert!(matches!(ask(vec![true], vec![]), StatStep::Ask(Question::Exists(p)) if p == "out.txt"));
    assert!(matches!(ask(vec![true, false], vec![]), StatStep::Done(NodeInputKind::Outdated)));
    assert!(matches!(ask(vec![true, true], vec![]), StatStep::Ask(Question::Exists(p)) if p == "in.txt"));
    assert!(matches!(ask(vec![true, true, true], vec![]), StatStep::Ask(Question::Mtime(p)) if p == "in.txt"));
    assert!(matches!(ask(vec![true, true, true], vec![Ok(start)]), StatStep::Done(NodeInputKind::UpToDate)));
    assert!(matches!(ask(vec![true, true, true], vec![Ok(start + 1)]), StatStep::Done(NodeInputKind::Outdated)));
    let unreadable = vec![Err(WorldError { message: "denied".to_string() })];
    assert!(matches!(ask(vec![true, true, true], unreadable), StatStep::Done(NodeInputKind::CannotRead(p, _)) if p == "in.txt"));
    // Without a record, a build with its source inputs present is outdated
    let empty = InMemoryDb::default();
    let r = stat_decide(&empty, &graph, node, h, ih, &vec![true], &vec![]);
    assert!(matches!(r, StatStep::Done(NodeInputKind::Outdated)));
}

#[test]
fn what_a_check_finds_decides_what_becomes_of_the_build() {
    assert!(matches!(check_of_stat(NodeInputKind::UpToDate), BuildCheck::Done(Ok(BuildStatusKind::UpToDate))));
    assert!(matches!(check_of_stat(NodeInputKind::Outdated), BuildCheck::Execute));
    let e = WorldError { message: "denied".to_string() };
    match check_of_stat(NodeInputKind::CannotRead("x".to_string(), e)) {
        BuildCheck::Done(Err(err)) => assert_eq!(err.message, "Cannot read input file x: denied"),
        _ => panic!("expected an error"),
    }
}
