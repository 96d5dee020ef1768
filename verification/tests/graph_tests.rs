//! Build graphs, hashing, readable commands and progress lines.

use n2o5::cli::NinjaSubcommand;
use n2o5::graph::{
    hash_build, hash_input_set, BuildCommand, BuildError, BuildGraph, BuildId, BuildMethod, BuildNode, FileId,
    GraphBuilder, QuoteError,
};
use n2o5::progress::{DumbConsoleProgress, NoopProgress, Progress, ProgressConfig, ProgressStatus};

fn command(exe: &str, args: &[&str]) -> BuildMethod {
    BuildMethod::SubCommand(BuildCommand {
        executable: exe.to_string(),
        args: args.iter().map(|a| a.to_string()).collect(),
    })
}

fn node(method: BuildMethod, ins: Vec<FileId>, outs: Vec<FileId>) -> BuildNode {
    BuildNode { command: method, ins, outs, description: None }
}

#[test]
fn add_file_keeps_the_id_of_a_known_path() {
    let mut gb = GraphBuilder::new();
    let a = gb.add_file("a");
    let b = gb.add_file("b");
    let a2 = gb.add_file("a");
    assert_eq!(a, a2);
    assert_ne!(a, b);
    assert_eq!(a, FileId(0));
    assert_eq!(b, FileId(1));
    assert_eq!(gb.lookup_fileid("b"), Some(b));
    assert_eq!(gb.lookup_fileid("c"), None);
    assert_eq!(gb.lookup_path(a).map(|s| s.as_str()), Some("a"));
    assert!(gb.lookup_path(FileId(7)).is_none());
}

#[test]
fn builder_adds_only_the_edges_asked_for() {
    let mut gb = GraphBuilder::new();
    let a = gb.add_file("a");
    let b = gb.add_file("b");
    let x = gb.add_build(node(command("x", &[]), vec![], vec![a]));
    let y = gb.add_build(node(command("y", &[]), vec![a], vec![b]));
    let g = gb.build().unwrap_or_else(|_| panic!("no cycle here"));
    assert!(g.build_dependencies(y).is_empty());
    assert!(g.build_dependents(x).is_empty());
    assert_eq!(g.node_count(), 2);
}

#[test]
fn builder_records_dependencies_both_ways() {
    let mut gb = GraphBuilder::new();
    let x = gb.add_build(node(command("x", &[]), vec![], vec![]));
    let y = gb.add_build(node(command("y", &[]), vec![], vec![]));
    let z = gb.add_build(node(command("z", &[]), vec![], vec![]));
    gb.add_build_dep(z, x);
    gb.add_build_dep(z, y);
    gb.add_build_dep(z, x);
    let g = gb.build().unwrap_or_else(|_| panic!("no cycle here"));
    assert_eq!(g.build_dependencies(z), vec![x, y]);
    assert_eq!(g.build_dependents(x), vec![z]);
    assert_eq!(g.build_dependents(y), vec![z]);
    assert_eq!(g.nodes().len(), 3);
    assert_eq!(g.nodes()[1].0, y);
}

#[test]
fn builder_refuses_a_cycle() {
    let mut gb = GraphBuilder::new();
    let x = gb.add_build(node(command("x", &[]), vec![], vec![]));
    let y = gb.add_build(node(command("y", &[]), vec![], vec![]));
    gb.add_build_dep(x, y);
    gb.add_build_dep(y, x);
    assert!(matches!(gb.build(), Err(BuildError::ContainsCycle)));
    assert_eq!(BuildError::ContainsCycle.message(), "The build graph contains a cycle");
}

#[test]
fn builder_refuses_a_self_edge() {
    let mut gb = GraphBuilder::new();
    let x = gb.add_build(node(command("x", &[]), vec![], vec![]));
    gb.add_build_dep(x, x);
    assert!(gb.build().is_err());
}

/// A graph with one build of the method, reading `ins` and writing `outs`,
/// with the files added in the order given by `files`.
fn one_build(files: &[&str], method: BuildMethod, ins: &[&str], outs: &[&str]) -> (BuildGraph, BuildId) {
    let mut gb = GraphBuilder::new();
    for f in files {
        gb.add_file(f);
    }
    let ins = ins.iter().map(|p| gb.add_file(p)).collect();
    let outs = outs.iter().map(|p| gb.add_file(p)).collect();
    let id = gb.add_build(node(method, ins, outs));
    (gb.build().unwrap_or_else(|_| panic!("no cycle here")), id)
}

#[test]
fn build_hash_ignores_file_ids() {
    let (g1, b1) = one_build(&[], command("cc", &["-c"]), &["a.c"], &["a.o"]);
    let (g2, b2) = one_build(&["z", "y", "x"], command("cc", &["-c"]), &["a.c"], &["a.o"]);
    let h1 = hash_build(g1.lookup_build(b1).unwrap(), &g1);
    let h2 = hash_build(g2.lookup_build(b2).unwrap(), &g2);
    assert_eq!(h1, h2);
}

#[test]
fn build_hash_follows_command_and_outputs() {
    let (g1, b1) = one_build(&[], command("cc", &["-c"]), &[], &["a.o"]);
    let (g2, b2) = one_build(&[], command("cc", &["-O2"]), &[], &["a.o"]);
    let (g3, b3) = one_build(&[], command("cc", &["-c"]), &[], &["b.o"]);
    let (g4, b4) = one_build(&[], BuildMethod::Phony, &[], &["a.o"]);
    let (g5, b5) = one_build(&[], BuildMethod::Callback("gen".to_string()), &[], &["a.o"]);
    let hashes = [
        hash_build(g1.lookup_build(b1).unwrap(), &g1),
        hash_build(g2.lookup_build(b2).unwrap(), &g2),
        hash_build(g3.lookup_build(b3).unwrap(), &g3),
        hash_build(g4.lookup_build(b4).unwrap(), &g4),
        hash_build(g5.lookup_build(b5).unwrap(), &g5),
    ];
    for i in 0..hashes.len() {
        for j in 0..i {
            assert_ne!(hashes[i], hashes[j]);
        }
    }
}

#[test]
fn build_hash_tells_an_argument_from_an_output() {
    let (g1, b1) = one_build(&[], command("x", &["out"]), &[], &[]);
    let (g2, b2) = one_build(&[], command("x", &[]), &[], &["out"]);
    let h1 = hash_build(g1.lookup_build(b1).unwrap(), &g1);
    let h2 = hash_build(g2.lookup_build(b2).unwrap(), &g2);
    assert_ne!(h1, h2);
}

#[test]
fn build_hash_follows_output_order() {
    let (g1, b1) = one_build(&[], command("cc", &[]), &[], &["a", "b"]);
    let (g2, b2) = one_build(&[], command("cc", &[]), &[], &["b", "a"]);
    assert_ne!(hash_build(g1.lookup_build(b1).unwrap(), &g1), hash_build(g2.lookup_build(b2).unwrap(), &g2));
}

#[test]
fn input_set_hash_ignores_input_order() {
    let (g1, b1) = one_build(&[], command("cc", &[]), &["a", "b", "c"], &["o"]);
    let (g2, b2) = one_build(&[], command("cc", &[]), &["c", "a", "b"], &["o"]);
    let (g3, b3) = one_build(&[], command("cc", &[]), &["a", "b"], &["o"]);
    let h1 = hash_input_set(b1, &g1);
    let h2 = hash_input_set(b2, &g2);
    let h3 = hash_input_set(b3, &g3);
    assert_eq!(h1, h2);
    assert_ne!(h1, h3);
}

#[test]
fn input_set_hash_counts_dependency_outputs() {
    let mut gb = GraphBuilder::new();
    let a = gb.add_file("a");
    let b = gb.add_file("b");
    let x = gb.add_build(node(command("x", &[]), vec![], vec![a]));
    let y = gb.add_build(node(command("y", &[]), vec![], vec![b]));
    gb.add_build_dep(y, x);
    let g = gb.build().unwrap_or_else(|_| panic!("no cycle here"));
    let (g2, b2) = one_build(&[], command("y", &[]), &["a"], &["b"]);
    assert_eq!(hash_input_set(y, &g), hash_input_set(b2, &g2));
}

fn readable(m: &BuildMethod) -> (Vec<u8>, Result<(), QuoteError>) {
    let mut w = Vec::new();
    let r = m.write_human_readable(&mut w);
    (w, r)
}

#[test]
fn human_readable_quotes_words() {
    let (w, r) = readable(&command("sh", &["-c", "echo hi"]));
    assert!(r.is_ok());
    assert_eq!(String::from_utf8(w).unwrap(), "sh -c 'echo hi'");
    let (w, r) = readable(&command("cc", &[""]));
    assert!(r.is_ok());
    assert_eq!(String::from_utf8(w).unwrap(), "cc ''");
}

#[test]
fn human_readable_callback_and_phony() {
    let (w, r) = readable(&BuildMethod::Callback("gen".to_string()));
    assert!(r.is_ok());
    assert_eq!(String::from_utf8(w).unwrap(), "<callback: gen>");
    let (w, r) = readable(&BuildMethod::Phony);
    assert!(r.is_ok());
    assert_eq!(String::from_utf8(w).unwrap(), "<phony>");
}

#[test]
fn human_readable_refuses_a_nul() {
    let (w, r) = readable(&command("cc", &["a", "b\0c", "d"]));
    assert_eq!(r, Err(QuoteError::Nul));
    assert_eq!(String::from_utf8(w).unwrap(), "cc a ");
    let (w, r) = readable(&command("c\0c", &["a"]));
    assert_eq!(r, Err(QuoteError::Nul));
    assert!(w.is_empty());
}

#[test]
fn dumb_progress_line_numbers_the_build() {
    let (g, b) = one_build(&[], command("sh", &["-c", "cc a.c"]), &[], &["a.o"]);
    let status = ProgressStatus { total: 12, started: 9, done: 9, failed: 0 };
    let line = DumbConsoleProgress.started_line(&g, b, &status);
    assert_eq!(String::from_utf8(line).unwrap(), "[10/12] sh -c 'cc a.c'\n");
}

#[test]
fn noop_progress_does_nothing() {
    let (g, b) = one_build(&[], BuildMethod::Phony, &[], &[]);
    let p = NoopProgress;
    let status = ProgressStatus { total: 1, started: 0, done: 0, failed: 0 };
    p.prepare(&ProgressConfig { max_threads: Some(2) });
    p.build_started(&g, b, &status);
    p.stdout_line(&g, b, b"out");
    p.build_finished(&g, b, true, &status);
    p.finish();
}

#[test]
fn parallelism_takes_jobs_above_zero() {
    let mut cmd = NinjaSubcommand {
        targets: vec![],
        chdir: None,
        verbose: false,
        quiet: false,
        jobs: Some(3),
        dry_run: false,
    };
    assert_eq!(cmd.parallelism(8), 3);
    cmd.jobs = Some(0);
    assert_eq!(cmd.parallelism(8), 8);
    cmd.jobs = None;
    assert_eq!(cmd.parallelism(8), 8);
}
