//! Reading Ninja files, turning them into graphs and choosing targets.

use n2o5::graph::{BuildError, BuildId, BuildMethod};
use n2o5::ninja::convert::ninja_to_n2o4;
use n2o5::ninja::model::{DepsType, Error, NinjaFile};
use n2o5::ninja::parser::{parse, ParseSession, ParseStep};
use n2o5::ninja::run::resolve_targets_to_build_ids;
use n2o5::ninja::tokenizer::{line_col_offset, Lexer, Token};

const SIMPLE: &str = "rule cc\n  command = gcc -c $in -o $out\n  description = CC $out\nbuild foo.o: cc foo.c\n";

fn parse_ok(s: &str) -> NinjaFile {
    match parse(s) {
        Ok(f) => f,
        Err(e) => panic!("parse failed: {:?}", e),
    }
}

#[test]
fn parse_simple_build_expands_in_and_out() {
    let f = parse_ok(SIMPLE);
    assert_eq!(f.builds.len(), 1);
    let b = &f.builds[0];
    assert_eq!(b.command, "gcc -c foo.c -o foo.o");
    assert_eq!(b.description, Some("CC foo.o".to_string()));
    assert_eq!(b.inputs, vec!["foo.c".to_string()]);
    assert_eq!(b.outputs, vec!["foo.o".to_string()]);
    assert!(b.implicit_inputs.is_empty());
    assert!(b.order_only_inputs.is_empty());
    assert!(!b.generator);
    assert!(!b.restat);
}

#[test]
fn parse_build_scope_overrides_file_scope() {
    let s = "cflags = -O2\nrule cc\n  command = gcc $cflags $in\nbuild a.o: cc a.c\nbuild b.o: cc b.c\n  cflags = -O0\n";
    let f = parse_ok(s);
    assert_eq!(f.builds.len(), 2);
    assert_eq!(f.builds[0].command, "gcc -O2 a.c");
    assert_eq!(f.builds[1].command, "gcc -O0 b.c");
}

#[test]
fn parse_implicit_and_order_only_inputs() {
    let s = "rule r\n  command = x $in\nbuild o: r a | b || c\n";
    let f = parse_ok(s);
    let b = &f.builds[0];
    assert_eq!(b.inputs, vec!["a".to_string()]);
    assert_eq!(b.implicit_inputs, vec!["b".to_string()]);
    assert_eq!(b.order_only_inputs, vec!["c".to_string()]);
    assert_eq!(b.command, "x a");
}

#[test]
fn parse_phony_build() {
    let s = "rule cc\n  command = cc $in\nbuild a.o: cc a.c\nbuild all: phony a.o\n";
    let f = parse_ok(s);
    assert_eq!(f.builds.len(), 1);
    let idx = *f.phony.get("all").unwrap();
    assert_eq!(f.phony_list[idx].targets, vec!["all".to_string()]);
    assert_eq!(f.phony_list[idx].inputs, vec!["a.o".to_string()]);
}

#[test]
fn parse_deps_and_flags() {
    let s = "rule cc\n  command = cc\n  deps = gcc\n  generator = 1\n  restat = 0\nbuild a.o: cc a.c\n";
    let f = parse_ok(s);
    let b = &f.builds[0];
    assert_eq!(b.deps, Some(DepsType::Gcc));
    assert!(b.generator);
    assert!(!b.restat);
}

#[test]
fn parse_escapes_in_words() {
    let s = "rule r\n  command = echo $$HOME$ x\nbuild a$:b: r\n";
    let f = parse_ok(s);
    assert_eq!(f.builds[0].outputs, vec!["a:b".to_string()]);
    assert_eq!(f.builds[0].command, "echo $HOME x");
}

#[test]
fn parse_unknown_rule_is_an_error() {
    let r = parse("build a: nope b\n");
    assert!(matches!(r, Err(Error::UnknownVariable(ref n)) if n == "nope"));
}

#[test]
fn parse_missing_command_is_an_error() {
    let r = parse("rule r\n  description = d\nbuild a: r b\n");
    assert!(matches!(r, Err(Error::MissingRuleVariable(ref n)) if n == "command"));
}

#[test]
fn parse_invalid_deps_is_an_error() {
    let r = parse("rule r\n  command = c\n  deps = foo\nbuild a: r b\n");
    assert!(matches!(r, Err(Error::InvalidDepsType(ref n)) if n == "foo"));
}

#[test]
fn parse_indented_top_level_is_an_error() {
    let r = parse("  x = 1\n");
    assert!(matches!(r, Err(Error::UnexpectedIndentation)));
}

#[test]
fn parse_empty_file_is_empty() {
    let f = parse_ok("");
    assert!(f.builds.is_empty());
    assert!(f.phony_list.is_empty());
    let f = parse_ok("# only a comment\n\n");
    assert!(f.builds.is_empty());
}

#[test]
fn parse_session_asks_for_includes() {
    let mut session = ParseSession::new("x = 1\ninclude other.ninja\ny = $x\n");
    match session.resume() {
        Ok(ParseStep::Include(name)) => assert_eq!(name, "other.ninja"),
        other => panic!("expected an include, got {:?}", other.map(|_| ())),
    }
    session.push_source("x = 2\n");
    loop {
        match session.resume() {
            Ok(ParseStep::SourceEnded) => {
                if session.is_done() {
                    break;
                }
            },
            Ok(ParseStep::Include(_)) => panic!("unexpected include"),
            Err(e) => panic!("parse failed: {:?}", e),
        }
    }
    let f = session.into_file();
    assert_eq!(f.global_scope.get("y"), Some(&"2".to_string()));
}

#[test]
fn lexer_splits_a_build_line() {
    let mut lexer = Lexer::new("build foo: cc bar\n");
    let mut kinds = Vec::new();
    while let Some(t) = lexer.next() {
        kinds.push(t.unwrap());
    }
    assert!(matches!(&kinds[0], Token::Word(w) if w == "build"));
    assert!(matches!(&kinds[1], Token::Spaces(_)));
    assert!(matches!(&kinds[2], Token::Word(w) if w == "foo"));
    assert!(matches!(&kinds[3], Token::Colon));
    assert!(matches!(&kinds[5], Token::Word(w) if w == "cc"));
    assert!(matches!(&kinds[7], Token::Word(w) if w == "bar"));
    assert!(matches!(&kinds[8], Token::LineFeed));
    assert_eq!(kinds.len(), 9);
}

#[test]
fn lexer_reads_variables_and_pipes() {
    let mut lexer = Lexer::new("$x ${y} | ||");
    let mut kinds = Vec::new();
    while let Some(t) = lexer.next() {
        kinds.push(t.unwrap());
    }
    assert!(matches!(&kinds[0], Token::Variable(v) if v == "x"));
    assert!(matches!(&kinds[2], Token::BracedVariable(v) if v == "y"));
    assert!(matches!(&kinds[4], Token::Pipe));
    assert!(matches!(&kinds[6], Token::TwoPipe));
}

#[test]
fn line_col_offset_counts_lines() {
    let chars: Vec<char> = "ab\ncd".chars().collect();
    assert_eq!(line_col_offset(&chars, 0, 4), (1, 1));
    assert_eq!(line_col_offset(&chars, 0, 2), (0, 2));
}

const PROJECT: &str = "rule cc\n  command = cc $in -o $out\nbuild a.o: cc a.c\nbuild b.o: cc b.c\nbuild app: cc a.o b.o\nbuild all: phony app\n";

#[test]
fn convert_makes_nodes_and_edges() {
    let f = parse_ok(PROJECT);
    let out = match ninja_to_n2o4(&f) {
        Ok(o) => o,
        Err(e) => panic!("convert failed: {:?}", e),
    };
    assert_eq!(out.graph.node_count(), 3);
    let mut deps: Vec<usize> = out.graph.build_dependencies(BuildId(2)).into_iter().map(|b| b.0).collect();
    deps.sort();
    assert_eq!(deps, vec![0, 1]);
    assert!(out.graph.build_dependencies(BuildId(0)).is_empty());
    let node = out.graph.lookup_build(BuildId(2)).unwrap();
    match &node.command {
        BuildMethod::SubCommand(c) => {
            assert_eq!(c.executable, "sh");
            assert_eq!(c.args, vec!["-c".to_string(), "cc a.o b.o -o app".to_string()]);
        },
        _ => panic!("expected a command"),
    }
    let app = out.graph.lookup_fileid("app").unwrap();
    assert_eq!(out.file_to_build.get(&app.0), Some(&2usize));
}

#[test]
fn convert_follows_phony_inputs() {
    let s = "rule cc\n  command = cc $in\nbuild a.o: cc a.c\nbuild b.o: cc b.c\nbuild objs: phony a.o b.o\nbuild app: cc objs\n";
    let f = parse_ok(s);
    let out = ninja_to_n2o4(&f).unwrap_or_else(|_| panic!("convert failed"));
    let node = out.graph.lookup_build(BuildId(2)).unwrap();
    let ins: Vec<String> = node.ins.iter().map(|i| out.graph.lookup_path(*i).unwrap().clone()).collect();
    assert_eq!(ins, vec!["a.o".to_string(), "b.o".to_string()]);
    let mut deps: Vec<usize> = out.graph.build_dependencies(BuildId(2)).into_iter().map(|b| b.0).collect();
    deps.sort();
    assert_eq!(deps, vec![0, 1]);
}

#[test]
fn convert_refuses_a_cycle() {
    let s = "rule r\n  command = c\nbuild a: r b\nbuild b: r a\n";
    let f = parse_ok(s);
    assert!(matches!(ninja_to_n2o4(&f), Err(BuildError::ContainsCycle)));
}

#[test]
fn resolve_targets_through_phony() {
    let f = parse_ok(PROJECT);
    let out = ninja_to_n2o4(&f).unwrap_or_else(|_| panic!("convert failed"));
    let all = resolve_targets_to_build_ids(&vec!["all".to_string()], &f, &out);
    assert_eq!(all, vec![BuildId(2)]);
    let a = resolve_targets_to_build_ids(&vec!["a.o".to_string()], &f, &out);
    assert_eq!(a, vec![BuildId(0)]);
    let none = resolve_targets_to_build_ids(&vec!["nothing".to_string()], &f, &out);
    assert!(none.is_empty());
}

#[test]
fn resolve_no_target_gives_every_build() {
    let f = parse_ok(PROJECT);
    let out = ninja_to_n2o4(&f).unwrap_or_else(|_| panic!("convert failed"));
    let every = resolve_targets_to_build_ids(&vec![], &f, &out);
    assert_eq!(every, vec![BuildId(0), BuildId(1), BuildId(2)]);
}

#[test]
fn resolve_repeated_targets_once() {
    let f = parse_ok(PROJECT);
    let out = ninja_to_n2o4(&f).unwrap_or_else(|_| panic!("convert failed"));
    let r = resolve_targets_to_build_ids(&vec!["app".to_string(), "all".to_string(), "app".to_string()], &f, &out);
    assert_eq!(r, vec![BuildId(2)]);
}

#[test]
fn in_and_out_are_quoted_for_the_shell() {
    let s = "rule r\n  command = x $in > $out\nbuild o$ 1: r a$ b c\n";
    let f = parse_ok(s);
    assert_eq!(f.builds[0].inputs, vec!["a b".to_string(), "c".to_string()]);
    assert_eq!(f.builds[0].command, "x 'a b' c > 'o 1'");
}

#[test]
fn in_names_the_targets_of_a_phony_input() {
    let s = "rule r\n  command = x $in\nbuild t1 t2: phony src\nbuild o: r t1 d\n";
    let f = parse_ok(s);
    assert_eq!(f.builds[0].command, "x t1 t2 d");
}

#[test]
fn convert_waits_for_the_last_producer_before_or_the_first_after() {
    let s = "rule r\n  command = c\nbuild o: r a\nbuild x: r o\nbuild o: r b\nbuild y: r o\nbuild z: r w\nbuild w: r\n";
    let f = parse_ok(s);
    let out = ninja_to_n2o4(&f).unwrap_or_else(|_| panic!("convert failed"));
    assert_eq!(out.graph.build_dependencies(BuildId(1)), vec![BuildId(0)]);
    assert_eq!(out.graph.build_dependencies(BuildId(3)), vec![BuildId(2)]);
    assert_eq!(out.graph.build_dependencies(BuildId(4)), vec![BuildId(5)]);
    let o = out.graph.lookup_fileid("o").unwrap();
    assert_eq!(out.file_to_build.get(&o.0), Some(&2usize));
}

#[test]
fn a_rule_defined_twice_is_reported_as_a_redefinition() {
    let r = parse("rule a\n  command = x\nrule a\n  command = y\n");
    match r {
        Err(Error::UnexpectedToken(m, _, _)) => assert_eq!(m, "redefinition of rule a"),
        other => panic!("expected a redefinition, got {:?}", other.map(|_| ())),
    }
}

#[test]
fn an_unsupported_directive_is_reported_with_its_message() {
    match parse("pool link\n") {
        Err(Error::UnexpectedToken(m, 0, 0)) => assert_eq!(m, "pool directive not implemented"),
        other => panic!("expected an unsupported directive, got {:?}", other.map(|_| ())),
    }
}
