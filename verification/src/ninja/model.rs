//! The data model of parsed Ninja files.

use crate::collections::{index_map_contents, index_map_get, text_map_contents, text_map_get};
use crate::text::string_push_str;
use indexmap::IndexMap;
use vstd::prelude::*;

verus! {

/// A position in a Ninja file: a line and a column, both counted from zero.
#[derive(Debug, Clone, Copy, PartialEq, Eq, Structural)]
pub struct Pos {
    pub line: usize,
    pub column: usize,
}

impl Pos {
    /// The position at the given line and column.
    pub fn new(line: usize, column: usize) -> (p: Pos)
        ensures
            p.line == line,
            p.column == column,
    {
        Pos { line, column }
    }
}

/// Errors during parsing of Ninja files.
#[derive(Debug, Clone)]
pub enum Error {
    /// No token can start at this line and column.
    UnrecognizedToken(usize, usize),
    /// A variable or rule that is not defined.
    UnknownVariable(String),
    /// A rule variable that a build needs is not defined.
    MissingRuleVariable(String),
    /// The value of `deps` is neither `gcc` nor `msvc`.
    InvalidDepsType(String),
    /// A token that does not fit, described, at this line and column.
    UnexpectedToken(String, usize, usize),
    /// The file ended while the described part was being parsed.
    UnexpectedEof(String),
    /// An unknown error occurred during lexing.
    UnknownLexing,
    /// A top-level line is indented.
    UnexpectedIndentation,
}

/// Dependency processing type for the `deps` rule variable
#[derive(Debug, Clone, Copy, PartialEq, Eq, Structural)]
pub enum DepsType {
    Gcc,
    Msvc,
}

/// The views of a list of strings.
pub open spec fn strs(v: Seq<String>) -> Seq<Seq<char>> {
    v.map_values(|s: String| s@)
}

/// The words contain a nul character.
pub open spec fn has_nul(words: Seq<Seq<char>>) -> bool {
    exists|i: int, j: int| 0 <= i < words.len() && 0 <= j < words[i].len() && words[i][j] == '\0'
}

/// The words, each quoted for a POSIX shell where needed, joined by single
/// spaces, as `shlex::try_join` gives them.
pub uninterp spec fn shlex_join(words: Seq<Seq<char>>) -> Seq<char>;

/// `shlex::try_join`: quotes each word for a shell where needed and joins
/// them with single spaces. It fails exactly when a word holds a nul
/// character.
#[verifier::external_body]
fn shlex_try_join(words: &Vec<String>) -> (r: Option<String>)
    ensures
        r is None <==> has_nul(strs(words@)),
        r matches Some(s) ==> s@ == shlex_join(strs(words@)),
{
    shlex::try_join(words.iter().map(|w| w.as_str())).ok()
}

/// A segment of an [`Expandable`].
#[derive(Debug)]
pub enum Segment {
    /// Text taken as it is.
    Regular(String),
    /// The value of a variable.
    Var(String),
}

/// The mathematical value of a [`Segment`].
pub enum SegmentView {
    Regular(Seq<char>),
    Var(Seq<char>),
}

impl View for Segment {
    type V = SegmentView;

    open spec fn view(&self) -> SegmentView {
        match self {
            Segment::Regular(s) => SegmentView::Regular(s@),
            Segment::Var(s) => SegmentView::Var(s@),
        }
    }
}

/// A string that may contain `$`-replacements, which are expanded lazily.
#[derive(Debug)]
pub struct Expandable(pub Vec<Segment>);

impl View for Expandable {
    type V = Seq<SegmentView>;

    open spec fn view(&self) -> Seq<SegmentView> {
        self.0@.map_values(|s: Segment| s@)
    }
}

/// A ninja `rule` block: its variables, each kept unexpanded. `vars` gives
/// the index in `values` of the value of each variable.
#[derive(Debug)]
pub struct Rule {
    pub vars: IndexMap<String, usize>,
    pub values: Vec<Expandable>,
}

impl Rule {
    /// Each variable's index names a value of its own.
    pub open spec fn wf(&self) -> bool {
        &&& forall|k: Seq<char>| #[trigger] index_map_contents(self.vars).contains_key(k) ==> index_map_contents(
            self.vars,
        )[k] < self.values@.len()
        &&& forall|k1: Seq<char>, k2: Seq<char>|
            #[trigger] index_map_contents(self.vars).contains_key(k1) && #[trigger] index_map_contents(
                self.vars,
            ).contains_key(k2) && k1 != k2 ==> index_map_contents(self.vars)[k1] != index_map_contents(self.vars)[k2]
    }

    /// The value of each variable.
    pub open spec fn spec_vars(&self) -> Map<Seq<char>, Seq<SegmentView>> {
        Map::new(
            |k: Seq<char>| index_map_contents(self.vars).contains_key(k),
            |k: Seq<char>| self.values@[index_map_contents(self.vars)[k] as int]@,
        )
    }
}

/// A `build` statement, expanded.
#[derive(Debug)]
pub struct Build {
    pub inputs: Vec<String>,
    pub implicit_inputs: Vec<String>,
    pub order_only_inputs: Vec<String>,
    pub outputs: Vec<String>,
    /// The command line to run (required)
    pub command: String,
    /// Path to an optional Makefile that contains extra implicit dependencies
    pub depfile: Option<String>,
    /// Special dependency processing type
    pub deps: Option<DepsType>,
    /// String which should be stripped from msvc's /showIncludes output
    pub msvc_deps_prefix: Option<String>,
    /// A short description of the command
    pub description: Option<String>,
    /// Dynamically discovered dependency information file
    pub dyndep: Option<String>,
    /// Specifies that this rule is used to re-invoke the generator program
    pub generator: bool,
    /// Causes Ninja to re-stat the command's outputs after execution
    pub restat: bool,
    /// Response file path
    pub rspfile: Option<String>,
    /// Response file content
    pub rspfile_content: Option<String>,
}

/// A `build` statement with the `phony` rule: its targets stand for its
/// inputs.
#[derive(Debug)]
pub struct PhonyBuild {
    pub targets: Vec<String>,
    pub inputs: Vec<String>,
    pub implicit_inputs: Vec<String>,
    pub order_only_inputs: Vec<String>,
    pub description: Option<String>,
}

/// A complete parsed Ninja file. The rules and the phony builds are kept in
/// lists, and found by name through the maps of indices.
#[derive(Debug)]
pub struct NinjaFile {
    pub global_scope: IndexMap<String, String>,
    pub rules: IndexMap<String, usize>,
    pub rule_list: Vec<Rule>,
    pub builds: Vec<Build>,
    pub phony: IndexMap<String, usize>,
    pub phony_list: Vec<PhonyBuild>,
}

impl NinjaFile {
    /// Each index names an entry of its list, and each rule is well formed.
    pub open spec fn wf(&self) -> bool {
        &&& forall|k: Seq<char>| #[trigger] index_map_contents(self.rules).contains_key(k) ==> index_map_contents(
            self.rules,
        )[k] < self.rule_list@.len()
        &&& forall|i: int| 0 <= i < self.rule_list@.len() ==> (#[trigger] self.rule_list@[i]).wf()
        &&& forall|k: Seq<char>| #[trigger] index_map_contents(self.phony).contains_key(k) ==> index_map_contents(
            self.phony,
        )[k] < self.phony_list@.len()
    }

    /// The targets of the phony build that each phony name stands in.
    pub open spec fn phony_targets(&self) -> Map<Seq<char>, Seq<Seq<char>>> {
        self@.phony_targets()
    }
}

/// How deep the variables of a rule expand: one level more than it has
/// values.
pub open spec fn rule_fuel_of(r: Rule) -> nat {
    if r.values@.len() < usize::MAX {
        r.values@.len() + 1
    } else {
        r.values@.len()
    }
}

/// The mathematical value of a [`Rule`]: its variables, and how deep they
/// expand.
pub struct RuleView {
    pub vars: Map<Seq<char>, Seq<SegmentView>>,
    pub fuel: nat,
}

/// The mathematical value of a [`NinjaFile`].
pub struct FileView {
    /// The file-level variables
    pub global: Map<Seq<char>, Seq<char>>,
    /// The rules, by name
    pub rules: Map<Seq<char>, RuleView>,
    /// The build statements with a real rule, in order
    pub builds: Seq<BuildView>,
    /// The phony build statements, by target
    pub phony: Map<Seq<char>, PhonyView>,
}

impl FileView {
    /// The targets of the phony build that each phony name stands in.
    pub open spec fn phony_targets(self) -> Map<Seq<char>, Seq<Seq<char>>> {
        Map::new(|k: Seq<char>| self.phony.contains_key(k), |k: Seq<char>| self.phony[k].targets)
    }
}

impl View for NinjaFile {
    type V = FileView;

    open spec fn view(&self) -> FileView {
        FileView {
            global: text_map_contents(self.global_scope),
            rules: Map::new(
                |k: Seq<char>| index_map_contents(self.rules).contains_key(k),
                |k: Seq<char>|
                    RuleView {
                        vars: self.rule_list@[index_map_contents(self.rules)[k] as int].spec_vars(),
                        fuel: rule_fuel_of(self.rule_list@[index_map_contents(self.rules)[k] as int]),
                    },
            ),
            builds: self.builds@.map_values(|b: Build| b@),
            phony: Map::new(
                |k: Seq<char>| index_map_contents(self.phony).contains_key(k),
                |k: Seq<char>| self.phony_list@[index_map_contents(self.phony)[k] as int]@,
            ),
        }
    }
}

/// What a variable can be looked up in while a build statement is
/// expanded, by order of precedence: the built-in `$in` and `$out`, the
/// build's own variables, the rule's variables, and the file's variables.
pub struct ScopeView {
    pub in_files: Seq<Seq<char>>,
    pub out_files: Seq<Seq<char>>,
    pub phony_targets: Map<Seq<char>, Seq<Seq<char>>>,
    pub build: Map<Seq<char>, Seq<char>>,
    pub rule: Option<Map<Seq<char>, Seq<SegmentView>>>,
    pub global: Map<Seq<char>, Seq<char>>,
}

/// The words of `$in`: each input, or, for a phony name, the targets of
/// its phony build.
pub open spec fn in_words(in_files: Seq<Seq<char>>, phony: Map<Seq<char>, Seq<Seq<char>>>) -> Seq<Seq<char>>
    decreases in_files.len(),
{
    if in_files.len() == 0 {
        Seq::empty()
    } else {
        let last = in_files.last();
        in_words(in_files.drop_last(), phony) + if phony.contains_key(last) {
            phony[last]
        } else {
            seq![last]
        }
    }
}

/// The value of a variable in a scope. A rule variable is expanded in the
/// same scope, with one unit of `fuel` less; out of fuel, it has no value.
pub open spec fn scope_get(sc: ScopeView, var: Seq<char>, fuel: nat) -> Option<Seq<char>>
    decreases fuel, 0nat,
{
    if var == "in"@ {
        if has_nul(in_words(sc.in_files, sc.phony_targets)) {
            None
        } else {
            Some(shlex_join(in_words(sc.in_files, sc.phony_targets)))
        }
    } else if var == "out"@ {
        if has_nul(sc.out_files) {
            None
        } else {
            Some(shlex_join(sc.out_files))
        }
    } else if sc.build.contains_key(var) {
        Some(sc.build[var])
    } else if sc.rule is Some && sc.rule->0.contains_key(var) {
        if fuel == 0 {
            None
        } else {
            Some(expand_spec(sc.rule->0[var], sc, (fuel - 1) as nat))
        }
    } else if sc.global.contains_key(var) {
        Some(sc.global[var])
    } else {
        None
    }
}

/// The expansion of segments in a scope: regular text as it is, and each
/// variable by its value, or nothing if it has none.
pub open spec fn expand_spec(segs: Seq<SegmentView>, sc: ScopeView, fuel: nat) -> Seq<char>
    decreases fuel, segs.len() + 1,
{
    if segs.len() == 0 {
        Seq::empty()
    } else {
        expand_spec(segs.drop_last(), sc, fuel) + match segs.last() {
            SegmentView::Regular(s) => s,
            SegmentView::Var(n) => match scope_get(sc, n, fuel) {
                Some(v) => v,
                None => Seq::empty(),
            },
        }
    }
}

/// The scope required for expanding variables in a build statement.
pub struct ExpansionScope<'r> {
    pub in_files: &'r Vec<String>,
    pub out_files: &'r Vec<String>,
    pub file: &'r NinjaFile,
    pub build_scope: &'r IndexMap<String, String>,
    pub rule: Option<&'r Rule>,
}

impl<'r> ExpansionScope<'r> {
    /// The scope as a value.
    pub open spec fn spec_scope(&self) -> ScopeView {
        ScopeView {
            in_files: strs(self.in_files@),
            out_files: strs(self.out_files@),
            phony_targets: self.file.phony_targets(),
            build: text_map_contents(*self.build_scope),
            rule: match self.rule {
                Some(r) => Some(r.spec_vars()),
                None => None,
            },
            global: text_map_contents(self.file.global_scope),
        }
    }

    /// The scope is well formed.
    pub open spec fn wf(&self) -> bool {
        &&& self.file.wf()
        &&& match self.rule {
            Some(r) => r.wf(),
            None => true,
        }
    }

    /// How deep rule variables may refer to rule variables: as deep as the
    /// rule has variables, which is as deep as references without a cycle
    /// go.
    pub open spec fn spec_fuel(&self) -> nat {
        match self.rule {
            Some(r) => rule_fuel_of(*r),
            None => 1,
        }
    }

    /// The words of `$in`.
    fn in_list(&self) -> (r: Vec<String>)
        requires
            self.file.wf(),
        ensures
            strs(r@) == in_words(strs(self.in_files@), self.file.phony_targets()),
    {
        let mut r: Vec<String> = Vec::new();
        let mut i: usize = 0;
        while i < self.in_files.len()
            invariant
                self.file.wf(),
                i <= self.in_files@.len(),
                strs(r@) == in_words(strs(self.in_files@).subrange(0, i as int), self.file.phony_targets()),
            decreases self.in_files@.len() - i,
        {
            let name = &self.in_files[i];
            let ghost pre = strs(self.in_files@).subrange(0, i as int);
            let ghost post = strs(self.in_files@).subrange(0, i + 1);
            proof {
                assert(post.drop_last() =~= pre);
                assert(post.last() == name@);
            }
            let ghost r0 = strs(r@);
            match index_map_get(&self.file.phony, name.as_str()) {
                Some(idx) => {
                    let targets = &self.file.phony_list[idx].targets;
                    let mut j: usize = 0;
                    while j < targets.len()
                        invariant
                            j <= targets@.len(),
                            strs(r@) == r0 + strs(targets@).subrange(0, j as int),
                        decreases targets@.len() - j,
                    {
                        let ghost rb = r@;
                        r.push(targets[j].clone());
                        proof {
                            assert(strs(r@) =~= strs(rb).push(targets@[j as int]@));
                            assert(strs(targets@).subrange(0, j + 1) =~= strs(targets@).subrange(0, j as int).push(
                                targets@[j as int]@,
                            ));
                            assert(strs(r@) =~= r0 + strs(targets@).subrange(0, j + 1));
                        }
                        j = j + 1;
                    }
                    proof {
                        assert(strs(targets@).subrange(0, j as int) =~= strs(targets@));
                    }
                },
                None => {
                    r.push(name.clone());
                    proof {
                        assert(strs(r@) =~= r0 + seq![name@]);
                    }
                },
            }
            i = i + 1;
        }
        proof {
            assert(strs(self.in_files@).subrange(0, i as int) =~= strs(self.in_files@));
        }
        r
    }

    /// The value of a variable, with rule variables expanded to at most
    /// `fuel` levels.
    pub fn get_with_fuel(&self, variable: &str, fuel: usize) -> (r: Option<String>)
        requires
            self.wf(),
        ensures
            match r {
                Some(v) => scope_get(self.spec_scope(), variable@, fuel as nat) == Some(v@),
                None => scope_get(self.spec_scope(), variable@, fuel as nat) is None,
            },
        decreases fuel, 0nat,
    {
        proof {
            reveal_strlit("in");
            reveal_strlit("out");
        }
        // 1. special built-in variables
        if str_eq(variable, "in") {
            let words = self.in_list();
            let joined = shlex_try_join(&words);
            return joined;
        }
        if str_eq(variable, "out") {
            let joined = shlex_try_join(self.out_files);
            return joined;
        }
        // 2. Build-level variables
        match text_map_get(self.build_scope, variable) {
            Some(v) => {
                return Some(v.clone());
            },
            None => {},
        }
        // 3. Rule-level variables (may expand recursively)
        match self.rule {
            Some(rule) => {
                match index_map_get(&rule.vars, variable) {
                    Some(idx) => {
                        if fuel == 0 {
                            return None;
                        }
                        let v = rule.values[idx].expand_with_fuel(self, fuel - 1);
                        return Some(v);
                    },
                    None => {},
                }
            },
            None => {},
        }
        // 4. Global scope
        match text_map_get(&self.file.global_scope, variable) {
            Some(v) => Some(v.clone()),
            None => None,
        }
    }

    /// The value of a variable in the scope.
    pub fn get(&self, variable: &str) -> (r: Option<String>)
        requires
            self.wf(),
        ensures
            match r {
                Some(v) => scope_get(self.spec_scope(), variable@, self.spec_fuel()) == Some(v@),
                None => scope_get(self.spec_scope(), variable@, self.spec_fuel()) is None,
            },
    {
        let fuel = match self.rule {
            Some(r) => {
                if r.values.len() < usize::MAX {
                    r.values.len() + 1
                } else {
                    r.values.len()
                }
            },
            None => 1,
        };
        self.get_with_fuel(variable, fuel)
    }
}

/// Whether two string slices are equal.
pub fn str_eq(a: &str, b: &str) -> (r: bool)
    ensures
        r == (a@ == b@),
{
    let x = a.to_owned();
    let y = b.to_owned();
    x.eq(&y)
}

impl Expandable {
    /// Expand the segments in a scope, with rule variables expanded to at
    /// most `fuel` levels.
    pub fn expand_with_fuel(&self, scope: &ExpansionScope, fuel: usize) -> (r: String)
        requires
            scope.wf(),
        ensures
            r@ == expand_spec(self@, scope.spec_scope(), fuel as nat),
        decreases fuel, 1nat,
    {
        let mut res = String::new();
        let mut i: usize = 0;
        while i < self.0.len()
            invariant
                scope.wf(),
                i <= self@.len(),
                res@ == expand_spec(self@.subrange(0, i as int), scope.spec_scope(), fuel as nat),
            decreases self@.len() - i,
        {
            proof {
                assert(self@.subrange(0, i + 1).drop_last() =~= self@.subrange(0, i as int));
                assert(self@.subrange(0, i + 1).last() == self.0@[i as int]@);
            }
            match &self.0[i] {
                Segment::Regular(s) => {
                    string_push_str(&mut res, s.as_str());
                },
                Segment::Var(name) => {
                    match scope.get_with_fuel(name.as_str(), fuel) {
                        Some(v) => {
                            string_push_str(&mut res, v.as_str());
                        },
                        None => {
                            assert(res@ =~= res@ + Seq::<char>::empty());
                        },
                    }
                },
            }
            i = i + 1;
        }
        proof {
            assert(self@.subrange(0, i as int) =~= self@);
        }
        res
    }

    /// Expand the segments in a scope.
    pub fn expand(&self, scope: &ExpansionScope) -> (r: String)
        requires
            scope.wf(),
        ensures
            r@ == expand_spec(self@, scope.spec_scope(), scope.spec_fuel()),
    {
        let fuel = match scope.rule {
            Some(r) => {
                if r.values.len() < usize::MAX {
                    r.values.len() + 1
                } else {
                    r.values.len()
                }
            },
            None => 1,
        };
        self.expand_with_fuel(scope, fuel)
    }
}

/// The view of an optional string.
pub open spec fn opt_view(o: Option<String>) -> Option<Seq<char>> {
    match o {
        Some(s) => Some(s@),
        None => None,
    }
}

/// The mathematical value of a [`Build`].
pub struct BuildView {
    pub inputs: Seq<Seq<char>>,
    pub implicit_inputs: Seq<Seq<char>>,
    pub order_only_inputs: Seq<Seq<char>>,
    pub outputs: Seq<Seq<char>>,
    pub command: Seq<char>,
    pub depfile: Option<Seq<char>>,
    pub deps: Option<DepsType>,
    pub msvc_deps_prefix: Option<Seq<char>>,
    pub description: Option<Seq<char>>,
    pub dyndep: Option<Seq<char>>,
    pub generator: bool,
    pub restat: bool,
    pub rspfile: Option<Seq<char>>,
    pub rspfile_content: Option<Seq<char>>,
}

impl View for Build {
    type V = BuildView;

    open spec fn view(&self) -> BuildView {
        BuildView {
            inputs: strs(self.inputs@),
            implicit_inputs: strs(self.implicit_inputs@),
            order_only_inputs: strs(self.order_only_inputs@),
            outputs: strs(self.outputs@),
            command: self.command@,
            depfile: opt_view(self.depfile),
            deps: self.deps,
            msvc_deps_prefix: opt_view(self.msvc_deps_prefix),
            description: opt_view(self.description),
            dyndep: opt_view(self.dyndep),
            generator: self.generator,
            restat: self.restat,
            rspfile: opt_view(self.rspfile),
            rspfile_content: opt_view(self.rspfile_content),
        }
    }
}

/// The mathematical value of a [`PhonyBuild`].
pub struct PhonyView {
    pub targets: Seq<Seq<char>>,
    pub inputs: Seq<Seq<char>>,
    pub implicit_inputs: Seq<Seq<char>>,
    pub order_only_inputs: Seq<Seq<char>>,
    pub description: Option<Seq<char>>,
}

impl View for PhonyBuild {
    type V = PhonyView;

    open spec fn view(&self) -> PhonyView {
        PhonyView {
            targets: strs(self.targets@),
            inputs: strs(self.inputs@),
            implicit_inputs: strs(self.implicit_inputs@),
            order_only_inputs: strs(self.order_only_inputs@),
            description: opt_view(self.description),
        }
    }
}

/// A flag value is true unless it is empty or `0`.
pub open spec fn truthy(v: Seq<char>) -> bool {
    v.len() > 0 && v != seq!['0']
}

/// The value of a flag variable: false when not defined.
pub open spec fn flag_of(v: Option<Seq<char>>) -> bool {
    match v {
        Some(x) => truthy(x),
        None => false,
    }
}

/// The build a build statement expands to in a scope: its command is
/// required, `deps` must be `gcc` or `msvc` when defined; `None` otherwise.
pub open spec fn expand_build_spec(
    sc: ScopeView,
    fuel: nat,
    implicit: Seq<Seq<char>>,
    order_only: Seq<Seq<char>>,
) -> Option<BuildView> {
    let deps_ok = match scope_get(sc, "deps"@, fuel) {
        Some(v) => v == "gcc"@ || v == "msvc"@,
        None => true,
    };
    if scope_get(sc, "command"@, fuel) is None || !deps_ok {
        None
    } else {
        Some(
            BuildView {
                inputs: sc.in_files,
                implicit_inputs: implicit,
                order_only_inputs: order_only,
                outputs: sc.out_files,
                command: scope_get(sc, "command"@, fuel)->0,
                depfile: scope_get(sc, "depfile"@, fuel),
                deps: match scope_get(sc, "deps"@, fuel) {
                    Some(v) => if v == "gcc"@ {
                        Some(DepsType::Gcc)
                    } else {
                        Some(DepsType::Msvc)
                    },
                    None => None,
                },
                msvc_deps_prefix: scope_get(sc, "msvc_deps_prefix"@, fuel),
                description: scope_get(sc, "description"@, fuel),
                dyndep: scope_get(sc, "dyndep"@, fuel),
                generator: flag_of(scope_get(sc, "generator"@, fuel)),
                restat: flag_of(scope_get(sc, "restat"@, fuel)),
                rspfile: scope_get(sc, "rspfile"@, fuel),
                rspfile_content: scope_get(sc, "rspfile_content"@, fuel),
            },
        )
    }
}

/// A copy of a list of strings.
pub fn copy_strings(v: &Vec<String>) -> (r: Vec<String>)
    ensures
        strs(r@) == strs(v@),
{
    let mut r: Vec<String> = Vec::new();
    let mut i: usize = 0;
    while i < v.len()
        invariant
            i <= v@.len(),
            strs(r@) == strs(v@).subrange(0, i as int),
        decreases v@.len() - i,
    {
        let ghost rb = r@;
        r.push(v[i].clone());
        proof {
            assert(strs(r@) =~= strs(rb).push(v@[i as int]@));
            assert(strs(v@).subrange(0, i + 1) =~= strs(v@).subrange(0, i as int).push(v@[i as int]@));
        }
        i = i + 1;
    }
    proof {
        assert(strs(v@).subrange(0, i as int) =~= strs(v@));
    }
    r
}

/// Whether a flag value is true: not empty and not `0`.
fn is_truthy(v: &str) -> (r: bool)
    ensures
        r == truthy(v@),
{
    proof {
        reveal_strlit("0");
        reveal_strlit("");
        assert("0"@ =~= seq!['0']);
        assert(""@ =~= Seq::<char>::empty());
        if v@.len() == 0 {
            assert(v@ =~= Seq::<char>::empty());
        }
    }
    !str_eq(v, "") && !str_eq(v, "0")
}

/// The value of a flag variable.
fn flag(scope: &ExpansionScope, name: &str) -> (r: bool)
    requires
        scope.wf(),
    ensures
        r == flag_of(scope_get(scope.spec_scope(), name@, scope.spec_fuel())),
{
    match scope.get(name) {
        Some(v) => is_truthy(v.as_str()),
        None => false,
    }
}

/// Expand a build statement with a real rule.
pub fn expand_build(exp_scope: &ExpansionScope, implicit_input: &Vec<String>, order_only_input: &Vec<String>) -> (r: Result<
    Build,
    Error,
>)
    requires
        exp_scope.wf(),
    ensures
        match expand_build_spec(
            exp_scope.spec_scope(),
            exp_scope.spec_fuel(),
            strs(implicit_input@),
            strs(order_only_input@),
        ) {
            Some(b) => r matches Ok(x) && x@ == b,
            None => r is Err,
        },
        scope_get(exp_scope.spec_scope(), "command"@, exp_scope.spec_fuel()) is None ==> (r matches Err(
            Error::MissingRuleVariable(x),
        ) && x@ == "command"@),
        scope_get(exp_scope.spec_scope(), "command"@, exp_scope.spec_fuel()) is Some ==> match scope_get(
            exp_scope.spec_scope(),
            "deps"@,
            exp_scope.spec_fuel(),
        ) {
            Some(v) => v != "gcc"@ && v != "msvc"@ ==> (r matches Err(Error::InvalidDepsType(x)) && x@ == v),
            None => true,
        },
{
    proof {
        reveal_strlit("command");
        reveal_strlit("deps");
        reveal_strlit("gcc");
        reveal_strlit("msvc");
    }
    // Required: command
    let command = match exp_scope.get("command") {
        Some(c) => c,
        None => {
            return Err(Error::MissingRuleVariable("command".to_owned()));
        },
    };
    // Optional enum field: deps
    let deps = match exp_scope.get("deps") {
        Some(v) => {
            if str_eq(v.as_str(), "gcc") {
                Some(DepsType::Gcc)
            } else if str_eq(v.as_str(), "msvc") {
                Some(DepsType::Msvc)
            } else {
                return Err(Error::InvalidDepsType(v));
            }
        },
        None => None,
    };
    Ok(
        Build {
            inputs: copy_strings(exp_scope.in_files),
            implicit_inputs: copy_strings(implicit_input),
            order_only_inputs: copy_strings(order_only_input),
            outputs: copy_strings(exp_scope.out_files),
            command,
            depfile: exp_scope.get("depfile"),
            deps,
            msvc_deps_prefix: exp_scope.get("msvc_deps_prefix"),
            description: exp_scope.get("description"),
            dyndep: exp_scope.get("dyndep"),
            generator: flag(exp_scope, "generator"),
            restat: flag(exp_scope, "restat"),
            rspfile: exp_scope.get("rspfile"),
            rspfile_content: exp_scope.get("rspfile_content"),
        },
    )
}

/// Expand a build statement with the `phony` rule.
pub fn expand_phony(exp_scope: &ExpansionScope, implicit_input: &Vec<String>, order_only_input: &Vec<String>) -> (r:
    PhonyBuild)
    requires
        exp_scope.wf(),
    ensures
        r@ == (PhonyView {
            targets: exp_scope.spec_scope().out_files,
            inputs: exp_scope.spec_scope().in_files,
            implicit_inputs: strs(implicit_input@),
            order_only_inputs: strs(order_only_input@),
            description: scope_get(exp_scope.spec_scope(), "description"@, exp_scope.spec_fuel()),
        }),
{
    PhonyBuild {
        targets: copy_strings(exp_scope.out_files),
        inputs: copy_strings(exp_scope.in_files),
        implicit_inputs: copy_strings(implicit_input),
        order_only_inputs: copy_strings(order_only_input),
        description: exp_scope.get("description"),
    }
}

/// How deep a rule with these variables expands: one level more than it
/// has variables.
pub open spec fn fuel_for(vars: Map<Seq<char>, Seq<SegmentView>>) -> nat {
    if vars.dom().len() < usize::MAX {
        vars.dom().len() + 1
    } else {
        vars.dom().len()
    }
}

/// The phony statements by target, after one more, which its targets now
/// stand in.
pub open spec fn with_phony(m: Map<Seq<char>, PhonyView>, p: PhonyView, targets: Seq<Seq<char>>) -> Map<
    Seq<char>,
    PhonyView,
> {
    Map::new(|k: Seq<char>| m.contains_key(k) || targets.contains(k), |k: Seq<char>| if targets.contains(k) {
        p
    } else {
        m[k]
    })
}

impl NinjaFile {
    /// An empty file.
    pub fn new() -> (f: NinjaFile)
        ensures
            f.wf(),
            f@.global.dom() == Set::<Seq<char>>::empty(),
            f@.rules.dom() == Set::<Seq<char>>::empty(),
            f@.builds == Seq::<BuildView>::empty(),
            f@.phony.dom() == Set::<Seq<char>>::empty(),
    {
        let f = NinjaFile {
            global_scope: crate::collections::text_map_new(),
            rules: crate::collections::index_map_new(),
            rule_list: Vec::new(),
            builds: Vec::new(),
            phony: crate::collections::index_map_new(),
            phony_list: Vec::new(),
        };
        assert(f@.rules.dom() =~= Set::<Seq<char>>::empty());
        assert(f@.phony.dom() =~= Set::<Seq<char>>::empty());
        assert(f@.builds =~= Seq::<BuildView>::empty());
        f
    }

    /// Add a build statement with a real rule.
    pub fn add_build(&mut self, b: Build)
        requires
            old(self).wf(),
        ensures
            final(self).wf(),
            final(self)@ == (FileView { builds: old(self)@.builds.push(b@), ..old(self)@ }),
    {
        let ghost bv = b@;
        self.builds.push(b);
        assert(self@.builds =~= old(self)@.builds.push(bv));
        assert(self@.rules =~= old(self)@.rules);
        assert(self@.phony =~= old(self)@.phony);
    }

    /// Set a file-level variable.
    pub fn set_global(&mut self, k: String, v: String)
        requires
            old(self).wf(),
        ensures
            final(self).wf(),
            final(self)@ == (FileView { global: old(self)@.global.insert(k@, v@), ..old(self)@ }),
    {
        crate::collections::text_map_insert(&mut self.global_scope, k, v);
        assert(self@.rules =~= old(self)@.rules);
        assert(self@.phony =~= old(self)@.phony);
    }

    /// Add a rule of a name not yet taken.
    pub fn add_rule(&mut self, name: String, r: Rule)
        requires
            old(self).wf(),
            r.wf(),
            !old(self)@.rules.contains_key(name@),
        ensures
            final(self).wf(),
            final(self)@ == (FileView {
                rules: old(self)@.rules.insert(name@, RuleView { vars: r.spec_vars(), fuel: rule_fuel_of(r) }),
                ..old(self)@
            }),
    {
        let ghost rv = RuleView { vars: r.spec_vars(), fuel: rule_fuel_of(r) };
        let ghost nv = name@;
        let idx = self.rule_list.len();
        self.rule_list.push(r);
        crate::collections::index_map_insert(&mut self.rules, name, idx);
        proof {
            let om = index_map_contents(old(self).rules);
            assert forall|k: Seq<char>| #[trigger] om.contains_key(k) implies self.rule_list@[om[k] as int] == old(
                self,
            ).rule_list@[om[k] as int] by {
                assert(om[k] < old(self).rule_list@.len());
            }
            assert(self@.rules =~= old(self)@.rules.insert(nv, rv));
            assert(self@.phony =~= old(self)@.phony);
            assert(self@.builds =~= old(self)@.builds);
        }
    }

    /// Add a phony build statement: each of its targets now stands in it.
    pub fn add_phony(&mut self, p: PhonyBuild)
        requires
            old(self).wf(),
        ensures
            final(self).wf(),
            final(self)@ == (FileView { phony: with_phony(old(self)@.phony, p@, p@.targets), ..old(self)@ }),
    {
        let ghost pv = p@;
        let targets = copy_strings(&p.targets);
        let idx = self.phony_list.len();
        self.phony_list.push(p);
        let ghost tv = strs(targets@);
        proof {
            let om = index_map_contents(old(self).phony);
            assert forall|k: Seq<char>| #[trigger] om.contains_key(k) implies self.phony_list@[om[k] as int] == old(
                self,
            ).phony_list@[om[k] as int] by {
                assert(om[k] < old(self).phony_list@.len());
            }
            assert(self@.phony =~= with_phony(old(self)@.phony, pv, tv.subrange(0, 0)));
        }
        let mut i: usize = 0;
        while i < targets.len()
            invariant
                self.wf(),
                idx < self.phony_list@.len(),
                self.phony_list@[idx as int]@ == pv,
                tv == strs(targets@),
                i <= targets@.len(),
                self@.phony == with_phony(old(self)@.phony, pv, tv.subrange(0, i as int)),
                self@.global == old(self)@.global,
                self@.rules == old(self)@.rules,
                self@.builds == old(self)@.builds,
            decreases targets@.len() - i,
        {
            let ghost before = self@;
            crate::collections::index_map_insert(&mut self.phony, targets[i].clone(), idx);
            proof {
                let pre = tv.subrange(0, i as int);
                assert(tv.subrange(0, i + 1) =~= pre.push(tv[i as int]));
                crate::exec::lemma_push_contains(pre, tv[i as int]);
                let post = tv.subrange(0, i + 1);
                let target = with_phony(old(self)@.phony, pv, post);
                assert(targets@[i as int]@ == tv[i as int]);
                assert forall|k: Seq<char>| #[trigger] self@.phony.contains_key(k) == target.contains_key(k) by {
                    if k != tv[i as int] {
                        assert(before.phony.contains_key(k) == self@.phony.contains_key(k));
                    }
                }
                assert forall|k: Seq<char>| #[trigger] self@.phony.contains_key(k) implies self@.phony[k] == target[k] by {
                    if k != tv[i as int] {
                        assert(before.phony.contains_key(k));
                        assert(self@.phony[k] == before.phony[k]);
                    }
                }
                assert(self@.phony =~= target);
                assert(self@.rules =~= before.rules);
            }
            i = i + 1;
        }
        proof {
            assert(tv.subrange(0, i as int) =~= tv);
        }
    }
}

/// A variable bound in the build statement's own block, other than `$in`
/// and `$out`, has that binding as its value, whatever the rule or the
/// file bind for the same name: the build's scope comes first.
pub proof fn lemma_build_binding_comes_first(sc: ScopeView, var: Seq<char>, fuel: nat)
    requires
        var != "in"@,
        var != "out"@,
        sc.build.contains_key(var),
    ensures
        scope_get(sc, var, fuel) == Some(sc.build[var]),
{
}

/// A variable the build block does not bind, other than `$in` and `$out`,
/// takes the rule's binding, expanded in the same scope, where the rule
/// binds it; else the file's binding; else it has no value.
pub proof fn lemma_rule_then_file_binding(sc: ScopeView, var: Seq<char>, fuel: nat)
    requires
        var != "in"@,
        var != "out"@,
        !sc.build.contains_key(var),
    ensures
        sc.rule is Some && sc.rule->0.contains_key(var) && fuel > 0 ==> scope_get(sc, var, fuel) == Some(
            expand_spec(sc.rule->0[var], sc, (fuel - 1) as nat),
        ),
        !(sc.rule is Some && sc.rule->0.contains_key(var)) && sc.global.contains_key(var) ==> scope_get(
            sc,
            var,
            fuel,
        ) == Some(sc.global[var]),
        !(sc.rule is Some && sc.rule->0.contains_key(var)) && !sc.global.contains_key(var) ==> scope_get(
            sc,
            var,
            fuel,
        ) is None,
{
}

/// A build statement whose own block binds `description` or `command`
/// gets that binding as its description or command, whatever its rule
/// binds.
pub proof fn lemma_build_block_binding_used(
    sc: ScopeView,
    fuel: nat,
    implicit: Seq<Seq<char>>,
    order_only: Seq<Seq<char>>,
)
    requires
        expand_build_spec(sc, fuel, implicit, order_only) is Some,
    ensures
        sc.build.contains_key("description"@) ==> expand_build_spec(sc, fuel, implicit, order_only)->0.description
            == Some(sc.build["description"@]),
        sc.build.contains_key("command"@) ==> expand_build_spec(sc, fuel, implicit, order_only)->0.command
            == sc.build["command"@],
{
    reveal_strlit("in");
    reveal_strlit("out");
    reveal_strlit("description");
    reveal_strlit("command");
    assert("description"@ != "in"@ && "description"@ != "out"@) by {
        assert("description"@.len() != "in"@.len() && "description"@.len() != "out"@.len());
    }
    assert("command"@ != "in"@ && "command"@ != "out"@) by {
        assert("command"@.len() != "in"@.len() && "command"@.len() != "out"@.len());
    }
}

} // verus!
