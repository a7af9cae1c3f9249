//! Prover/solver backend abstraction: the common verdict vocabulary and the
//! per-backend seams (module naming, import parsing, lint packs, and the
//! interpretation of a tool run).

use vstd::prelude::*;
use crate::graph::{join, join_chars, SourceFile, SourceTree};
use crate::text::{chars_of, lines, slice_vec, split_lines, string_of, views};

pub mod agda;
pub mod smt;
pub mod lean;
pub mod rocq;
pub mod isabelle;
pub mod mizar;
pub mod idris2;

pub use agda::Agda;
pub use smt::Smt;
pub use lean::Lean;
pub use rocq::Coq;
pub use isabelle::Isabelle;
pub use mizar::Mizar;
pub use idris2::Idris2;

verus! {

/// The two backend interaction models.
#[derive(Clone, Copy, Debug, PartialEq, Eq, Structural)]
pub enum BackendKind {
    /// A proof assistant: typecheck a source file; the exit code is the verdict.
    Assistant,
    /// A solver: feed a query and parse `sat`/`unsat`/`unknown`.
    Solver,
}

/// The common verdict both interaction models map into. Only `Proven` is
/// green; `Admitted`/`Postulated` are amber.
#[derive(Clone, Copy, Debug, PartialEq, Eq, Structural)]
pub enum Verdict {
    /// Assistant exited 0, or solver returned `unsat`.
    Proven,
    /// Solver returned `sat`.
    Refuted,
    /// Solver returned `unknown`, or the run could not be audited.
    Unknown,
    /// The tool ran, but the artefact contains an admitted goal.
    Admitted,
    /// The tool ran, but the artefact contains a postulate/axiom.
    Postulated,
    /// The tool ran and errored.
    Error,
    /// The tool was not found / could not be executed.
    Unavailable,
}

/// The result of checking one file with a backend.
#[derive(Clone, Debug)]
pub struct Outcome {
    /// Whether the tool binary was found and executed.
    pub available: bool,
    /// Process exit code, if the process ran.
    pub exit_code: Option<i32>,
    /// `true` iff the verdict is `Proven`.
    pub ok: bool,
    /// Last few lines of combined stdout+stderr.
    pub output_tail: String,
    /// Which interaction model produced this outcome.
    pub kind: BackendKind,
    /// The verdict derived only from the tool's actual output.
    pub verdict: Verdict,
}

impl Outcome {
    /// The graceful-degradation form: the tool was not found.
    pub fn unavailable(kind: BackendKind) -> (o: Outcome)
        ensures
            !o.available,
            o.exit_code is None,
            !o.ok,
            o.output_tail@ == Seq::<char>::empty(),
            o.kind == kind,
            o.verdict == Verdict::Unavailable,
    {
        Outcome {
            available: false,
            exit_code: None,
            ok: false,
            output_tail: String::new(),
            kind,
            verdict: Verdict::Unavailable,
        }
    }
}

/// How many trailing lines of a tool's output an outcome keeps.
pub const TAIL_LINES: usize = 40;

/// The last `n` lines of `s`, as `str::lines` splits it, joined with `\n`.
pub open spec fn tail_spec(s: Seq<char>, n: nat) -> Seq<char> {
    let ls = lines(s);
    let start: int = if ls.len() > n { ls.len() - n } else { 0 };
    join(ls.skip(start), seq!['\n'])
}

/// The last `n` lines of `s`, joined with `\n`.
pub fn tail(s: &str, n: usize) -> (r: String)
    ensures
        r@ == tail_spec(s@, n as nat),
{
    let cs = chars_of(s);
    let ls = split_lines(&cs);
    let start: usize = if ls.len() > n { ls.len() - n } else { 0 };
    let ghost all = views(ls@);
    let mut kept: Vec<Vec<char>> = Vec::new();
    let mut i: usize = start;
    while i < ls.len()
        invariant
            start <= i <= ls@.len(),
            all == views(ls@),
            views(kept@) == all.subrange(start as int, i as int),
        decreases ls.len() - i,
    {
        let line = slice_vec(&ls[i], 0, ls[i].len());
        let ghost before = views(kept@);
        kept.push(line);
        proof {
            assert(ls@[i as int]@.subrange(0, ls@[i as int]@.len() as int) =~= ls@[i as int]@);
            assert(views(kept@) =~= before.push(all[i as int]));
            assert(all.subrange(start as int, i + 1) =~= all.subrange(start as int, i as int).push(all[i as int]));
        }
        i = i + 1;
    }
    proof {
        assert(all.subrange(start as int, all.len() as int) =~= all.skip(start as int));
    }
    let nl = vec!['\n'];
    assert(nl@ =~= seq!['\n']);
    let joined = join_chars(&kept, &nl);
    string_of(&joined)
}

/// The verdict of a tool whose exit code is the whole answer: success is
/// `Proven`, anything else `Error`.
pub fn exit_verdict(success: bool) -> (v: Verdict)
    ensures
        v == (if success { Verdict::Proven } else { Verdict::Error }),
{
    if success {
        Verdict::Proven
    } else {
        Verdict::Error
    }
}

impl Outcome {
    /// The outcome of a tool that ran: it exited with `exit_code`, printed
    /// `output` (stdout then stderr), and `verdict` is what that run means.
    /// `ok` holds exactly for `Proven`; the last [`TAIL_LINES`] lines are kept.
    pub fn ran(kind: BackendKind, exit_code: Option<i32>, verdict: Verdict, output: &str) -> (o: Outcome)
        ensures
            o.available,
            o.exit_code == exit_code,
            o.ok == (verdict == Verdict::Proven),
            o.output_tail@ == tail_spec(output@, TAIL_LINES as nat),
            o.kind == kind,
            o.verdict == verdict,
    {
        Outcome {
            available: true,
            exit_code,
            ok: verdict == Verdict::Proven,
            output_tail: tail(output, TAIL_LINES),
            kind,
            verdict,
        }
    }
}

/// The views of a list of static strings.
pub open spec fn str_views(v: Seq<&'static str>) -> Seq<Seq<char>> {
    v.map_values(|e: &'static str| e@)
}

/// An adapter over one external prover or solver: its identity, how its
/// module names map to files, how its sources name their imports, which
/// files are its entry modules, and its lint pack. Running the tool itself
/// happens outside the library; the verdict functions of each backend
/// interpret what the run printed.
pub trait Backend {
    /// The file extensions the backend claims, without the dot.
    spec fn exts_spec(&self) -> Seq<Seq<char>>;

    /// The dotted module name of `file` below `root`.
    spec fn module_id_spec(&self, file: Seq<char>, root: Seq<char>) -> Option<Seq<char>>;

    /// The file that holds `module` below `root`.
    spec fn module_path_spec(&self, module: Seq<char>, root: Seq<char>) -> Seq<char>;

    /// The modules a source text imports, in order of appearance.
    spec fn imports_spec(&self, text: Seq<char>) -> Seq<Seq<char>>;

    /// Stable identifier (`"agda"`, `"idris2"`, `"z3"`, ...).
    fn name(&self) -> (r: &'static str);

    /// Assistant or solver.
    fn kind(&self) -> (r: BackendKind);

    /// Source-file extensions this backend claims, without the dot.
    fn extensions(&self) -> (r: Vec<&'static str>)
        ensures
            str_views(r@) == self.exts_spec();

    /// The tool's safe/total mode flag, if any.
    fn safe_mode(&self) -> (r: Option<&'static str>);

    /// The executable the backend runs.
    fn command(&self) -> (r: &'static str);

    /// Dotted module name for `file` under `include_root`; `None` if
    /// unresolvable.
    fn module_name_of(&self, file: &str, include_root: &str) -> (r: Option<String>)
        ensures
            r matches Some(m) ==> self.module_id_spec(file@, include_root@) == Some(m@),
            r is None ==> self.module_id_spec(file@, include_root@) is None;

    /// Inverse of [`Backend::module_name_of`].
    fn module_to_path(&self, module: &str, include_root: &str) -> (r: String)
        ensures
            r@ == self.module_path_spec(module@, include_root@);

    /// The modules the source `text` imports. In-tree resolution is the
    /// caller's job; a solver with no import notion returns nothing.
    fn direct_imports(&self, text: &str) -> (r: Vec<String>)
        ensures
            crate::order::strs(r@) == self.imports_spec(text@);

    /// Conventional entry modules among the files of `tree`, found below
    /// `include_root`, ordered by path.
    fn discover_roots(&self, include_root: &str, tree: &SourceTree) -> (r: Vec<String>)
        ensures
            crate::order::path_sorted(crate::order::strs(r@));

    /// The per-language lint pack, parameterised by operator config.
    fn lint_rules(&self, cfg: &crate::lint::RuleConfig) -> (r: Result<Vec<crate::lint::Rule>, String>);
}

/// The paths of `files` whose file name is one of `names`, in order.
pub open spec fn named_paths(files: Seq<SourceFile>, names: Seq<Seq<char>>) -> Seq<Seq<char>>
    decreases files.len(),
{
    if files.len() == 0 {
        Seq::empty()
    } else {
        let rest = named_paths(files.drop_last(), names);
        let p = files.last().path@;
        match crate::path::file_name_of(p) {
            Some(n) => if names.contains(n) { rest.push(p) } else { rest },
            None => rest,
        }
    }
}

/// The files of `tree` whose file name is one of `names`, ordered by path.
pub fn files_named(tree: &SourceTree, names: &Vec<&'static str>) -> (r: Vec<String>)
    ensures
        crate::order::path_sorted(crate::order::strs(r@)),
        crate::order::strs(r@).to_multiset() == named_paths(tree.files@, str_views(names@)).to_multiset(),
{
    broadcast use vstd::seq_lib::group_to_multiset_ensures;
    let mut out: Vec<String> = Vec::new();
    let ghost ns = str_views(names@);
    assert(crate::order::strs(out@) =~= named_paths(tree.files@.take(0), ns));
    let mut i: usize = 0;
    while i < tree.files.len()
        invariant
            i <= tree.files@.len(),
            ns == str_views(names@),
            crate::order::path_sorted(crate::order::strs(out@)),
            crate::order::strs(out@).to_multiset() == named_paths(tree.files@.take(i as int), ns).to_multiset(),
        decreases tree.files.len() - i,
    {
        let p = &tree.files[i].path;
        let ghost prev = named_paths(tree.files@.take(i as int), ns);
        proof {
            assert(tree.files@.take(i + 1).drop_last() =~= tree.files@.take(i as int));
            assert(tree.files@.take(i + 1).last() == tree.files@[i as int]);
        }
        match crate::path::file_name(p.as_str()) {
            Some(n) => {
                let mut hit = false;
                let mut k: usize = 0;
                while k < names.len()
                    invariant
                        k <= names@.len(),
                        ns == str_views(names@),
                        hit <==> exists|j: int| 0 <= j < k && ns[j] == n@,
                    decreases names.len() - k,
                {
                    assert(ns[k as int] == names@[k as int]@);
                    if crate::text::str_eq(names[k], n.as_str()) {
                        hit = true;
                    }
                    k = k + 1;
                }
                proof {
                    if ns.contains(n@) {
                        let j = choose|j: int| 0 <= j < ns.len() && ns[j] == n@;
                        assert(hit);
                    }
                }
                if hit {
                    let ghost before_ms = crate::order::strs(out@).to_multiset();
                    let q = p.clone();
                    crate::order::path_insert(&mut out, q);
                    assert(crate::order::strs(out@).to_multiset() == before_ms.insert(p@));
                    assert(named_paths(tree.files@.take(i + 1), ns) == prev.push(p@));
                    proof { vstd::seq_lib::to_multiset_build(prev, p@); }
                } else {
                    assert(named_paths(tree.files@.take(i + 1), ns) == prev);
                }
            },
            None => {
                assert(named_paths(tree.files@.take(i + 1), ns) == prev);
            },
        }
        i = i + 1;
    }
    assert(tree.files@.take(tree.files@.len() as int) =~= tree.files@);
    out
}

/// A live probe of one backend's tool: whether it runs here, and what it
/// said.
#[derive(Clone, Debug)]
pub struct Probe {
    pub backend: String,
    pub kind: BackendKind,
    pub runnable: bool,
    pub detail: String,
}

/// One of the known backends.
#[derive(Clone, Copy, Debug)]
pub enum AnyBackend {
    Agda(Agda),
    Idris2(Idris2),
    Lean(Lean),
    Coq(Coq),
    Isabelle(Isabelle),
    Mizar(Mizar),
    Smt(Smt),
}

impl Backend for AnyBackend {
    open spec fn exts_spec(&self) -> Seq<Seq<char>> {
        match self {
            AnyBackend::Agda(b) => b.exts_spec(),
            AnyBackend::Idris2(b) => b.exts_spec(),
            AnyBackend::Lean(b) => b.exts_spec(),
            AnyBackend::Coq(b) => b.exts_spec(),
            AnyBackend::Isabelle(b) => b.exts_spec(),
            AnyBackend::Mizar(b) => b.exts_spec(),
            AnyBackend::Smt(b) => b.exts_spec(),
        }
    }

    open spec fn module_id_spec(&self, file: Seq<char>, root: Seq<char>) -> Option<Seq<char>> {
        match self {
            AnyBackend::Agda(b) => b.module_id_spec(file, root),
            AnyBackend::Idris2(b) => b.module_id_spec(file, root),
            AnyBackend::Lean(b) => b.module_id_spec(file, root),
            AnyBackend::Coq(b) => b.module_id_spec(file, root),
            AnyBackend::Isabelle(b) => b.module_id_spec(file, root),
            AnyBackend::Mizar(b) => b.module_id_spec(file, root),
            AnyBackend::Smt(b) => b.module_id_spec(file, root),
        }
    }

    open spec fn module_path_spec(&self, module: Seq<char>, root: Seq<char>) -> Seq<char> {
        match self {
            AnyBackend::Agda(b) => b.module_path_spec(module, root),
            AnyBackend::Idris2(b) => b.module_path_spec(module, root),
            AnyBackend::Lean(b) => b.module_path_spec(module, root),
            AnyBackend::Coq(b) => b.module_path_spec(module, root),
            AnyBackend::Isabelle(b) => b.module_path_spec(module, root),
            AnyBackend::Mizar(b) => b.module_path_spec(module, root),
            AnyBackend::Smt(b) => b.module_path_spec(module, root),
        }
    }

    open spec fn imports_spec(&self, text: Seq<char>) -> Seq<Seq<char>> {
        match self {
            AnyBackend::Agda(b) => b.imports_spec(text),
            AnyBackend::Idris2(b) => b.imports_spec(text),
            AnyBackend::Lean(b) => b.imports_spec(text),
            AnyBackend::Coq(b) => b.imports_spec(text),
            AnyBackend::Isabelle(b) => b.imports_spec(text),
            AnyBackend::Mizar(b) => b.imports_spec(text),
            AnyBackend::Smt(b) => b.imports_spec(text),
        }
    }

    fn name(&self) -> (r: &'static str)
        ensures
            r@ == match *self {
                AnyBackend::Agda(_) => "agda"@,
                AnyBackend::Idris2(_) => "idris2"@,
                AnyBackend::Lean(_) => "lean4"@,
                AnyBackend::Coq(_) => "coq"@,
                AnyBackend::Isabelle(_) => "isabelle"@,
                AnyBackend::Mizar(_) => "mizar"@,
                AnyBackend::Smt(b) => b.id(),
            },
    {
        match self {
            AnyBackend::Agda(b) => b.name(),
            AnyBackend::Idris2(b) => b.name(),
            AnyBackend::Lean(b) => b.name(),
            AnyBackend::Coq(b) => b.name(),
            AnyBackend::Isabelle(b) => b.name(),
            AnyBackend::Mizar(b) => b.name(),
            AnyBackend::Smt(b) => b.name(),
        }
    }

    fn kind(&self) -> (r: BackendKind)
        ensures
            (*self is Smt) <==> r == BackendKind::Solver,
    {
        match self {
            AnyBackend::Agda(b) => b.kind(),
            AnyBackend::Idris2(b) => b.kind(),
            AnyBackend::Lean(b) => b.kind(),
            AnyBackend::Coq(b) => b.kind(),
            AnyBackend::Isabelle(b) => b.kind(),
            AnyBackend::Mizar(b) => b.kind(),
            AnyBackend::Smt(b) => b.kind(),
        }
    }

    fn extensions(&self) -> (r: Vec<&'static str>) {
        match self {
            AnyBackend::Agda(b) => b.extensions(),
            AnyBackend::Idris2(b) => b.extensions(),
            AnyBackend::Lean(b) => b.extensions(),
            AnyBackend::Coq(b) => b.extensions(),
            AnyBackend::Isabelle(b) => b.extensions(),
            AnyBackend::Mizar(b) => b.extensions(),
            AnyBackend::Smt(b) => b.extensions(),
        }
    }

    fn safe_mode(&self) -> (r: Option<&'static str>)
        ensures
            match *self {
                AnyBackend::Agda(_) => r matches Some(m) && m@ == "--safe --without-K"@,
                AnyBackend::Idris2(_) => r matches Some(m) && m@ == "%default total"@,
                AnyBackend::Lean(_) => r matches Some(m) && m@ == "#print axioms"@,
                AnyBackend::Coq(_) => r matches Some(m) && m@ == "Print Assumptions"@,
                AnyBackend::Isabelle(_) => r is None,
                AnyBackend::Mizar(_) => r is None,
                AnyBackend::Smt(_) => r is None,
            },
    {
        match self {
            AnyBackend::Agda(b) => b.safe_mode(),
            AnyBackend::Idris2(b) => b.safe_mode(),
            AnyBackend::Lean(b) => b.safe_mode(),
            AnyBackend::Coq(b) => b.safe_mode(),
            AnyBackend::Isabelle(b) => b.safe_mode(),
            AnyBackend::Mizar(b) => b.safe_mode(),
            AnyBackend::Smt(b) => b.safe_mode(),
        }
    }

    fn command(&self) -> (r: &'static str)
        ensures
            r@ == match *self {
                AnyBackend::Agda(_) => "agda"@,
                AnyBackend::Idris2(_) => "idris2"@,
                AnyBackend::Lean(_) => "lean"@,
                AnyBackend::Coq(_) => "coqc"@,
                AnyBackend::Isabelle(_) => "isabelle"@,
                AnyBackend::Mizar(_) => "verifier"@,
                AnyBackend::Smt(b) => b.cmd(),
            },
    {
        match self {
            AnyBackend::Agda(b) => b.command(),
            AnyBackend::Idris2(b) => b.command(),
            AnyBackend::Lean(b) => b.command(),
            AnyBackend::Coq(b) => b.command(),
            AnyBackend::Isabelle(b) => b.command(),
            AnyBackend::Mizar(b) => b.command(),
            AnyBackend::Smt(b) => b.command(),
        }
    }

    fn module_name_of(&self, file: &str, include_root: &str) -> (r: Option<String>) {
        match self {
            AnyBackend::Agda(b) => b.module_name_of(file, include_root),
            AnyBackend::Idris2(b) => b.module_name_of(file, include_root),
            AnyBackend::Lean(b) => b.module_name_of(file, include_root),
            AnyBackend::Coq(b) => b.module_name_of(file, include_root),
            AnyBackend::Isabelle(b) => b.module_name_of(file, include_root),
            AnyBackend::Mizar(b) => b.module_name_of(file, include_root),
            AnyBackend::Smt(b) => b.module_name_of(file, include_root),
        }
    }

    fn module_to_path(&self, module: &str, include_root: &str) -> (r: String) {
        match self {
            AnyBackend::Agda(b) => b.module_to_path(module, include_root),
            AnyBackend::Idris2(b) => b.module_to_path(module, include_root),
            AnyBackend::Lean(b) => b.module_to_path(module, include_root),
            AnyBackend::Coq(b) => b.module_to_path(module, include_root),
            AnyBackend::Isabelle(b) => b.module_to_path(module, include_root),
            AnyBackend::Mizar(b) => b.module_to_path(module, include_root),
            AnyBackend::Smt(b) => b.module_to_path(module, include_root),
        }
    }

    fn direct_imports(&self, text: &str) -> (r: Vec<String>) {
        match self {
            AnyBackend::Agda(b) => b.direct_imports(text),
            AnyBackend::Idris2(b) => b.direct_imports(text),
            AnyBackend::Lean(b) => b.direct_imports(text),
            AnyBackend::Coq(b) => b.direct_imports(text),
            AnyBackend::Isabelle(b) => b.direct_imports(text),
            AnyBackend::Mizar(b) => b.direct_imports(text),
            AnyBackend::Smt(b) => b.direct_imports(text),
        }
    }

    fn discover_roots(&self, include_root: &str, tree: &SourceTree) -> (r: Vec<String>)
        ensures
            match *self {
                AnyBackend::Agda(_) => crate::order::strs(r@).to_multiset()
                    == named_paths(tree.files@, seq!["All.agda"@, "Smoke.agda"@]).to_multiset(),
                AnyBackend::Idris2(_) => crate::order::distinct(crate::order::strs(r@))
                    && crate::order::strs(r@).to_set() == idris2::idris_roots(tree.files@, tree.files@, include_root@).to_set(),
                AnyBackend::Lean(_) => crate::order::strs(r@).to_multiset() == named_paths(tree.files@, seq!["Main.lean"@]).to_multiset(),
                AnyBackend::Coq(_) => crate::order::strs(r@).to_multiset() == named_paths(tree.files@, seq!["All.v"@]).to_multiset(),
                AnyBackend::Isabelle(_) => crate::order::distinct(crate::order::strs(r@))
                    && crate::order::strs(r@).to_set() == isabelle::isa_roots(tree.files@, tree.files@).to_set(),
                AnyBackend::Mizar(_) => r@.len() == 0,
                AnyBackend::Smt(_) => r@.len() == 0,
            },
    {
        match self {
            AnyBackend::Agda(b) => b.discover_roots(include_root, tree),
            AnyBackend::Idris2(b) => b.discover_roots(include_root, tree),
            AnyBackend::Lean(b) => b.discover_roots(include_root, tree),
            AnyBackend::Coq(b) => b.discover_roots(include_root, tree),
            AnyBackend::Isabelle(b) => b.discover_roots(include_root, tree),
            AnyBackend::Mizar(b) => b.discover_roots(include_root, tree),
            AnyBackend::Smt(b) => b.discover_roots(include_root, tree),
        }
    }

    fn lint_rules(&self, cfg: &crate::lint::RuleConfig) -> (r: Result<Vec<crate::lint::Rule>, String>)
        ensures
            match *self {
                AnyBackend::Agda(_) => (r is Ok <==> crate::lint::unpinned_headline::regex_compiles(cfg.headline_pattern@))
                    && (r matches Ok(rs) ==> (rs@.len() == 6
                        && rs@[0] == crate::lint::Rule::SafePragma(crate::lint::safe_pragma::SafePragma::standard_spec())
                        && rs@[1] == crate::lint::Rule::OrphanModule(crate::lint::orphan_module::OrphanModule)
                        && rs@[2] == crate::lint::Rule::UnjustifiedPostulate(crate::lint::postulate::UnjustifiedPostulate)
                        && rs@[3] == crate::lint::Rule::EscapeHatch(crate::lint::escape_hatch::EscapeHatch)
                        && rs@[4] == crate::lint::Rule::TabMix(crate::lint::tab_mix::TabMix)
                        && (rs@[5] matches crate::lint::Rule::UnpinnedHeadline(u) && u.pattern() == cfg.headline_pattern@))),
                AnyBackend::Idris2(_) => r matches Ok(v) && v@ == seq![crate::lint::Rule::Idris2EscapeHatch(crate::lint::idris2::Idris2EscapeHatch)],
                AnyBackend::Lean(_) => r matches Ok(v) && v@ == seq![crate::lint::Rule::LeanEscapeHatch(crate::lint::lean::LeanEscapeHatch)],
                AnyBackend::Coq(_) => r matches Ok(v) && v@ == seq![crate::lint::Rule::CoqEscapeHatch(crate::lint::coq::CoqEscapeHatch)],
                AnyBackend::Isabelle(_) => r matches Ok(v) && v@ == seq![crate::lint::Rule::IsabelleEscapeHatch(crate::lint::isabelle::IsabelleEscapeHatch)],
                AnyBackend::Mizar(_) => r matches Ok(v) && v@.len() == 0,
                AnyBackend::Smt(_) => r matches Ok(v) && v@.len() == 0,
            },
    {
        match self {
            AnyBackend::Agda(b) => b.lint_rules(cfg),
            AnyBackend::Idris2(b) => b.lint_rules(cfg),
            AnyBackend::Lean(b) => b.lint_rules(cfg),
            AnyBackend::Coq(b) => b.lint_rules(cfg),
            AnyBackend::Isabelle(b) => b.lint_rules(cfg),
            AnyBackend::Mizar(b) => b.lint_rules(cfg),
            AnyBackend::Smt(b) => b.lint_rules(cfg),
        }
    }
}

/// The default backend when none is selected: Agda.
pub fn default_backend() -> (b: AnyBackend)
    ensures
        b == AnyBackend::Agda(Agda),
{
    AnyBackend::Agda(Agda)
}

/// The backend a `--backend` name selects.
pub open spec fn named_backend(name: Seq<char>) -> Option<AnyBackend> {
    if name == "agda"@ {
        Some(AnyBackend::Agda(Agda))
    } else if name == "idris2"@ {
        Some(AnyBackend::Idris2(Idris2))
    } else if name == "lean4"@ {
        Some(AnyBackend::Lean(Lean))
    } else if name == "coq"@ {
        Some(AnyBackend::Coq(Coq))
    } else if name == "isabelle"@ {
        Some(AnyBackend::Isabelle(Isabelle))
    } else if name == "mizar"@ {
        Some(AnyBackend::Mizar(Mizar))
    } else if name == "z3"@ {
        Some(AnyBackend::Smt(Smt::z3_spec()))
    } else if name == "cvc5"@ {
        Some(AnyBackend::Smt(Smt::cvc5_spec()))
    } else {
        None
    }
}

/// The backend a `--backend` name selects: `agda`, `idris2`, `lean4`,
/// `coq`, `isabelle`, `mizar`, `z3` or `cvc5`; `None` for any other name.
pub fn backend_named(name: &str) -> (r: Option<AnyBackend>)
    ensures
        r == named_backend(name@),
{
    if crate::text::str_eq(name, "agda") {
        Some(AnyBackend::Agda(Agda))
    } else if crate::text::str_eq(name, "idris2") {
        Some(AnyBackend::Idris2(Idris2))
    } else if crate::text::str_eq(name, "lean4") {
        Some(AnyBackend::Lean(Lean))
    } else if crate::text::str_eq(name, "coq") {
        Some(AnyBackend::Coq(Coq))
    } else if crate::text::str_eq(name, "isabelle") {
        Some(AnyBackend::Isabelle(Isabelle))
    } else if crate::text::str_eq(name, "mizar") {
        Some(AnyBackend::Mizar(Mizar))
    } else if crate::text::str_eq(name, "z3") {
        Some(AnyBackend::Smt(Smt::z3()))
    } else if crate::text::str_eq(name, "cvc5") {
        Some(AnyBackend::Smt(Smt::cvc5()))
    } else {
        None
    }
}

/// The word a `check` reports: `backend-unavailable` when the tool did not
/// run, `rejected` on a lint hard block, else the verdict's own word
/// (`proven-eligible` for a proof, `rejected` for an error).
pub fn check_word(available: bool, hard_block: bool, verdict: Verdict) -> (w: &'static str)
    ensures
        w@ == (if !available {
            "backend-unavailable"@
        } else if hard_block {
            "rejected"@
        } else {
            match verdict {
                Verdict::Proven => "proven-eligible"@,
                Verdict::Refuted => "refuted"@,
                Verdict::Unknown => "unknown"@,
                Verdict::Admitted => "admitted"@,
                Verdict::Postulated => "postulated"@,
                Verdict::Error => "rejected"@,
                Verdict::Unavailable => "backend-unavailable"@,
            }
        }),
{
    if !available {
        "backend-unavailable"
    } else if hard_block {
        "rejected"
    } else {
        match verdict {
            Verdict::Proven => "proven-eligible",
            Verdict::Refuted => "refuted",
            Verdict::Unknown => "unknown",
            Verdict::Admitted => "admitted",
            Verdict::Postulated => "postulated",
            Verdict::Error => "rejected",
            Verdict::Unavailable => "backend-unavailable",
        }
    }
}

/// Whether a run needs the `#print axioms` audit before its outcome is known (a
/// Lean file that elaborated cleanly without `sorry` is only `Unknown` on
/// its own).
pub fn needs_audit(b: &AnyBackend, exit_ok: bool, output: &str) -> (r: bool)
    ensures
        r == (*b is Lean && lean::lean_verdict_spec(output@, exit_ok) == Verdict::Unknown),
{
    match b {
        AnyBackend::Lean(_) => lean::lean_verdict(output, exit_ok) == Verdict::Unknown,
        _ => false,
    }
}

/// The verdict of a finished run of a backend's tool on a file with source
/// `src`: the tool exited cleanly (`exit_ok`) and printed `output`; `audit`
/// is what the axioms audit concluded, when it ran; `err_len` is the size
/// of the `.err` file a Mizar run leaves, when there is one.
pub open spec fn run_verdict_spec(
    b: AnyBackend,
    src: Seq<char>,
    exit_ok: bool,
    output: Seq<char>,
    audit: Option<Verdict>,
    err_len: Option<u64>,
) -> Verdict {
    match b {
        AnyBackend::Agda(_) => if exit_ok { Verdict::Proven } else { Verdict::Error },
        AnyBackend::Idris2(_) => if exit_ok { Verdict::Proven } else { Verdict::Error },
        AnyBackend::Smt(_) => smt::smt_verdict(output, exit_ok),
        AnyBackend::Coq(_) => rocq::coq_verdict_spec(src, exit_ok),
        AnyBackend::Isabelle(_) => isabelle::isabelle_verdict_spec(src, exit_ok),
        AnyBackend::Lean(_) => match (lean::lean_verdict_spec(output, exit_ok), audit) {
            (Verdict::Unknown, Some(a)) => a,
            (e, _) => e,
        },
        AnyBackend::Mizar(_) => if exit_ok && err_len == Some(0u64) { Verdict::Proven } else { Verdict::Error },
    }
}

/// What a run of the backend's tool means (see [`run_verdict_spec`]):
/// only the tool's own output decides, and nothing is made up.
pub fn run_verdict(
    b: &AnyBackend,
    src: &str,
    exit_ok: bool,
    output: &str,
    audit: Option<Verdict>,
    err_len: Option<u64>,
) -> (v: Verdict)
    ensures
        v == run_verdict_spec(*b, src@, exit_ok, output@, audit, err_len),
{
    match b {
        AnyBackend::Agda(_) => exit_verdict(exit_ok),
        AnyBackend::Idris2(_) => exit_verdict(exit_ok),
        AnyBackend::Smt(_) => smt::parse_verdict(output, exit_ok),
        AnyBackend::Coq(_) => rocq::coq_verdict(src, exit_ok),
        AnyBackend::Isabelle(_) => isabelle::isabelle_verdict(src, exit_ok),
        AnyBackend::Lean(_) => lean::settle_verdict(lean::lean_verdict(output, exit_ok), audit),
        AnyBackend::Mizar(_) => mizar::mizar_verdict(exit_ok, err_len),
    }
}

/// The argument that asks the backend's tool for its version when probing
/// whether it runs: `version` for Isabelle, `-v` for Mizar's verifier, and
/// `--version` for the others.
pub fn probe_arg(b: &AnyBackend) -> (r: &'static str)
    ensures
        r@ == match *b {
            AnyBackend::Isabelle(_) => "version"@,
            AnyBackend::Mizar(_) => "-v"@,
            _ => "--version"@,
        },
{
    match b {
        AnyBackend::Isabelle(_) => "version",
        AnyBackend::Mizar(_) => "-v",
        _ => "--version",
    }
}

} // verus!
