//! SMT solver backends (Z3, CVC5): a query file in SMT-LIB2 is answered
//! with `sat`/`unsat`/`unknown` on stdout. `unsat` discharges the goal,
//! `sat` refutes it, `unknown` leaves it open; an error, a failing exit or
//! no result token at all is an error, never a silent pass. Over several
//! `(check-sat)`s any `sat` refutes, else any `unknown` leaves it open,
//! else `unsat` proves. Queries are standalone: no imports, no roots.

use vstd::prelude::*;
use super::{str_views, Backend, BackendKind, Verdict};
use crate::graph::{module_name_spec, SourceTree};
use crate::path::module_file_spec;
use crate::lint::{Rule, RuleConfig};
use crate::text::{chars_of, contains, contains_seq, seq_eq, split_words, views, words};

verus! {

/// An SMT-LIB2 solver backend, parameterised by its binary.
#[derive(Clone, Copy, Debug)]
pub struct Smt {
    name: &'static str,
    cmd: &'static str,
}

impl Smt {
    /// The name the solver goes by.
    pub closed spec fn id(&self) -> Seq<char> {
        self.name@
    }

    /// The executable the solver runs as.
    pub closed spec fn cmd(&self) -> Seq<char> {
        self.cmd@
    }

    /// The Z3 solver, as a value.
    pub closed spec fn z3_spec() -> Smt {
        Smt { name: "z3", cmd: "z3" }
    }

    /// The CVC5 solver, as a value.
    pub closed spec fn cvc5_spec() -> Smt {
        Smt { name: "cvc5", cmd: "cvc5" }
    }

    /// The Z3 solver.
    pub fn z3() -> (s: Smt)
        ensures
            s == Smt::z3_spec(),
            s.id() == "z3"@,
            s.cmd() == "z3"@,
    {
        Smt { name: "z3", cmd: "z3" }
    }

    /// The CVC5 solver.
    pub fn cvc5() -> (s: Smt)
        ensures
            s == Smt::cvc5_spec(),
            s.id() == "cvc5"@,
            s.cmd() == "cvc5"@,
    {
        Smt { name: "cvc5", cmd: "cvc5" }
    }
}

/// The verdict a solver's output and exit status carry.
pub open spec fn smt_verdict(output: Seq<char>, exit_ok: bool) -> Verdict {
    let ws = words(output);
    if !exit_ok || contains(output, "(error"@) {
        Verdict::Error
    } else if ws.contains("sat"@) {
        Verdict::Refuted
    } else if ws.contains("unknown"@) {
        Verdict::Unknown
    } else if ws.contains("unsat"@) {
        Verdict::Proven
    } else {
        Verdict::Error
    }
}

/// Maps solver output and exit status to a verdict from the result tokens
/// the solver printed; a bare exit code is never trusted, since `sat` and
/// `unsat` both exit 0.
pub fn parse_verdict(output: &str, exit_ok: bool) -> (v: Verdict)
    ensures
        v == smt_verdict(output@, exit_ok),
{
    let cs = chars_of(output);
    let err = chars_of("(error");
    if !exit_ok || contains_seq(&cs, &err) {
        return Verdict::Error;
    }
    let ws = split_words(&cs);
    let sat = chars_of("sat");
    let unsat = chars_of("unsat");
    let unknown = chars_of("unknown");
    let ghost wv = views(ws@);
    let mut saw_sat = false;
    let mut saw_unsat = false;
    let mut saw_unknown = false;
    let mut i: usize = 0;
    while i < ws.len()
        invariant
            i <= ws@.len(),
            wv == views(ws@),
            sat@ == "sat"@,
            unsat@ == "unsat"@,
            unknown@ == "unknown"@,
            saw_sat <==> wv.take(i as int).contains("sat"@),
            saw_unsat <==> wv.take(i as int).contains("unsat"@),
            saw_unknown <==> wv.take(i as int).contains("unknown"@),
        decreases ws.len() - i,
    {
        proof {
            assert(wv.take(i + 1) =~= wv.take(i as int).push(wv[i as int]));
            assert(wv[i as int] == ws@[i as int]@);
            crate::text::lemma_push_contains(wv.take(i as int), wv[i as int], "sat"@);
            crate::text::lemma_push_contains(wv.take(i as int), wv[i as int], "unsat"@);
            crate::text::lemma_push_contains(wv.take(i as int), wv[i as int], "unknown"@);
        }
        if seq_eq(&ws[i], &sat) {
            saw_sat = true;
        }
        if seq_eq(&ws[i], &unsat) {
            saw_unsat = true;
        }
        if seq_eq(&ws[i], &unknown) {
            saw_unknown = true;
        }
        i = i + 1;
    }
    assert(wv.take(wv.len() as int) =~= wv);
    assert(wv == words(output@));
    if saw_sat {
        Verdict::Refuted
    } else if saw_unknown {
        Verdict::Unknown
    } else if saw_unsat {
        Verdict::Proven
    } else {
        Verdict::Error
    }
}

impl Backend for Smt {
    open spec fn exts_spec(&self) -> Seq<Seq<char>> {
        seq!["smt2"@]
    }

    open spec fn module_id_spec(&self, file: Seq<char>, root: Seq<char>) -> Option<Seq<char>> {
        module_name_spec(file, root)
    }

    open spec fn module_path_spec(&self, module: Seq<char>, root: Seq<char>) -> Seq<char> {
        module_file_spec(root, module, "smt2"@)
    }

    open spec fn imports_spec(&self, text: Seq<char>) -> Seq<Seq<char>> {
        Seq::empty()
    }

    fn name(&self) -> (r: &'static str)
        ensures
            r@ == self.id(),
    {
        self.name
    }

    fn kind(&self) -> (r: BackendKind)
        ensures
            r == BackendKind::Solver,
    {
        BackendKind::Solver
    }

    fn extensions(&self) -> (r: Vec<&'static str>) {
        let r = vec!["smt2"];
        assert(str_views(r@) =~= seq!["smt2"@]);
        r
    }

    fn safe_mode(&self) -> (r: Option<&'static str>)
        ensures
            r is None,
    {
        None
    }

    fn command(&self) -> (r: &'static str)
        ensures
            r@ == self.cmd(),
    {
        self.cmd
    }

    /// No true module names: the relative path serves as a stable node id.
    fn module_name_of(&self, file: &str, include_root: &str) -> (r: Option<String>) {
        crate::graph::module_name_of(file, include_root)
    }

    fn module_to_path(&self, module: &str, include_root: &str) -> (r: String) {
        crate::path::module_file(module, include_root, "smt2")
    }

    /// SMT queries are standalone: no dependency edges.
    fn direct_imports(&self, text: &str) -> (r: Vec<String>) {
        let r: Vec<String> = Vec::new();
        assert(crate::order::strs(r@) =~= Seq::<Seq<char>>::empty());
        r
    }

    /// No root convention for SMT.
    fn discover_roots(&self, include_root: &str, tree: &SourceTree) -> (r: Vec<String>)
        ensures
            r@.len() == 0,
    {
        Vec::new()
    }

    /// No source-level escape-hatch class for SMT-LIB2.
    fn lint_rules(&self, cfg: &RuleConfig) -> (r: Result<Vec<Rule>, String>)
        ensures
            r matches Ok(v) && v@.len() == 0,
    {
        Ok(Vec::new())
    }
}

/// A solver's goal counts as discharged only when it exited cleanly,
/// printed no error, printed `unsat`, and printed no `sat` or `unknown`:
/// the bare exit code never decides it.
pub proof fn lemma_proven_needs_unsat(output: Seq<char>, exit_ok: bool)
    ensures
        smt_verdict(output, exit_ok) == Verdict::Proven <==> (exit_ok && !contains(output, "(error"@)
            && words(output).contains("unsat"@) && !words(output).contains("sat"@)
            && !words(output).contains("unknown"@)),
        smt_verdict(output, exit_ok) == Verdict::Refuted ==> words(output).contains("sat"@),
{
}

} // verus!
