//! Coq / Rocq `escape-hatch` (warn): `Admitted`, `admit`, `Axiom` and
//! `Conjecture` as whole tokens outside `(* … *)` comments. `Parameter`,
//! `Variable` and `Hypothesis` are left to the backend's postulate count.

use vstd::prelude::*;
use crate::diagnostic::{DiagView, LintReport, Severity};
use crate::lint::{LintContext, LintRule};
use crate::lint::escape_hatch::{hatch, flag_if, warn_when};
use crate::text::{chars_of, has_prefix, has_token, lines, split_lines, starts_with, strip_line_comments, strip_ml_comments, token_in, trim_start, trim_start_vec, views};

verus! {

/// Surfaces Coq escape hatches.
#[derive(Clone, Copy, Debug, PartialEq, Eq, Structural)]
pub struct CoqEscapeHatch;

/// The token separators besides white space.
pub open spec fn coq_seps() -> Seq<char> {
    seq!['(', ')', '{', '}', ';', ',', '.']
}

/// The findings on line `i` (0-based).
pub open spec fn coq_hatches(file: Seq<char>, i: int, l: Seq<char>) -> Seq<DiagView> {
    if starts_with(trim_start(l), "(*"@) {
        Seq::empty()
    } else {
        let code = strip_ml_comments(l);
        flag_if(token_in(code, "Admitted"@, coq_seps()), hatch(file, i + 1, "escape primitive `Admitted`"@))
            + flag_if(token_in(code, "admit"@, coq_seps()), hatch(file, i + 1, "escape primitive `admit`"@))
            + flag_if(token_in(code, "Axiom"@, coq_seps()), hatch(file, i + 1, "escape primitive `Axiom`"@))
            + flag_if(token_in(code, "Conjecture"@, coq_seps()), hatch(file, i + 1, "escape primitive `Conjecture`"@))
    }
}

/// The findings of the first `k` lines.
pub open spec fn coq_hatches_upto(ls: Seq<Seq<char>>, file: Seq<char>, k: int) -> Seq<DiagView>
    decreases k,
{
    if k <= 0 || k > ls.len() {
        Seq::empty()
    } else {
        coq_hatches_upto(ls, file, k - 1) + coq_hatches(file, k - 1, ls[k - 1])
    }
}

fn coq_line(file: &str, i: usize, l: &[char], seps: &[char], report: &mut LintReport)
    requires
        i < usize::MAX,
        seps@ == coq_seps(),
    ensures
        final(report).file == old(report).file,
        final(report).diags() == old(report).diags() + coq_hatches(file@, i as int, l@),
{
    let line_no = i + 1;
        let ghost start = report.diags();
        let t = trim_start_vec(l);
        if !has_prefix(&t, &chars_of("(*")) {
            let code = strip_line_comments(l);
            warn_when(has_token(&code, &chars_of("Admitted"), seps), "escape-hatch", file, line_no, "escape primitive `Admitted`", report);
            warn_when(has_token(&code, &chars_of("admit"), seps), "escape-hatch", file, line_no, "escape primitive `admit`", report);
            warn_when(has_token(&code, &chars_of("Axiom"), seps), "escape-hatch", file, line_no, "escape primitive `Axiom`", report);
            warn_when(has_token(&code, &chars_of("Conjecture"), seps), "escape-hatch", file, line_no, "escape primitive `Conjecture`", report);
            assert(report.diags() =~= start + coq_hatches(file@, i as int, l@));
        } else {
            assert(coq_hatches(file@, i as int, l@) =~= Seq::<DiagView>::empty());
            assert(report.diags() =~= start + coq_hatches(file@, i as int, l@));
        }
}

impl LintRule for CoqEscapeHatch {
    open spec fn rule_name(&self) -> Seq<char> {
        "escape-hatch"@
    }

    /// Reads only `text`, so it always runs.
    open spec fn fails_with(&self, file: Seq<char>, text: Seq<char>, ctx: LintContext, e: Seq<char>) -> bool {
        false
    }

    open spec fn findings(&self, file: Seq<char>, text: Seq<char>, ctx: LintContext) -> Option<Seq<DiagView>> {
        let ls = lines(text);
        Some(coq_hatches_upto(ls, file, ls.len() as int))
    }

    fn name(&self) -> (r: &'static str) {
        "escape-hatch"
    }

    fn run(&self, file: &str, text: &str, ctx: &LintContext, report: &mut LintReport) -> (r: Result<(), String>) {
        let cs = chars_of(text);
        let ls = split_lines(&cs);
        let ghost lv = views(ls@);
        let seps: [char; 7] = ['(', ')', '{', '}', ';', ',', '.'];
        assert(seps@ =~= coq_seps());
        let mut i: usize = 0;
        while i < ls.len()
            invariant
                i <= ls@.len(),
                lv == views(ls@),
                lv == lines(text@),
                seps@ == coq_seps(),
                report.diags() == old(report).diags() + coq_hatches_upto(lv, file@, i as int),
                report.file == old(report).file,
            decreases ls.len() - i,
        {
            let l = &ls[i];
            assert(lv[i as int] == l@);
            coq_line(file, i, l, &seps, report);
            assert(report.diags() =~= old(report).diags() + coq_hatches_upto(lv, file@, i + 1));
            i = i + 1;
        }
        Ok(())
    }
}

} // verus!
