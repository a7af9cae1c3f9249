//! Isabelle `escape-hatch` (warn): `sorry`, `oops` and `axiomatization` as
//! whole tokens outside `(* … *)` comments.

use vstd::prelude::*;
use crate::diagnostic::{DiagView, LintReport, Severity};
use crate::lint::{LintContext, LintRule};
use crate::lint::escape_hatch::{hatch, flag_if, warn_when};
use crate::text::{chars_of, has_prefix, has_token, lines, split_lines, starts_with, strip_line_comments, strip_ml_comments, token_in, trim_start, trim_start_vec, views};

verus! {

/// Surfaces Isabelle escape hatches.
#[derive(Clone, Copy, Debug, PartialEq, Eq, Structural)]
pub struct IsabelleEscapeHatch;

/// The token separators besides white space.
pub open spec fn isa_seps() -> Seq<char> {
    seq!['(', ')', '{', '}', '[', ']', ';', ',', '.']
}

/// The findings on line `i` (0-based).
pub open spec fn isa_hatches(file: Seq<char>, i: int, l: Seq<char>) -> Seq<DiagView> {
    if starts_with(trim_start(l), "(*"@) {
        Seq::empty()
    } else {
        let code = strip_ml_comments(l);
        flag_if(token_in(code, "sorry"@, isa_seps()), hatch(file, i + 1, "escape primitive `sorry`"@))
            + flag_if(token_in(code, "oops"@, isa_seps()), hatch(file, i + 1, "escape primitive `oops`"@))
            + flag_if(token_in(code, "axiomatization"@, isa_seps()), hatch(file, i + 1, "escape primitive `axiomatization`"@))
    }
}

/// The findings of the first `k` lines.
pub open spec fn isa_hatches_upto(ls: Seq<Seq<char>>, file: Seq<char>, k: int) -> Seq<DiagView>
    decreases k,
{
    if k <= 0 || k > ls.len() {
        Seq::empty()
    } else {
        isa_hatches_upto(ls, file, k - 1) + isa_hatches(file, k - 1, ls[k - 1])
    }
}

fn isa_line(file: &str, i: usize, l: &[char], seps: &[char], report: &mut LintReport)
    requires
        i < usize::MAX,
        seps@ == isa_seps(),
    ensures
        final(report).file == old(report).file,
        final(report).diags() == old(report).diags() + isa_hatches(file@, i as int, l@),
{
    let line_no = i + 1;
        let ghost start = report.diags();
        let t = trim_start_vec(l);
        if !has_prefix(&t, &chars_of("(*")) {
            let code = strip_line_comments(l);
            warn_when(has_token(&code, &chars_of("sorry"), seps), "escape-hatch", file, line_no, "escape primitive `sorry`", report);
            warn_when(has_token(&code, &chars_of("oops"), seps), "escape-hatch", file, line_no, "escape primitive `oops`", report);
            warn_when(has_token(&code, &chars_of("axiomatization"), seps), "escape-hatch", file, line_no, "escape primitive `axiomatization`", report);
            assert(report.diags() =~= start + isa_hatches(file@, i as int, l@));
        } else {
            assert(isa_hatches(file@, i as int, l@) =~= Seq::<DiagView>::empty());
            assert(report.diags() =~= start + isa_hatches(file@, i as int, l@));
        }
}

impl LintRule for IsabelleEscapeHatch {
    open spec fn rule_name(&self) -> Seq<char> {
        "escape-hatch"@
    }

    /// Reads only `text`, so it always runs.
    open spec fn fails_with(&self, file: Seq<char>, text: Seq<char>, ctx: LintContext, e: Seq<char>) -> bool {
        false
    }

    open spec fn findings(&self, file: Seq<char>, text: Seq<char>, ctx: LintContext) -> Option<Seq<DiagView>> {
        let ls = lines(text);
        Some(isa_hatches_upto(ls, file, ls.len() as int))
    }

    fn name(&self) -> (r: &'static str) {
        "escape-hatch"
    }

    fn run(&self, file: &str, text: &str, ctx: &LintContext, report: &mut LintReport) -> (r: Result<(), String>) {
        let cs = chars_of(text);
        let ls = split_lines(&cs);
        let ghost lv = views(ls@);
        let seps: [char; 9] = ['(', ')', '{', '}', '[', ']', ';', ',', '.'];
        assert(seps@ =~= isa_seps());
        let mut i: usize = 0;
        while i < ls.len()
            invariant
                i <= ls@.len(),
                lv == views(ls@),
                lv == lines(text@),
                seps@ == isa_seps(),
                report.diags() == old(report).diags() + isa_hatches_upto(lv, file@, i as int),
                report.file == old(report).file,
            decreases ls.len() - i,
        {
            let l = &ls[i];
            assert(lv[i as int] == l@);
            isa_line(file, i, l, &seps, report);
            assert(report.diags() =~= old(report).diags() + isa_hatches_upto(lv, file@, i + 1));
            i = i + 1;
        }
        Ok(())
    }
}

} // verus!
