//! `escape-hatch` (warn): soundness escape hatches in Agda. Termination
//! overrides in a pragma (`TERMINATING`, `NON_TERMINATING`,
//! `NO_TERMINATION_CHECK`) and the trust primitives `believe_me` and
//! `primTrustMe` as whole tokens outside a trailing ` --` comment.

use vstd::prelude::*;
use crate::diagnostic::{DiagView, LintReport, Severity};
use crate::lint::{LintContext, LintRule, warn};
use crate::text::{before, before_vec, chars_of, contains, contains_seq, has_prefix, has_token, lines, split_lines, starts_with, token_in, trim_start, trim_start_vec, views};

verus! {

/// Surfaces Agda escape hatches.
#[derive(Clone, Copy, Debug, PartialEq, Eq, Structural)]
pub struct EscapeHatch;

/// A warning of the escape-hatch rule at 1-based line `line`.
pub open spec fn hatch(file: Seq<char>, line: int, message: Seq<char>) -> DiagView {
    DiagView { rule: "escape-hatch"@, severity: Severity::Warn, file, message, line: Some(line as usize) }
}

/// `seq![d]` when `c`, otherwise nothing.
pub open spec fn flag_if(c: bool, d: DiagView) -> Seq<DiagView> {
    if c {
        seq![d]
    } else {
        Seq::empty()
    }
}

/// The token separators besides white space.
pub open spec fn agda_seps() -> Seq<char> {
    seq!['(', ')', '{', '}', ';', ',']
}

/// The findings on line `i` (0-based).
pub open spec fn agda_hatches(file: Seq<char>, i: int, l: Seq<char>) -> Seq<DiagView> {
    let t = trim_start(l);
    if starts_with(t, "--"@) {
        Seq::empty()
    } else {
        let prag = starts_with(t, "{-#"@);
        let code = before(l, " --"@);
        flag_if(prag && contains(l, "TERMINATING"@), hatch(file, i + 1, "termination escape pragma `TERMINATING`"@))
            + flag_if(prag && contains(l, "NON_TERMINATING"@), hatch(file, i + 1, "termination escape pragma `NON_TERMINATING`"@))
            + flag_if(prag && contains(l, "NO_TERMINATION_CHECK"@), hatch(file, i + 1, "termination escape pragma `NO_TERMINATION_CHECK`"@))
            + flag_if(token_in(code, "believe_me"@, agda_seps()), hatch(file, i + 1, "trust primitive `believe_me`"@))
            + flag_if(token_in(code, "primTrustMe"@, agda_seps()), hatch(file, i + 1, "trust primitive `primTrustMe`"@))
    }
}

/// The findings of the first `k` lines.
pub open spec fn agda_hatches_upto(ls: Seq<Seq<char>>, file: Seq<char>, k: int) -> Seq<DiagView>
    decreases k,
{
    if k <= 0 || k > ls.len() {
        Seq::empty()
    } else {
        agda_hatches_upto(ls, file, k - 1) + agda_hatches(file, k - 1, ls[k - 1])
    }
}

/// Pushes a warning when `c`.
pub fn warn_when(c: bool, rule: &str, file: &str, line: usize, msg: &str, report: &mut LintReport)
    ensures
        final(report).file == old(report).file,
        final(report).diags() == old(report).diags() + flag_if(
            c,
            DiagView { rule: rule@, severity: Severity::Warn, file: file@, message: msg@, line: Some(line) },
        ),
{
    if c {
        let d = warn(rule, file, line, String::from_str(msg));
        let ghost before = report.diags();
        report.push(d);
        assert(report.diags() =~= before + seq![d@]);
    } else {
        assert(report.diags() =~= report.diags() + Seq::<DiagView>::empty());
    }
}

fn agda_line(file: &str, i: usize, l: &[char], seps: &[char], report: &mut LintReport)
    requires
        i < usize::MAX,
        seps@ == agda_seps(),
    ensures
        final(report).file == old(report).file,
        final(report).diags() == old(report).diags() + agda_hatches(file@, i as int, l@),
{
    let line_no = i + 1;
        let ghost start = report.diags();
        let t = trim_start_vec(l);
        if !has_prefix(&t, &chars_of("--")) {
            let prag = has_prefix(&t, &chars_of("{-#"));
            let code = before_vec(l, &chars_of(" --"));
            warn_when(prag && contains_seq(l, &chars_of("TERMINATING")), "escape-hatch", file, line_no, "termination escape pragma `TERMINATING`", report);
            warn_when(prag && contains_seq(l, &chars_of("NON_TERMINATING")), "escape-hatch", file, line_no, "termination escape pragma `NON_TERMINATING`", report);
            warn_when(prag && contains_seq(l, &chars_of("NO_TERMINATION_CHECK")), "escape-hatch", file, line_no, "termination escape pragma `NO_TERMINATION_CHECK`", report);
            warn_when(has_token(&code, &chars_of("believe_me"), seps), "escape-hatch", file, line_no, "trust primitive `believe_me`", report);
            warn_when(has_token(&code, &chars_of("primTrustMe"), seps), "escape-hatch", file, line_no, "trust primitive `primTrustMe`", report);
            assert(report.diags() =~= start + agda_hatches(file@, i as int, l@));
        } else {
            assert(agda_hatches(file@, i as int, l@) =~= Seq::<DiagView>::empty());
            assert(report.diags() =~= start + agda_hatches(file@, i as int, l@));
        }
}

impl LintRule for EscapeHatch {
    open spec fn rule_name(&self) -> Seq<char> {
        "escape-hatch"@
    }

    /// Reads only `text`, so it always runs.
    open spec fn fails_with(&self, file: Seq<char>, text: Seq<char>, ctx: LintContext, e: Seq<char>) -> bool {
        false
    }

    open spec fn findings(&self, file: Seq<char>, text: Seq<char>, ctx: LintContext) -> Option<Seq<DiagView>> {
        let ls = lines(text);
        Some(agda_hatches_upto(ls, file, ls.len() as int))
    }

    fn name(&self) -> (r: &'static str) {
        "escape-hatch"
    }

    #[verifier::spinoff_prover]
    #[verifier::rlimit(30)]
    fn run(&self, file: &str, text: &str, ctx: &LintContext, report: &mut LintReport) -> (r: Result<(), String>) {
        let cs = chars_of(text);
        let ls = split_lines(&cs);
        let ghost lv = views(ls@);
        let seps: [char; 6] = ['(', ')', '{', '}', ';', ','];
        assert(seps@ =~= agda_seps());
        let mut i: usize = 0;
        while i < ls.len()
            invariant
                i <= ls@.len(),
                lv == views(ls@),
                lv == lines(text@),
                seps@ == agda_seps(),
                report.diags() == old(report).diags() + agda_hatches_upto(lv, file@, i as int),
                report.file == old(report).file,
            decreases ls.len() - i,
        {
            let l = &ls[i];
            assert(lv[i as int] == l@);
            agda_line(file, i, l, &seps, report);
            assert(report.diags() =~= old(report).diags() + agda_hatches_upto(lv, file@, i + 1));
            i = i + 1;
        }
        Ok(())
    }
}

} // verus!
