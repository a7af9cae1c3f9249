//! `tab-mix` (warn): a tab in a line's leading whitespace. Reported once
//! per file, at the first such line.

use vstd::prelude::*;
use crate::diagnostic::{DiagView, LintReport, Severity};
use crate::lint::{LintContext, LintRule};
use crate::text::{chars_of, has_char, lines, split_lines, views};

verus! {

/// Flags tabs used for indentation.
#[derive(Clone, Copy, Debug, PartialEq, Eq, Structural)]
pub struct TabMix;

/// The length of the leading run of spaces and tabs.
pub open spec fn blank_run(l: Seq<char>) -> nat
    decreases l.len(),
{
    if l.len() > 0 && (l[0] == ' ' || l[0] == '\t') {
        1 + blank_run(l.drop_first())
    } else {
        0
    }
}

/// The leading run of spaces and tabs holds a tab.
pub open spec fn tab_led(l: Seq<char>) -> bool {
    has_char(l.take(blank_run(l) as int), '\t')
}

/// The index of the first tab-led line, or -1.
pub open spec fn first_tab_line(ls: Seq<Seq<char>>) -> int
    decreases ls.len(),
{
    if ls.len() == 0 {
        -1
    } else if first_tab_line(ls.drop_last()) >= 0 {
        first_tab_line(ls.drop_last())
    } else if tab_led(ls.last()) {
        ls.len() - 1
    } else {
        -1
    }
}

proof fn lemma_blank_run(l: Seq<char>)
    ensures
        blank_run(l) <= l.len(),
        forall|j: int| 0 <= j < blank_run(l) ==> l[j] == ' ' || l[j] == '\t',
        blank_run(l) < l.len() ==> !(l[blank_run(l) as int] == ' ' || l[blank_run(l) as int] == '\t'),
    decreases l.len(),
{
    if l.len() > 0 && (l[0] == ' ' || l[0] == '\t') {
        lemma_blank_run(l.drop_first());
        assert forall|j: int| 0 <= j < blank_run(l) implies l[j] == ' ' || l[j] == '\t' by {
            if j > 0 {
                assert(l[j] == l.drop_first()[j - 1]);
            }
        }
    }
}

fn leads_with_tab(l: &[char]) -> (r: bool)
    ensures
        r == tab_led(l@),
{
    proof {
        lemma_blank_run(l@);
    }
    let mut k: usize = 0;
    while k < l.len() && (l[k] == ' ' || l[k] == '\t')
        invariant
            k <= l@.len(),
            k <= blank_run(l@),
            blank_run(l@) <= l@.len(),
            forall|j: int| 0 <= j < blank_run(l@) ==> l@[j] == ' ' || l@[j] == '\t',
            blank_run(l@) < l@.len() ==> !(l@[blank_run(l@) as int] == ' ' || l@[blank_run(l@) as int] == '\t'),
            forall|j: int| 0 <= j < k ==> l@[j] != '\t',
        decreases l.len() - k,
    {
        if l[k] == '\t' {
            assert(l@.take(blank_run(l@) as int)[k as int] == '\t');
            return true;
        }
        k = k + 1;
    }
    assert(k == blank_run(l@));
    false
}

impl LintRule for TabMix {
    open spec fn rule_name(&self) -> Seq<char> {
        "tab-mix"@
    }

    /// Reads only `text`, so it always runs.
    open spec fn fails_with(&self, file: Seq<char>, text: Seq<char>, ctx: LintContext, e: Seq<char>) -> bool {
        false
    }

    open spec fn findings(&self, file: Seq<char>, text: Seq<char>, ctx: LintContext) -> Option<Seq<DiagView>> {
        let i = first_tab_line(lines(text));
        if i < 0 {
            Some(Seq::empty())
        } else {
            Some(seq![DiagView {
                rule: "tab-mix"@,
                severity: Severity::Warn,
                file,
                message: "tab in leading whitespace (Agda style is spaces)"@,
                line: Some((i + 1) as usize),
            }])
        }
    }

    fn name(&self) -> (r: &'static str) {
        "tab-mix"
    }

    fn run(&self, file: &str, text: &str, ctx: &LintContext, report: &mut LintReport) -> (r: Result<(), String>) {
        let cs = chars_of(text);
        let ls = split_lines(&cs);
        let ghost lv = views(ls@);
        let mut i: usize = 0;
        while i < ls.len()
            invariant
                i <= ls@.len(),
                lv == views(ls@),
                lv == lines(text@),
                first_tab_line(lv.take(i as int)) == -1,
                report.diags() == old(report).diags(),
                report.file == old(report).file,
            decreases ls.len() - i,
        {
            proof {
                assert(lv.take(i + 1).drop_last() =~= lv.take(i as int));
                assert(lv[i as int] == ls@[i as int]@);
            }
            if leads_with_tab(&ls[i]) {
                proof {
                    lemma_first_tab_prefix(lv, i as int + 1);
                }
                let d = crate::lint::warn("tab-mix", file, i + 1, String::from_str("tab in leading whitespace (Agda style is spaces)"));
                let ghost before = report.diags();
                report.push(d);
                assert(report.diags() =~= before + seq![d@]);
                return Ok(());
            }
            i = i + 1;
        }
        assert(lv.take(lv.len() as int) =~= lv);
        assert(report.diags() + Seq::<DiagView>::empty() =~= report.diags());
        Ok(())
    }
}

proof fn lemma_first_tab_prefix(ls: Seq<Seq<char>>, n: int)
    requires
        0 <= n <= ls.len(),
        first_tab_line(ls.take(n)) >= 0,
    ensures
        first_tab_line(ls) == first_tab_line(ls.take(n)),
    decreases ls.len() - n,
{
    if n < ls.len() {
        assert(ls.take(n + 1).drop_last() =~= ls.take(n));
        lemma_first_tab_prefix(ls, n + 1);
    } else {
        assert(ls.take(n) =~= ls);
    }
}

} // verus!
