//! `missing-safe-pragma` (hard block): the file's `{-# OPTIONS … #-}`
//! pragma, within its first lines, must carry the soundness flags of the
//! profile: `--safe --without-K` for standard Agda, `--cubical --safe` for
//! Cubical Agda.

use vstd::prelude::*;
use crate::diagnostic::{DiagView, LintReport, Severity};
use crate::graph::join;
use crate::lint::{LintContext, LintRule};
use crate::text::{chars_of, contains, contains_seq, has_prefix, lines, split_lines, starts_with, trim_start, trim_start_vec, views};

verus! {

/// How many leading lines are searched for the pragma.
pub const HEAD_LINES_SCANNED: usize = 30;

/// Requires a profile's flags in an OPTIONS pragma.
#[derive(Clone, Copy, Debug, PartialEq, Eq, Structural)]
pub struct SafePragma {
    /// The Cubical profile (`--cubical --safe`) rather than the standard
    /// one (`--safe --without-K`).
    pub cubical: bool,
}

/// A line that opens a pragma and names OPTIONS and `flag`.
pub open spec fn carries(line: Seq<char>, flag: Seq<char>) -> bool {
    starts_with(trim_start(line), "{-#"@) && contains(line, "OPTIONS"@) && contains(line, flag)
}

/// Some line among `ls` carries `flag`.
pub open spec fn seen_in(ls: Seq<Seq<char>>, flag: Seq<char>) -> bool {
    exists|i: int| 0 <= i < ls.len() && carries(#[trigger] ls[i], flag)
}

/// The first lines searched.
pub open spec fn head(text: Seq<char>) -> Seq<Seq<char>> {
    let ls = lines(text);
    if ls.len() > 30 {
        ls.take(30)
    } else {
        ls
    }
}

impl SafePragma {
    /// Standard `--safe --without-K` Agda.
    pub open spec fn standard_spec() -> SafePragma {
        SafePragma { cubical: false }
    }

    /// The flags the profile requires, in order.
    pub open spec fn required(&self) -> Seq<Seq<char>> {
        if self.cubical {
            seq!["--cubical"@, "--safe"@]
        } else {
            seq!["--safe"@, "--without-K"@]
        }
    }

    /// The required flags that no head line carries, in order.
    pub open spec fn missing(&self, text: Seq<char>) -> Seq<Seq<char>> {
        let r = self.required();
        let a = if seen_in(head(text), r[0]) { Seq::empty() } else { seq![r[0]] };
        let b = if seen_in(head(text), r[1]) { Seq::empty() } else { seq![r[1]] };
        a + b
    }

    /// Standard `--safe --without-K` Agda.
    pub fn standard() -> (r: SafePragma)
        ensures
            r == SafePragma::standard_spec(),
    {
        SafePragma { cubical: false }
    }

    /// Cubical Agda: `--cubical --safe`.
    pub fn cubical() -> (r: SafePragma)
        ensures
            r.cubical,
    {
        SafePragma { cubical: true }
    }
}

fn line_carries(line: &[char], flag: &[char]) -> (r: bool)
    ensures
        r == carries(line@, flag@),
{
    let t = trim_start_vec(line);
    let open = chars_of("{-#");
    let opts = chars_of("OPTIONS");
    has_prefix(&t, &open) && contains_seq(line, &opts) && contains_seq(line, flag)
}

impl LintRule for SafePragma {
    open spec fn rule_name(&self) -> Seq<char> {
        "missing-safe-pragma"@
    }

    /// Reads only `text`, so it always runs.
    open spec fn fails_with(&self, file: Seq<char>, text: Seq<char>, ctx: LintContext, e: Seq<char>) -> bool {
        false
    }

    open spec fn findings(&self, file: Seq<char>, text: Seq<char>, ctx: LintContext) -> Option<Seq<DiagView>> {
        let m = self.missing(text);
        if m.len() == 0 {
            Some(Seq::empty())
        } else {
            Some(seq![DiagView {
                rule: "missing-safe-pragma"@,
                severity: Severity::HardBlock,
                file,
                message: "missing "@ + join(m, " and "@) + " pragma in first 30 lines"@,
                line: None,
            }])
        }
    }

    fn name(&self) -> (r: &'static str) {
        "missing-safe-pragma"
    }

    fn run(&self, file: &str, text: &str, ctx: &LintContext, report: &mut LintReport) -> (r: Result<(), String>) {
        let (f0, f1) = if self.cubical {
            ("--cubical", "--safe")
        } else {
            ("--safe", "--without-K")
        };
        let c0 = chars_of(f0);
        let c1 = chars_of(f1);
        let cs = chars_of(text);
        let ls = split_lines(&cs);
        let n = if ls.len() > HEAD_LINES_SCANNED { HEAD_LINES_SCANNED } else { ls.len() };
        let ghost hd = head(text@);
        assert(views(ls@).take(n as int) =~= hd);
        let mut seen0 = false;
        let mut seen1 = false;
        let mut i: usize = 0;
        while i < n
            invariant
                i <= n <= ls@.len(),
                views(ls@).take(n as int) == hd,
                seen0 == exists|j: int| 0 <= j < i && carries(#[trigger] hd[j], c0@),
                seen1 == exists|j: int| 0 <= j < i && carries(#[trigger] hd[j], c1@),
            decreases n - i,
        {
            assert(hd[i as int] == ls@[i as int]@);
            if line_carries(&ls[i], &c0) {
                seen0 = true;
            }
            if line_carries(&ls[i], &c1) {
                seen1 = true;
            }
            i = i + 1;
        }
        assert(self.required()[0] == c0@ && self.required()[1] == c1@);
        if !seen0 || !seen1 {
            let mut msg = String::from_str("missing ");
            let ghost m = self.missing(text@);
            if !seen0 {
                msg.append(f0);
                if !seen1 {
                    msg.append(" and ");
                    msg.append(f1);
                    assert(m =~= seq![c0@, c1@]);
                    assert(m.drop_last() =~= seq![c0@]);
                    assert(join(m, " and "@) == join(seq![c0@], " and "@) + " and "@ + c1@);
                } else {
                    assert(m =~= seq![c0@]);
                }
            } else {
                msg.append(f1);
                assert(m =~= seq![c1@]);
            }
            msg.append(" pragma in first 30 lines");
            assert(msg@ == "missing "@ + join(m, " and "@) + " pragma in first 30 lines"@);
            let d = crate::diagnostic::diagnostic("missing-safe-pragma", Severity::HardBlock, file, msg, None);
            let ghost before = report.diags();
            report.push(d);
            assert(report.diags() =~= before + seq![d@]);
        } else {
            assert(self.missing(text@) =~= Seq::<Seq<char>>::empty());
            assert(report.diags() + Seq::<DiagView>::empty() =~= report.diags());
        }
        Ok(())
    }
}

} // verus!
