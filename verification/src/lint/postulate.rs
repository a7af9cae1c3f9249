//! `unjustified-postulate` (hard block): a `postulate` opener without an
//! adjacent `-- JUSTIFY:` rationale on the nearest non-blank line above.

use vstd::prelude::*;
use crate::diagnostic::{DiagView, LintReport, Severity};
use crate::lint::{LintContext, LintRule};
use crate::text::{chars_of, has_prefix, lines, seq_eq, split_lines, starts_with, trim, trim_start, trim_start_vec, trim_vec, views};

verus! {

/// Flags unjustified postulates.
#[derive(Clone, Copy, Debug, PartialEq, Eq, Structural)]
pub struct UnjustifiedPostulate;

/// A line whose first token is `postulate` (alone, or followed by a space
/// or a tab); comment lines excluded.
pub open spec fn is_postulate_opener(line: Seq<char>) -> bool {
    let t = trim_start(line);
    !starts_with(t, "--"@) && (t == "postulate"@ || starts_with(t, "postulate "@) || starts_with(t, "postulate\t"@))
}

/// Scanning upwards from line `j`: the first non-blank line is a
/// `-- JUSTIFY:` comment.
pub open spec fn justified_from(ls: Seq<Seq<char>>, j: int) -> bool
    decreases j + 1,
{
    if j < 0 || j >= ls.len() {
        false
    } else if trim(ls[j]).len() == 0 {
        justified_from(ls, j - 1)
    } else {
        starts_with(trim(ls[j]), "-- JUSTIFY:"@)
    }
}

/// The finding for line `i`, if it opens an unjustified postulate.
pub open spec fn postulate_finding(ls: Seq<Seq<char>>, file: Seq<char>, i: int, l: Seq<char>) -> Seq<DiagView> {
    if is_postulate_opener(l) && !justified_from(ls, i - 1) {
        seq![DiagView {
            rule: "unjustified-postulate"@,
            severity: Severity::HardBlock,
            file,
            message: "`postulate` without an adjacent `-- JUSTIFY:` comment"@,
            line: Some((i + 1) as usize),
        }]
    } else {
        Seq::empty()
    }
}

/// The findings of the first `k` lines of `ls`.
pub open spec fn postulate_upto(ls: Seq<Seq<char>>, file: Seq<char>, k: int) -> Seq<DiagView>
    decreases k,
{
    if k <= 0 || k > ls.len() {
        Seq::empty()
    } else {
        postulate_upto(ls, file, k - 1) + postulate_finding(ls, file, k - 1, ls[k - 1])
    }
}

/// A line opens a postulate exactly when, after its leading white space,
/// its first word is `postulate`: the word alone, or followed by a space or
/// a tab and anything at all.
pub proof fn lemma_postulate_opener(line: Seq<char>)
    ensures
        ({
            let t = trim_start(line);
            is_postulate_opener(line) <==> (t.len() >= 9 && t.take(9) == "postulate"@ && (t.len() == 9 || t[9] == ' '
                || t[9] == '\t'))
        }),
{
    reveal_strlit("postulate");
    reveal_strlit("postulate ");
    reveal_strlit("postulate\t");
    reveal_strlit("--");
    let t = trim_start(line);
    if t.len() >= 9 && t.take(9) == "postulate"@ {
        assert(t.take(9)[0] == t[0]);
        assert("postulate"@[0] == 'p');
        assert(t[0] == 'p');
        assert(!starts_with(t, "--"@)) by {
            if starts_with(t, "--"@) {
                assert(t.take(2)[0] == t[0]);
            }
        }
        if t.len() == 9 {
            assert(t =~= "postulate"@);
        } else {
            if t[9] == ' ' {
                assert(t.take(10) =~= "postulate "@);
            }
            if t[9] == '\t' {
                assert(t.take(10) =~= "postulate\t"@);
            }
            if starts_with(t, "postulate "@) {
                assert(t[9] == t.take(10)[9]);
            }
            if starts_with(t, "postulate\t"@) {
                assert(t[9] == t.take(10)[9]);
            }
        }
    }
    if is_postulate_opener(line) {
        if t == "postulate"@ {
            assert(t.take(9) =~= t);
        } else if starts_with(t, "postulate "@) {
            assert(t.take(9) =~= t.take(10).take(9));
            assert("postulate "@.take(9) =~= "postulate"@);
            assert(t[9] == t.take(10)[9]);
        } else {
            assert(t.take(9) =~= t.take(10).take(9));
            assert("postulate\t"@.take(9) =~= "postulate"@);
            assert(t[9] == t.take(10)[9]);
        }
    }
}

/// Every postulate opener with no `-- JUSTIFY:` line above it is reported:
/// the rule's findings hold a hard block on that line.
pub proof fn lemma_unjustified_reported(ls: Seq<Seq<char>>, file: Seq<char>, i: int, k: int)
    requires
        0 <= i < k <= ls.len(),
        is_postulate_opener(ls[i]),
        !justified_from(ls, i - 1),
    ensures
        exists|j: int|
            0 <= j < postulate_upto(ls, file, k).len() && (#[trigger] postulate_upto(ls, file, k)[j]).rule == "unjustified-postulate"@
                && postulate_upto(ls, file, k)[j].severity == Severity::HardBlock
                && postulate_upto(ls, file, k)[j].line == Some((i + 1) as usize),
    decreases k,
{
    if k == i + 1 {
        let a = postulate_upto(ls, file, i);
        let f = postulate_finding(ls, file, i, ls[i]);
        assert(postulate_upto(ls, file, k) == a + f);
        assert(postulate_upto(ls, file, k)[a.len() as int] == f[0]);
    } else {
        lemma_unjustified_reported(ls, file, i, k - 1);
        let a = postulate_upto(ls, file, k - 1);
        let j = choose|j: int|
            0 <= j < a.len() && (#[trigger] a[j]).rule == "unjustified-postulate"@ && a[j].severity == Severity::HardBlock
                && a[j].line == Some((i + 1) as usize);
        assert(postulate_upto(ls, file, k) == a + postulate_finding(ls, file, k - 1, ls[k - 1]));
        assert(postulate_upto(ls, file, k)[j] == a[j]);
    }
}

/// A postulate is justified when, going up from the line above it and
/// skipping blank lines, the first line reached is a `-- JUSTIFY:` comment.
pub proof fn lemma_justified(ls: Seq<Seq<char>>, j: int)
    requires
        j < ls.len(),
    ensures
        justified_from(ls, j) <==> exists|k: int|
            0 <= k <= j && starts_with(trim(#[trigger] ls[k]), "-- JUSTIFY:"@)
                && forall|m: int| k < m <= j ==> trim(#[trigger] ls[m]).len() == 0,
    decreases j + 1,
{
    reveal_strlit("-- JUSTIFY:");
    if j >= 0 {
        lemma_justified(ls, j - 1);
        if trim(ls[j]).len() == 0 {
            if exists|k: int|
                0 <= k <= j && starts_with(trim(#[trigger] ls[k]), "-- JUSTIFY:"@)
                    && forall|m: int| k < m <= j ==> trim(#[trigger] ls[m]).len() == 0 {
                let k = choose|k: int|
                    0 <= k <= j && starts_with(trim(#[trigger] ls[k]), "-- JUSTIFY:"@)
                        && forall|m: int| k < m <= j ==> trim(#[trigger] ls[m]).len() == 0;
                assert(k != j) by {
                    if k == j {
                        assert(trim(ls[j]).len() >= "-- JUSTIFY:"@.len());
                    }
                }
            }
        } else {
            if exists|k: int|
                0 <= k <= j && starts_with(trim(#[trigger] ls[k]), "-- JUSTIFY:"@)
                    && forall|m: int| k < m <= j ==> trim(#[trigger] ls[m]).len() == 0 {
                let k = choose|k: int|
                    0 <= k <= j && starts_with(trim(#[trigger] ls[k]), "-- JUSTIFY:"@)
                        && forall|m: int| k < m <= j ==> trim(#[trigger] ls[m]).len() == 0;
                if k < j {
                    assert(trim(ls[j]).len() == 0);
                }
            }
            if starts_with(trim(ls[j]), "-- JUSTIFY:"@) {
                assert(forall|m: int| j < m <= j ==> trim(#[trigger] ls[m]).len() == 0);
            }
        }
    }
}

/// Every finding of the rule is a hard block on a postulate opener that
/// has no `-- JUSTIFY:` line above it.
pub proof fn lemma_findings_are_unjustified(ls: Seq<Seq<char>>, file: Seq<char>, k: int)
    requires
        0 <= k <= ls.len(),
    ensures
        forall|j: int| 0 <= j < postulate_upto(ls, file, k).len() ==> exists|i: int|
            0 <= i < k && (#[trigger] postulate_upto(ls, file, k)[j]).line == Some((i + 1) as usize)
                && postulate_upto(ls, file, k)[j].rule == "unjustified-postulate"@
                && postulate_upto(ls, file, k)[j].severity == Severity::HardBlock
                && is_postulate_opener(ls[i]) && !justified_from(ls, i - 1),
    decreases k,
{
    if k > 0 {
        lemma_findings_are_unjustified(ls, file, k - 1);
        let a = postulate_upto(ls, file, k - 1);
        let f = postulate_finding(ls, file, k - 1, ls[k - 1]);
        assert(postulate_upto(ls, file, k) == a + f);
        assert forall|j: int| 0 <= j < postulate_upto(ls, file, k).len() implies exists|i: int|
            0 <= i < k && (#[trigger] postulate_upto(ls, file, k)[j]).line == Some((i + 1) as usize)
                && postulate_upto(ls, file, k)[j].rule == "unjustified-postulate"@
                && postulate_upto(ls, file, k)[j].severity == Severity::HardBlock
                && is_postulate_opener(ls[i]) && !justified_from(ls, i - 1) by {
            if j < a.len() {
                assert(postulate_upto(ls, file, k)[j] == a[j]);
                let i = choose|i: int|
                    0 <= i < k - 1 && (#[trigger] a[j]).line == Some((i + 1) as usize)
                        && a[j].rule == "unjustified-postulate"@ && a[j].severity == Severity::HardBlock
                        && is_postulate_opener(ls[i]) && !justified_from(ls, i - 1);
            } else {
                assert(postulate_upto(ls, file, k)[j] == f[j - a.len()]);
                let i = k - 1;
                assert(f.len() > 0);
            }
        }
    }
}

fn opener(line: &[char]) -> (r: bool)
    ensures
        r == is_postulate_opener(line@),
{
    let t = trim_start_vec(line);
    if has_prefix(&t, &chars_of("--")) {
        return false;
    }
    seq_eq(&t, &chars_of("postulate")) || has_prefix(&t, &chars_of("postulate ")) || has_prefix(
        &t,
        &chars_of("postulate\t"),
    )
}

fn justified_above(ls: &Vec<Vec<char>>, idx: usize) -> (r: bool)
    requires
        idx <= ls@.len(),
    ensures
        r == justified_from(views(ls@), idx - 1),
{
    let ghost lv = views(ls@);
    let mut j = idx;
    while j > 0
        invariant
            j <= idx <= ls@.len(),
            lv == views(ls@),
            justified_from(lv, idx - 1) == justified_from(lv, j - 1),
        decreases j,
    {
        let t = trim_vec(&ls[j - 1]);
        assert(lv[j - 1] == ls@[j - 1]@);
        if t.len() > 0 {
            return has_prefix(&t, &chars_of("-- JUSTIFY:"));
        }
        j = j - 1;
    }
    false
}

impl LintRule for UnjustifiedPostulate {
    open spec fn rule_name(&self) -> Seq<char> {
        "unjustified-postulate"@
    }

    /// Reads only `text`, so it always runs.
    open spec fn fails_with(&self, file: Seq<char>, text: Seq<char>, ctx: LintContext, e: Seq<char>) -> bool {
        false
    }

    open spec fn findings(&self, file: Seq<char>, text: Seq<char>, ctx: LintContext) -> Option<Seq<DiagView>> {
        let ls = lines(text);
        Some(postulate_upto(ls, file, ls.len() as int))
    }

    fn name(&self) -> (r: &'static str) {
        "unjustified-postulate"
    }

    fn run(&self, file: &str, text: &str, ctx: &LintContext, report: &mut LintReport) -> (r: Result<(), String>) {
        let cs = chars_of(text);
        let ls = split_lines(&cs);
        let ghost lv = views(ls@);
        let mut i: usize = 0;
        while i < ls.len()
            invariant
                i <= ls@.len(),
                lv == views(ls@),
                lv == lines(text@),
                report.diags() == old(report).diags() + postulate_upto(lv, file@, i as int),
                report.file == old(report).file,
            decreases ls.len() - i,
        {
            proof {
                assert(lv[i as int] == ls@[i as int]@);
            }
            let ghost before = report.diags();
            if opener(&ls[i]) && !justified_above(&ls, i) {
                let d = crate::diagnostic::diagnostic(
                    "unjustified-postulate",
                    Severity::HardBlock,
                    file,
                    String::from_str("`postulate` without an adjacent `-- JUSTIFY:` comment"),
                    Some(i + 1),
                );
                report.push(d);
                assert(postulate_finding(lv, file@, i as int, lv[i as int]) =~= seq![d@]);
                assert(report.diags() =~= before + seq![d@]);
            } else {
                assert(postulate_finding(lv, file@, i as int, lv[i as int]) =~= Seq::<DiagView>::empty());
            }
            assert(report.diags() =~= old(report).diags() + postulate_upto(lv, file@, i + 1));
            i = i + 1;
        }
        Ok(())
    }
}

} // verus!
