//! Idris2 `escape-hatch` (warn): the `%default partial` directive, a
//! `partial` modifier, the trust primitives `believe_me`, `assert_total`,
//! `assert_smaller` and `idris_crash`, and totality holes `?name`, all
//! outside a trailing ` --` comment (holes also outside string literals).

use vstd::prelude::*;
use crate::diagnostic::{DiagView, LintReport, Severity};
use crate::lint::{LintContext, LintRule, warn};
use crate::lint::escape_hatch::{hatch, flag_if, warn_when};
use crate::text::{before, before_vec, chars_of, contains, contains_seq, has_prefix, has_token, lines, split_lines, starts_with, token_in, trim_start, trim_start_vec, views};

verus! {

/// Surfaces Idris2 escape hatches.
#[derive(Clone, Copy, Debug, PartialEq, Eq, Structural)]
pub struct Idris2EscapeHatch;

/// The token separators besides white space.
pub open spec fn idris_seps() -> Seq<char> {
    seq!['(', ')', '{', '}', ';', ',']
}

/// `s` from position `i` on with the contents of double-quoted string
/// literals (quotes included) replaced by spaces; `\"` does not close a
/// literal.
pub open spec fn blank_strings_from(s: Seq<char>, i: int, in_str: bool, escaped: bool) -> Seq<char>
    decreases s.len() - i,
{
    if i < 0 || i >= s.len() {
        Seq::empty()
    } else if in_str {
        if escaped {
            seq![' '] + blank_strings_from(s, i + 1, true, false)
        } else if s[i] == '\\' {
            seq![' '] + blank_strings_from(s, i + 1, true, true)
        } else if s[i] == '"' {
            seq![' '] + blank_strings_from(s, i + 1, false, false)
        } else {
            seq![' '] + blank_strings_from(s, i + 1, true, false)
        }
    } else if s[i] == '"' {
        seq![' '] + blank_strings_from(s, i + 1, true, false)
    } else {
        seq![s[i]] + blank_strings_from(s, i + 1, false, false)
    }
}

/// `s` with its string literals blanked out.
pub open spec fn blank_strings(s: Seq<char>) -> Seq<char> {
    blank_strings_from(s, 0, false, false)
}

/// Blanks out double-quoted string literals.
pub fn strip_strings(s: &[char]) -> (r: Vec<char>)
    ensures
        r@ == blank_strings(s@),
{
    let mut out: Vec<char> = Vec::new();
    let mut in_str = false;
    let mut escaped = false;
    let mut i: usize = 0;
    while i < s.len()
        invariant
            i <= s@.len(),
            out@ + blank_strings_from(s@, i as int, in_str, escaped) == blank_strings(s@),
            !in_str ==> !escaped,
        decreases s.len() - i,
    {
        let c = s[i];
        let ghost before = out@;
        let ghost was_in = in_str;
        let ghost was_esc = escaped;
        let pushed: char;
        if in_str {
            if escaped {
                escaped = false;
            } else if c == '\\' {
                escaped = true;
            } else if c == '"' {
                in_str = false;
            }
            pushed = ' ';
        } else if c == '"' {
            in_str = true;
            pushed = ' ';
        } else {
            pushed = c;
        }
        out.push(pushed);
        assert(blank_strings_from(s@, i as int, was_in, was_esc) == seq![pushed] + blank_strings_from(s@, i + 1, in_str, escaped));
        assert(out@ + blank_strings_from(s@, i + 1, in_str, escaped) =~= before + (seq![pushed] + blank_strings_from(s@, i + 1, in_str, escaped)));
        i = i + 1;
    }
    assert(out@ + Seq::<char>::empty() =~= out@);
    out
}

/// A character that may precede a hole's `?`.
pub open spec fn hole_lead(c: char) -> bool {
    c == ' ' || c == '\t' || c == '(' || c == '[' || c == '{' || c == ',' || c == ';' || c == '='
}

/// An ASCII letter.
pub open spec fn ascii_alpha(c: char) -> bool {
    ('a' <= c && c <= 'z') || ('A' <= c && c <= 'Z')
}

/// A character that continues a hole's name.
pub open spec fn hole_char(c: char) -> bool {
    ascii_alpha(c) || ('0' <= c && c <= '9') || c == '_' || c == '\''
}

/// The end of the run of name characters of `s` starting at `j`.
pub open spec fn name_end(s: Seq<char>, j: int) -> int
    decreases s.len() - j,
{
    if j < 0 || j >= s.len() || !hole_char(s[j]) {
        j
    } else {
        name_end(s, j + 1)
    }
}

/// A hole starts at `i`: a `?` at a token's start followed by a letter or
/// `_`.
pub open spec fn hole_at(s: Seq<char>, i: int) -> bool {
    0 <= i && i + 1 < s.len() && s[i] == '?' && (i == 0 || hole_lead(s[i - 1])) && (ascii_alpha(s[i + 1]) || s[i + 1] == '_')
}

/// The hole names of `s` from position `i` on.
pub open spec fn holes_from(s: Seq<char>, i: int) -> Seq<Seq<char>>
    decreases s.len() - i,
{
    if i < 0 || i >= s.len() {
        Seq::empty()
    } else if hole_at(s, i) {
        let j = name_end(s, i + 1);
        proof {
            lemma_name_end(s, i + 1);
            lemma_name_end(s, i + 2);
        }
        if j <= i {
            Seq::empty()
        } else {
            seq![s.subrange(i + 1, j)] + holes_from(s, j)
        }
    } else {
        holes_from(s, i + 1)
    }
}

fn is_hole_lead(c: char) -> (r: bool)
    ensures
        r == hole_lead(c),
{
    c == ' ' || c == '\t' || c == '(' || c == '[' || c == '{' || c == ',' || c == ';' || c == '='
}

fn is_ascii_alpha(c: char) -> (r: bool)
    ensures
        r == ascii_alpha(c),
{
    ('a' <= c && c <= 'z') || ('A' <= c && c <= 'Z')
}

fn is_hole_char(c: char) -> (r: bool)
    ensures
        r == hole_char(c),
{
    is_ascii_alpha(c) || ('0' <= c && c <= '9') || c == '_' || c == '\''
}

pub proof fn lemma_name_end(s: Seq<char>, j: int)
    requires
        0 <= j <= s.len(),
    ensures
        j <= name_end(s, j) <= s.len(),
    decreases s.len() - j,
{
    if j < s.len() && hole_char(s[j]) {
        lemma_name_end(s, j + 1);
    }
}

/// The totality-hole names of `code`, in order.
pub fn holes(code: &[char]) -> (r: Vec<Vec<char>>)
    ensures
        views(r@) == holes_from(code@, 0),
{
    let mut out: Vec<Vec<char>> = Vec::new();
    let mut i: usize = 0;
    while i < code.len()
        invariant
            i <= code@.len(),
            views(out@) + holes_from(code@, i as int) == holes_from(code@, 0),
        decreases code.len() - i,
    {
        let at = code[i] == '?' && (i == 0 || is_hole_lead(code[i - 1])) && i + 1 < code.len() && (
        is_ascii_alpha(code[i + 1]) || code[i + 1] == '_');
        assert(at == hole_at(code@, i as int));
        if at {
            let mut j = i + 1;
            proof {
                lemma_name_end(code@, i + 1);
            }
            while j < code.len() && is_hole_char(code[j])
                invariant
                    i + 1 <= j <= code@.len(),
                    name_end(code@, i + 1) == name_end(code@, j as int),
                decreases code.len() - j,
            {
                j = j + 1;
            }
            assert(j == name_end(code@, j as int));
            assert(hole_char(code@[i + 1]));
            assert(j > i + 1) by {
                if j == i + 1 {
                    assert(name_end(code@, i + 1) == name_end(code@, i + 2));
                }
            }
            let name = crate::text::slice_vec(code, i + 1, j);
            let ghost before = views(out@);
            out.push(name);
            assert(views(out@) =~= before.push(name@));
            assert(holes_from(code@, i as int) == seq![code@.subrange(i + 1, j as int)] + holes_from(code@, j as int));
            assert(views(out@) + holes_from(code@, j as int) =~= before + holes_from(code@, i as int));
            i = j;
        } else {
            i = i + 1;
        }
    }
    assert(views(out@) + Seq::<Seq<char>>::empty() =~= views(out@));
    out
}

/// One warning per hole, at 1-based line `line`.
pub open spec fn hole_diags(file: Seq<char>, line: int, hs: Seq<Seq<char>>) -> Seq<DiagView>
    decreases hs.len(),
{
    if hs.len() == 0 {
        Seq::empty()
    } else {
        hole_diags(file, line, hs.drop_last()).push(hatch(file, line, "totality hole `?"@ + hs.last() + "`"@))
    }
}

/// The partiality finding on line `i` (0-based), if any.
pub open spec fn idris_partiality(file: Seq<char>, i: int, l: Seq<char>) -> Seq<DiagView> {
    let t = trim_start(l);
    let code = before(l, " --"@);
    if starts_with(t, "%default"@) && contains(t, "partial"@) {
        seq![hatch(file, i + 1, "totality escape directive `%default partial`"@)]
    } else if token_in(code, "partial"@, idris_seps()) {
        seq![hatch(file, i + 1, "totality opt-out `partial` modifier"@)]
    } else {
        Seq::empty()
    }
}

/// The trust-primitive findings in `code` on line `i` (0-based).
pub open spec fn idris_prims(file: Seq<char>, i: int, code: Seq<char>) -> Seq<DiagView> {
    flag_if(token_in(code, "believe_me"@, idris_seps()), hatch(file, i + 1, "escape primitive `believe_me`"@))
        + flag_if(token_in(code, "assert_total"@, idris_seps()), hatch(file, i + 1, "escape primitive `assert_total`"@))
        + flag_if(token_in(code, "assert_smaller"@, idris_seps()), hatch(file, i + 1, "escape primitive `assert_smaller`"@))
        + flag_if(token_in(code, "idris_crash"@, idris_seps()), hatch(file, i + 1, "escape primitive `idris_crash`"@))
}

/// The findings on line `i` (0-based).
pub open spec fn idris_hatches(file: Seq<char>, i: int, l: Seq<char>) -> Seq<DiagView> {
    if starts_with(trim_start(l), "--"@) {
        Seq::empty()
    } else {
        let code = before(l, " --"@);
        idris_partiality(file, i, l) + idris_prims(file, i, code) + hole_diags(file, i + 1, holes_from(blank_strings(code), 0))
    }
}

/// The findings of the first `k` lines.
pub open spec fn idris_hatches_upto(ls: Seq<Seq<char>>, file: Seq<char>, k: int) -> Seq<DiagView>
    decreases k,
{
    if k <= 0 || k > ls.len() {
        Seq::empty()
    } else {
        idris_hatches_upto(ls, file, k - 1) + idris_hatches(file, k - 1, ls[k - 1])
    }
}

fn push_holes(file: &str, line_no: usize, hs: &Vec<Vec<char>>, report: &mut LintReport)
    ensures
        final(report).file == old(report).file,
        final(report).diags() == old(report).diags() + hole_diags(file@, line_no as int, views(hs@)),
{
    let ghost mid = report.diags();
    let mut k: usize = 0;
    while k < hs.len()
        invariant
            k <= hs@.len(),
            report.diags() == mid + hole_diags(file@, line_no as int, views(hs@).take(k as int)),
            report.file == old(report).file,
        decreases hs.len() - k,
    {
        let mut msg = String::from_str("totality hole `?");
        let name = crate::text::string_of(&hs[k]);
        msg.append(name.as_str());
        msg.append("`");
        let d = warn("escape-hatch", file, line_no, msg);
        report.push(d);
        proof {
            assert(views(hs@).take(k + 1).drop_last() =~= views(hs@).take(k as int));
            assert(views(hs@).take(k + 1).last() == hs@[k as int]@);
        }
        assert(report.diags() =~= mid + hole_diags(file@, line_no as int, views(hs@).take(k + 1)));
        k = k + 1;
    }
    assert(views(hs@).take(hs@.len() as int) =~= views(hs@));
}

fn partiality_line(file: &str, i: usize, l: &[char], t: &[char], code: &[char], seps: &[char], report: &mut LintReport)
    requires
        i < usize::MAX,
        seps@ == idris_seps(),
        t@ == trim_start(l@),
        code@ == before(l@, " --"@),
    ensures
        final(report).file == old(report).file,
        final(report).diags() == old(report).diags() + idris_partiality(file@, i as int, l@),
{
    if has_prefix(t, &chars_of("%default")) && contains_seq(t, &chars_of("partial")) {
        warn_when(true, "escape-hatch", file, i + 1, "totality escape directive `%default partial`", report);
    } else {
        warn_when(has_token(code, &chars_of("partial"), seps), "escape-hatch", file, i + 1, "totality opt-out `partial` modifier", report);
    }
}

fn prims_line(file: &str, i: usize, code: &[char], seps: &[char], report: &mut LintReport)
    requires
        i < usize::MAX,
        seps@ == idris_seps(),
    ensures
        final(report).file == old(report).file,
        final(report).diags() == old(report).diags() + idris_prims(file@, i as int, code@),
{
    let ghost start = report.diags();
    warn_when(has_token(code, &chars_of("believe_me"), seps), "escape-hatch", file, i + 1, "escape primitive `believe_me`", report);
    warn_when(has_token(code, &chars_of("assert_total"), seps), "escape-hatch", file, i + 1, "escape primitive `assert_total`", report);
    warn_when(has_token(code, &chars_of("assert_smaller"), seps), "escape-hatch", file, i + 1, "escape primitive `assert_smaller`", report);
    warn_when(has_token(code, &chars_of("idris_crash"), seps), "escape-hatch", file, i + 1, "escape primitive `idris_crash`", report);
    assert(report.diags() =~= start + idris_prims(file@, i as int, code@));
}

fn idris_line(file: &str, i: usize, l: &[char], seps: &[char], report: &mut LintReport)
    requires
        i < usize::MAX,
        seps@ == idris_seps(),
    ensures
        final(report).file == old(report).file,
        final(report).diags() == old(report).diags() + idris_hatches(file@, i as int, l@),
{
    let ghost start = report.diags();
    let t = trim_start_vec(l);
    if !has_prefix(&t, &chars_of("--")) {
        let code = before_vec(l, &chars_of(" --"));
        partiality_line(file, i, l, &t, &code, seps, report);
        let ghost a = report.diags();
        prims_line(file, i, &code, seps, report);
        let ghost b = report.diags();
        let blanked = strip_strings(&code);
        let hs = holes(&blanked);
        push_holes(file, i + 1, &hs, report);
        assert(report.diags() =~= start + idris_hatches(file@, i as int, l@));
    } else {
        assert(idris_hatches(file@, i as int, l@) =~= Seq::<DiagView>::empty());
        assert(report.diags() =~= start + idris_hatches(file@, i as int, l@));
    }
}

impl LintRule for Idris2EscapeHatch {
    open spec fn rule_name(&self) -> Seq<char> {
        "escape-hatch"@
    }

    /// Reads only `text`, so it always runs.
    open spec fn fails_with(&self, file: Seq<char>, text: Seq<char>, ctx: LintContext, e: Seq<char>) -> bool {
        false
    }

    open spec fn findings(&self, file: Seq<char>, text: Seq<char>, ctx: LintContext) -> Option<Seq<DiagView>> {
        let ls = lines(text);
        Some(idris_hatches_upto(ls, file, ls.len() as int))
    }

    fn name(&self) -> (r: &'static str) {
        "escape-hatch"
    }

    fn run(&self, file: &str, text: &str, ctx: &LintContext, report: &mut LintReport) -> (r: Result<(), String>) {
        let cs = chars_of(text);
        let ls = split_lines(&cs);
        let ghost lv = views(ls@);
        let seps: [char; 6] = ['(', ')', '{', '}', ';', ','];
        assert(seps@ =~= idris_seps());
        let mut i: usize = 0;
        while i < ls.len()
            invariant
                i <= ls@.len(),
                lv == views(ls@),
                lv == lines(text@),
                seps@ == idris_seps(),
                report.diags() == old(report).diags() + idris_hatches_upto(lv, file@, i as int),
                report.file == old(report).file,
            decreases ls.len() - i,
        {
            let l = &ls[i];
            assert(lv[i as int] == l@);
            idris_line(file, i, l, &seps, report);
            assert(report.diags() =~= old(report).diags() + idris_hatches_upto(lv, file@, i + 1));
            i = i + 1;
        }
        Ok(())
    }
}

} // verus!
