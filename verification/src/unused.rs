//! Reading what `agda-unused` reports (the `unused-import` rule). The tool
//! prints a JSON wrapper `{ "type": "none" | "unused" | "error", "message":
//! … }`; for `unused` the message holds location/description pairs
//!
//! ```text
//! /abs/path/File.agda:line,col-col
//!   unused import ‘Name’
//! ```
//!
//! which are re-emitted as `unused-import` warnings.

use vstd::prelude::*;
use crate::diagnostic::{diagnostic, DiagView, Diagnostic, Severity};
use crate::prover::rocq::last_occ;
use crate::text::{chars_of, contains, first_occ, find_first, has_char, lines, occurs_at, rfind, slice_vec, split_lines, string_of, trim, trim_vec, views};

verus! {

/// The rule name re-emitted findings carry.
pub const RULE_NAME: &'static str = "unused-import";

/// The result of an `agda-unused` pass over one file.
#[derive(Clone, Debug)]
pub struct UnusedCheck {
    /// Whether the `agda-unused` binary was found and executed.
    pub available: bool,
    /// The `type` field of the JSON wrapper, when the tool ran.
    pub kind: Option<String>,
    /// Findings located in the checked file, as `unused-import` warnings.
    pub diagnostics: Vec<Diagnostic>,
}

impl Default for UnusedCheck {
    /// The tool did not run: nothing known, nothing found.
    fn default() -> (c: UnusedCheck)
        ensures
            !c.available,
            c.kind is None,
            c.diagnostics@.len() == 0,
    {
        UnusedCheck { available: false, kind: None, diagnostics: Vec::new() }
    }
}

/// The outermost `{ … }` of `s`: from its first `{` to its last `}`, when
/// both exist in that order.
pub open spec fn json_span(s: Seq<char>) -> Option<Seq<char>> {
    if contains(s, "{"@) && contains(s, "}"@) && last_occ(s, "}"@) >= first_occ(s, "{"@) {
        Some(s.subrange(first_occ(s, "{"@), last_occ(s, "}"@) + 1))
    } else {
        None
    }
}

/// Extracts the outermost `{ … }` JSON object from `s`, whatever text is
/// printed around it.
pub fn extract_json(s: &str) -> (r: Option<String>)
    ensures
        r matches Some(j) ==> json_span(s@) == Some(j@),
        r is None ==> json_span(s@) is None,
{
    let cs = chars_of(s);
    let open = chars_of("{");
    let close = chars_of("}");
    proof {
        reveal_strlit("{");
        reveal_strlit("}");
    }
    let start = match find_first(&cs, &open) {
        Some(a) => a,
        None => return None,
    };
    let end = match rfind(&cs, &close) {
        Some(b) => b,
        None => return None,
    };
    proof {
        let k = last_occ(cs@, close@);
        assert(contains(cs@, close@));
        assert(occurs_at(cs@, close@, k) && forall|j: int| k < j ==> !occurs_at(cs@, close@, j));
        if k < end {
            assert(!occurs_at(cs@, close@, end as int));
        }
        if end < k {
            assert(!occurs_at(cs@, close@, k));
        }
        assert(occurs_at(cs@, close@, end as int));
    }
    if end >= start {
        let total = cs.len();
        assert(end < total);
        Some(string_of(&slice_vec(&cs, start, end + 1)))
    } else {
        None
    }
}

/// An ASCII digit.
pub open spec fn is_digit(c: char) -> bool {
    '0' <= c && c <= '9'
}

/// How many leading characters of `s` are not digits.
pub open spec fn lead_nondigits(s: Seq<char>) -> nat
    decreases s.len(),
{
    if s.len() > 0 && !is_digit(s[0]) { 1 + lead_nondigits(s.drop_first()) } else { 0 }
}

/// How many leading characters of `s` are digits.
pub open spec fn lead_digits(s: Seq<char>) -> nat
    decreases s.len(),
{
    if s.len() > 0 && is_digit(s[0]) { 1 + lead_digits(s.drop_first()) } else { 0 }
}

/// The first run of digits in `s` (empty when it has none).
pub open spec fn first_digit_run(s: Seq<char>) -> Seq<char> {
    let t = s.skip(lead_nondigits(s) as int);
    t.take(lead_digits(t) as int)
}

/// The number a run of decimal digits denotes.
pub open spec fn decimal(ds: Seq<char>) -> int
    decreases ds.len(),
{
    if ds.len() == 0 { 0 } else { decimal(ds.drop_last()) * 10 + (ds.last() as int - '0' as int) }
}

/// A location line's line number: the first run of digits after the
/// marker, when there is one and it fits a `usize`.
pub open spec fn line_number(rest: Seq<char>) -> Option<usize> {
    let ds = first_digit_run(rest);
    if ds.len() > 0 && decimal(ds) <= usize::MAX { Some(decimal(ds) as usize) } else { None }
}

/// A location line `…/File.agda:line,col-col`, trimmed, read at its last
/// `.agda:`: the path up to and including `.agda`, and the line number.
#[verifier::opaque]
pub open spec fn location_spec(line: Seq<char>) -> Option<(Seq<char>, Option<usize>)> {
    let t = trim(line);
    if contains(t, ".agda:"@) {
        let i = last_occ(t, ".agda:"@);
        Some((t.take(i + 5), line_number(t.skip(i + 6))))
    } else {
        None
    }
}

fn skip_count(s: &[char], digits: bool) -> (n: usize)
    ensures
        digits ==> n == lead_digits(s@),
        !digits ==> n == lead_nondigits(s@),
        n <= s@.len(),
{
    let mut i: usize = 0;
    assert(s@.skip(0) =~= s@);
    while i < s.len() && (('0' <= s[i] && s[i] <= '9') == digits)
        invariant
            i <= s@.len(),
            digits ==> lead_digits(s@) == i + lead_digits(s@.skip(i as int)),
            !digits ==> lead_nondigits(s@) == i + lead_nondigits(s@.skip(i as int)),
        decreases s.len() - i,
    {
        assert(s@.skip(i as int)[0] == s@[i as int]);
        assert(s@.skip(i as int).drop_first() =~= s@.skip(i + 1));
        i = i + 1;
    }
    proof {
        if i < s@.len() {
            assert(s@.skip(i as int)[0] == s@[i as int]);
        }
    }
    i
}

proof fn lemma_decimal_grows(ds: Seq<char>, c: char)
    requires
        is_digit(c),
        decimal(ds) >= 0,
    ensures
        decimal(ds.push(c)) >= decimal(ds),
        decimal(ds.push(c)) == decimal(ds) * 10 + (c as int - '0' as int),
{
    assert(ds.push(c).drop_last() =~= ds);
    let v = decimal(ds);
    assert(v * 10 >= v) by (nonlinear_arith)
        requires v >= 0;
}

proof fn lemma_decimal_nonneg(ds: Seq<char>)
    requires
        forall|i: int| 0 <= i < ds.len() ==> is_digit(#[trigger] ds[i]),
    ensures
        decimal(ds) >= 0,
    decreases ds.len(),
{
    if ds.len() > 0 {
        lemma_decimal_nonneg(ds.drop_last());
        assert(is_digit(ds[ds.len() - 1]));
        let v = decimal(ds.drop_last());
        assert(v * 10 >= 0) by (nonlinear_arith)
            requires v >= 0;
    }
}

fn parse_line_number(rest: &[char]) -> (r: Option<usize>)
    ensures
        r == line_number(rest@),
{
    let a = skip_count(rest, false);
    let t = slice_vec(rest, a, rest.len());
    assert(t@ =~= rest@.skip(a as int));
    let b = skip_count(&t, true);
    let ds = slice_vec(&t, 0, b);
    assert(ds@ =~= first_digit_run(rest@));
    proof {
        assert forall|i: int| 0 <= i < ds@.len() implies is_digit(#[trigger] ds@[i]) by {
            lemma_lead_digits(t@, i);
        }
    }
    if ds.len() == 0 {
        return None;
    }
    let mut v: usize = 0;
    let mut ok = true;
    let mut i: usize = 0;
    while i < ds.len()
        invariant
            i <= ds@.len(),
            forall|j: int| 0 <= j < ds@.len() ==> is_digit(#[trigger] ds@[j]),
            ok ==> v as int == decimal(ds@.take(i as int)),
            !ok ==> decimal(ds@.take(i as int)) > usize::MAX,
        decreases ds.len() - i,
    {
        let c = ds[i];
        assert(is_digit(ds@[i as int]));
        let d: usize = (c as u32 - '0' as u32) as usize;
        proof {
            assert(ds@.take(i + 1) =~= ds@.take(i as int).push(c));
            assert forall|j: int| 0 <= j < ds@.take(i as int).len() implies is_digit(#[trigger] ds@.take(i as int)[j]) by {
                assert(ds@.take(i as int)[j] == ds@[j]);
            }
            lemma_decimal_nonneg(ds@.take(i as int));
            lemma_decimal_grows(ds@.take(i as int), c);
        }
        if ok {
            match v.checked_mul(10) {
                Some(m) => match m.checked_add(d) {
                    Some(n) => {
                        v = n;
                    },
                    None => {
                        ok = false;
                    },
                },
                None => {
                    ok = false;
                },
            }
        }
        i = i + 1;
    }
    assert(ds@.take(ds@.len() as int) =~= ds@);
    if ok {
        Some(v)
    } else {
        None
    }
}

proof fn lemma_lead_digits(t: Seq<char>, i: int)
    requires
        0 <= i < lead_digits(t),
    ensures
        i < t.len(),
        is_digit(t[i]),
    decreases t.len(),
{
    assert(t.len() > 0 && is_digit(t[0]));
    if i > 0 {
        lemma_lead_digits(t.drop_first(), i - 1);
        assert(t.drop_first()[i - 1] == t[i]);
    }
}

/// Parses a location line `…/File.agda:line,col-col` into the file path
/// and the 1-based line number; the column part is optional.
pub fn parse_location(line: &str) -> (r: Option<(String, Option<usize>)>)
    ensures
        r matches Some((f, l)) ==> location_spec(line@) == Some((f@, l)),
        r is None ==> location_spec(line@) is None,
{
    let cs = chars_of(line);
    location_of(&cs)
}

fn location_of(cs: &[char]) -> (r: Option<(String, Option<usize>)>)
    ensures
        r matches Some((f, l)) ==> location_spec(cs@) == Some((f@, l)),
        r is None ==> location_spec(cs@) is None,
{
    reveal(location_spec);
    let t = trim_vec(cs);
    let marker = chars_of(".agda:");
    proof {
        reveal_strlit(".agda:");
    }
    match rfind(&t, &marker) {
        None => None,
        Some(i) => {
            proof {
                let k = last_occ(t@, marker@);
                assert(contains(t@, marker@));
                assert(occurs_at(t@, marker@, k) && forall|j: int| k < j ==> !occurs_at(t@, marker@, j));
                if k < i {
                    assert(!occurs_at(t@, marker@, i as int));
                }
                if i < k {
                    assert(!occurs_at(t@, marker@, k));
                }
            }
            let total = t.len();
            assert(i + 6 <= total);
            let file = slice_vec(&t, 0, i + 5);
            let rest = slice_vec(&t, i + 6, total);
            assert(rest@ =~= t@.skip(i + 6));
            let ln = parse_line_number(&rest);
            Some((string_of(&file), ln))
        },
    }
}

/// The findings from line `i` on: each location line with the description
/// on the next line (trimmed), when that line is neither blank nor itself a
/// location; otherwise an empty description.
pub open spec fn findings_from(ls: Seq<Seq<char>>, i: int) -> Seq<(Seq<char>, Option<usize>, Seq<char>)>
    decreases ls.len() - i,
{
    if i < 0 || i >= ls.len() {
        Seq::empty()
    } else {
        match location_spec(ls[i]) {
            Some((f, l)) => {
                let has_desc = i + 1 < ls.len() && trim(ls[i + 1]).len() > 0 && location_spec(ls[i + 1]) is None;
                if has_desc {
                    seq![(f, l, trim(ls[i + 1]))] + findings_from(ls, i + 2)
                } else {
                    seq![(f, l, Seq::empty())] + findings_from(ls, i + 1)
                }
            },
            None => findings_from(ls, i + 1),
        }
    }
}

/// The views of parsed findings.
pub open spec fn finding_views(fs: Seq<(String, Option<usize>, String)>) -> Seq<(Seq<char>, Option<usize>, Seq<char>)> {
    fs.map_values(|f: (String, Option<usize>, String)| (f.0@, f.1, f.2@))
}

#[verifier::spinoff_prover]
fn finding_at(ls: &Vec<Vec<char>>, i: usize) -> (r: Option<((String, Option<usize>, String), usize)>)
    requires
        i < ls@.len(),
    ensures
        r is None ==> location_spec(views(ls@)[i as int]) is None
            && findings_from(views(ls@), i as int) == findings_from(views(ls@), i + 1),
        r matches Some((f, step)) ==> (step == 1 || step == 2) && (step == 2 ==> i + 1 < ls@.len()) && findings_from(views(ls@), i as int)
            == seq![(f.0@, f.1, f.2@)] + findings_from(views(ls@), i + step),
{
    let ghost lv = views(ls@);
    let n = ls.len();
    assert(lv[i as int] == ls@[i as int]@);
    match location_of(&ls[i]) {
        Some((f, l)) => {
            let mut desc: Vec<char> = Vec::new();
            let mut step: usize = 1;
            if i + 1 < n {
                assert(lv[i + 1] == ls@[i + 1]@);
                let next = trim_vec(&ls[i + 1]);
                if next.len() > 0 && location_of(&ls[i + 1]).is_none() {
                    desc = next;
                    step = 2;
                }
            }
            Some(((f, l, string_of(&desc)), step))
        },
        None => None,
    }
}

/// Parses the findings out of an `agda-unused` message: each location line
/// (`…/File.agda:line,col-col`) with its indented description line.
pub fn parse_findings(message: &str) -> (r: Vec<(String, Option<usize>, String)>)
    ensures
        finding_views(r@) == findings_from(lines(message@), 0),
{
    let cs = chars_of(message);
    let ls = split_lines(&cs);
    let ghost lv = views(ls@);
    let mut out: Vec<(String, Option<usize>, String)> = Vec::new();
    let mut i: usize = 0;
    assert(finding_views(out@) + findings_from(lv, 0) =~= findings_from(lv, 0));
    while i < ls.len()
        invariant
            i <= ls@.len(),
            lv == views(ls@),
            lv == lines(message@),
            finding_views(out@) + findings_from(lv, i as int) == findings_from(lv, 0),
        decreases ls.len() - i,
    {
        let ghost before = finding_views(out@);
        match finding_at(&ls, i) {
            Some((f, step)) => {
                let ghost fv = (f.0@, f.1, f.2@);
                out.push(f);
                assert(finding_views(out@) =~= before.push(fv));
                assert(before + findings_from(lv, i as int) =~= finding_views(out@) + findings_from(lv, i + step));
                i = i + step;
            },
            None => {
                i = i + 1;
            },
        }
    }
    assert(findings_from(lv, i as int) =~= Seq::<(Seq<char>, Option<usize>, Seq<char>)>::empty());
    assert(finding_views(out@) + Seq::<(Seq<char>, Option<usize>, Seq<char>)>::empty() =~= finding_views(out@));
    out
}

/// The message of a finding: its description, or `unused code` when it
/// has none.
pub open spec fn finding_message(desc: Seq<char>) -> Seq<char> {
    if desc.len() == 0 { "unused code"@ } else { desc }
}

/// The `unused-import` warning for a finding in `file`.
pub fn finding_diagnostic(file: &str, line: Option<usize>, desc: &str) -> (d: Diagnostic)
    ensures
        d@ == (DiagView { rule: RULE_NAME@, severity: Severity::Warn, file: file@, message: finding_message(desc@), line }),
{
    let msg = if chars_of(desc).len() == 0 { String::from_str("unused code") } else { String::from_str(desc) };
    diagnostic(RULE_NAME, Severity::Warn, file, msg, line)
}


/// The note printed when `agda-unused` is not on the `PATH`.
pub const TOOL_ABSENT_NOTE: &'static str = "note: `agda-unused` not found on PATH; skipping unused-import findings";

/// The note printed when `agda-unused` could not analyse some file.
pub const INCOMPLETE_NOTE: &'static str = "note: agda-unused could not analyse some files; unused-import findings may be incomplete";

/// How an `agda-unused` pass over the scanned files is going: whether the
/// tool has been found so far, and whether it reported an error for some
/// file.
#[derive(Clone, Copy, Debug)]
pub struct UnusedTally {
    pub available: bool,
    pub saw_error: bool,
}

impl UnusedTally {
    /// Before the first file: available, no error seen.
    pub fn new() -> (t: UnusedTally)
        ensures
            t.available,
            !t.saw_error,
    {
        UnusedTally { available: true, saw_error: false }
    }

    /// Records the answer for the next file: `None` when the tool is absent,
    /// else the `type` it reported. Returns whether the pass goes on: it
    /// stops at the first file for which the tool is absent.
    pub fn record(&mut self, kind: Option<&str>) -> (go_on: bool)
        ensures
            go_on == (kind is Some),
            final(self).available == (old(self).available && kind is Some),
            final(self).saw_error == (old(self).saw_error || (kind matches Some(k) && k@ == "error"@)),
    {
        match kind {
            None => {
                self.available = false;
                false
            },
            Some(k) => {
                let is_error = crate::text::str_eq(k, "error");
                self.saw_error = self.saw_error || is_error;
                true
            },
        }
    }

    /// The note to print after the pass, if any: the tool's absence first,
    /// then an incomplete analysis.
    pub fn note(&self) -> (r: Option<&'static str>)
        ensures
            !self.available ==> r == Some(TOOL_ABSENT_NOTE),
            self.available && self.saw_error ==> r == Some(INCOMPLETE_NOTE),
            self.available && !self.saw_error ==> r is None,
    {
        if !self.available {
            Some(TOOL_ABSENT_NOTE)
        } else if self.saw_error {
            Some(INCOMPLETE_NOTE)
        } else {
            None
        }
    }
}

} // verus!
