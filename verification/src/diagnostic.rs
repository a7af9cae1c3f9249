//! Lint diagnostics and per-file reports.

use vstd::prelude::*;

verus! {

/// How serious a finding is.
#[derive(Clone, Copy, Debug, PartialEq, Eq, Structural)]
pub enum Severity {
    /// Forbids the `working -> proven` transition.
    HardBlock,
    /// Surfaced, non-blocking.
    Warn,
}

/// One lint finding.
#[derive(Clone, Debug)]
pub struct Diagnostic {
    pub rule: String,
    pub severity: Severity,
    pub file: String,
    pub message: String,
    /// 1-based line, when the finding has one.
    pub line: Option<usize>,
}

impl Diagnostic {
    /// A field-by-field copy.
    pub fn copy(&self) -> (d: Diagnostic)
        ensures
            d@ == self@,
    {
        Diagnostic {
            rule: self.rule.clone(),
            severity: self.severity,
            file: self.file.clone(),
            message: self.message.clone(),
            line: self.line,
        }
    }
}

/// The mathematical content of a diagnostic.
pub struct DiagView {
    pub rule: Seq<char>,
    pub severity: Severity,
    pub file: Seq<char>,
    pub message: Seq<char>,
    pub line: Option<usize>,
}

impl View for Diagnostic {
    type V = DiagView;

    open spec fn view(&self) -> DiagView {
        DiagView {
            rule: self.rule@,
            severity: self.severity,
            file: self.file@,
            message: self.message@,
            line: self.line,
        }
    }
}

/// The views of a sequence of diagnostics.
pub open spec fn diag_views(ds: Seq<Diagnostic>) -> Seq<DiagView> {
    ds.map_values(|d: Diagnostic| d@)
}

/// Builds a diagnostic from its parts.
pub fn diagnostic(
    rule: &str,
    severity: Severity,
    file: &str,
    message: String,
    line: Option<usize>,
) -> (d: Diagnostic)
    ensures
        d@ == (DiagView { rule: rule@, severity, file: file@, message: message@, line }),
{
    Diagnostic {
        rule: String::from_str(rule),
        severity,
        file: String::from_str(file),
        message,
        line,
    }
}

/// All findings for one file.
#[derive(Clone, Debug)]
pub struct LintReport {
    pub file: String,
    pub diagnostics: Vec<Diagnostic>,
}

/// The findings of severity `sev`, in order.
pub open spec fn with_sev(ds: Seq<DiagView>, sev: Severity) -> Seq<DiagView>
    decreases ds.len(),
{
    if ds.len() == 0 {
        ds
    } else if ds.last().severity == sev {
        with_sev(ds.drop_last(), sev).push(ds.last())
    } else {
        with_sev(ds.drop_last(), sev)
    }
}

impl LintReport {
    /// The diagnostics' views.
    pub open spec fn diags(&self) -> Seq<DiagView> {
        diag_views(self.diagnostics@)
    }

    /// An empty report for `file`.
    pub fn new(file: String) -> (r: LintReport)
        ensures
            r.file@ == file@,
            r.diagnostics@.len() == 0,
    {
        LintReport { file, diagnostics: Vec::new() }
    }

    /// Appends a finding.
    pub fn push(&mut self, d: Diagnostic)
        ensures
            final(self).file == old(self).file,
            final(self).diagnostics@ == old(self).diagnostics@.push(d),
            final(self).diags() == old(self).diags().push(d@),
    {
        self.diagnostics.push(d);
        assert(self.diags() =~= old(self).diags().push(d@));
    }

    /// Whether any finding is a hard block.
    pub fn has_hard_block(&self) -> (b: bool)
        ensures
            b == exists|i: int|
                0 <= i < self.diagnostics@.len() && self.diagnostics@[i].severity
                    == Severity::HardBlock,
    {
        let mut i: usize = 0;
        while i < self.diagnostics.len()
            invariant
                i <= self.diagnostics@.len(),
                forall|j: int| 0 <= j < i ==> self.diagnostics@[j].severity != Severity::HardBlock,
            decreases self.diagnostics.len() - i,
        {
            if self.diagnostics[i].severity == Severity::HardBlock {
                return true;
            }
            i = i + 1;
        }
        false
    }

    fn of_severity(&self, sev: Severity) -> (r: Vec<Diagnostic>)
        ensures
            diag_views(r@) == with_sev(self.diags(), sev),
    {
        let mut r: Vec<Diagnostic> = Vec::new();
        let mut i: usize = 0;
        while i < self.diagnostics.len()
            invariant
                i <= self.diagnostics@.len(),
                diag_views(r@) == with_sev(self.diags().take(i as int), sev),
            decreases self.diagnostics.len() - i,
        {
            let d = self.diagnostics[i].copy();
            proof {
                assert(self.diags().take(i + 1).drop_last() =~= self.diags().take(i as int));
            }
            if d.severity == sev {
                let ghost before = r@;
                r.push(d);
                assert(diag_views(r@) =~= diag_views(before).push(d@));
            }
            i = i + 1;
        }
        assert(self.diags().take(self.diagnostics@.len() as int) =~= self.diags());
        r
    }

    /// The hard-block findings, in order.
    pub fn hard_blocks(&self) -> (r: Vec<Diagnostic>)
        ensures
            diag_views(r@) == with_sev(self.diags(), Severity::HardBlock),
    {
        self.of_severity(Severity::HardBlock)
    }

    /// The warn findings, in order.
    pub fn warns(&self) -> (r: Vec<Diagnostic>)
        ensures
            diag_views(r@) == with_sev(self.diags(), Severity::Warn),
    {
        self.of_severity(Severity::Warn)
    }
}

} // verus!
