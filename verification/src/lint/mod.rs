//! The lint engine: rules that read one source text and report findings.
//! A rule pack is a list of rules run in order; a rule that cannot run
//! (a file it needs cannot be read) stops the pack with an error.

use vstd::prelude::*;
use crate::diagnostic::{DiagView, Diagnostic, LintReport, Severity};
use crate::graph::SourceTree;

pub mod escape_hatch;
pub mod orphan_module;
pub mod postulate;
pub mod safe_pragma;
pub mod tab_mix;
pub mod unpinned_headline;
pub mod coq;
pub mod idris2;
pub mod isabelle;
pub mod lean;

use escape_hatch::EscapeHatch;
use orphan_module::OrphanModule;
use postulate::UnjustifiedPostulate;
use safe_pragma::SafePragma;
use tab_mix::TabMix;
use unpinned_headline::UnpinnedHeadline;
use coq::CoqEscapeHatch;
use idris2::Idris2EscapeHatch;
use isabelle::IsabelleEscapeHatch;
use lean::LeanEscapeHatch;

verus! {

/// What every rule may consult besides the file itself.
#[derive(Clone, Debug)]
pub struct LintContext {
    /// The include root; module names are computed relative to it.
    pub include_root: String,
    /// The root modules (`All.agda`, `Smoke.agda`, …). Reachability is
    /// taken from the union of them.
    pub entry_modules: Vec<String>,
    /// The files of the source tree, read once.
    pub tree: SourceTree,
}

/// A lint rule.
pub trait LintRule {
    /// The rule's name.
    spec fn rule_name(&self) -> Seq<char>;

    /// What the rule finds in `text`, the contents of `file`; `None` when
    /// the rule cannot run (a file it needs cannot be read).
    spec fn findings(&self, file: Seq<char>, text: Seq<char>, ctx: LintContext) -> Option<Seq<DiagView>>;

    /// `e` is an error the rule may report when it cannot run on `text`,
    /// the contents of `file`.
    spec fn fails_with(&self, file: Seq<char>, text: Seq<char>, ctx: LintContext, e: Seq<char>) -> bool;

    /// The rule's name.
    fn name(&self) -> (r: &'static str)
        ensures
            r@ == self.rule_name(),
    ;

    /// Runs the rule on `text`, the contents of `file`, appending its
    /// findings to `report`.
    fn run(&self, file: &str, text: &str, ctx: &LintContext, report: &mut LintReport) -> (r: Result<(), String>)
        ensures
            r is Ok <==> self.findings(file@, text@, *ctx) is Some,
            r is Ok ==> final(report).diags() == old(report).diags() + self.findings(file@, text@, *ctx)->0,
            r is Err ==> final(report).diags() == old(report).diags(),
            r matches Err(e) ==> self.fails_with(file@, text@, *ctx, e@),
            final(report).file == old(report).file,
    ;
}

/// Operator-configurable lint settings.
#[derive(Clone, Debug)]
pub struct RuleConfig {
    /// The pattern a top-level name must match to be a pinnable headline.
    pub headline_pattern: String,
}

impl RuleConfig {
    /// The default settings: the default headline pattern.
    pub fn default() -> (c: RuleConfig)
        ensures
            c.headline_pattern@ == unpinned_headline::DEFAULT_HEADLINE_PATTERN@,
    {
        RuleConfig { headline_pattern: String::from_str(unpinned_headline::DEFAULT_HEADLINE_PATTERN) }
    }
}

/// One rule of a pack.
#[derive(Clone, Debug)]
pub enum Rule {
    SafePragma(SafePragma),
    OrphanModule(OrphanModule),
    UnjustifiedPostulate(UnjustifiedPostulate),
    EscapeHatch(EscapeHatch),
    TabMix(TabMix),
    UnpinnedHeadline(UnpinnedHeadline),
    CoqEscapeHatch(CoqEscapeHatch),
    Idris2EscapeHatch(Idris2EscapeHatch),
    IsabelleEscapeHatch(IsabelleEscapeHatch),
    LeanEscapeHatch(LeanEscapeHatch),
}

impl LintRule for Rule {
    open spec fn rule_name(&self) -> Seq<char> {
        match self {
            Rule::SafePragma(r) => r.rule_name(),
            Rule::OrphanModule(r) => r.rule_name(),
            Rule::UnjustifiedPostulate(r) => r.rule_name(),
            Rule::EscapeHatch(r) => r.rule_name(),
            Rule::TabMix(r) => r.rule_name(),
            Rule::UnpinnedHeadline(r) => r.rule_name(),
            Rule::CoqEscapeHatch(r) => r.rule_name(),
            Rule::Idris2EscapeHatch(r) => r.rule_name(),
            Rule::IsabelleEscapeHatch(r) => r.rule_name(),
            Rule::LeanEscapeHatch(r) => r.rule_name(),
        }
    }

    open spec fn findings(&self, file: Seq<char>, text: Seq<char>, ctx: LintContext) -> Option<Seq<DiagView>> {
        match self {
            Rule::SafePragma(r) => r.findings(file, text, ctx),
            Rule::OrphanModule(r) => r.findings(file, text, ctx),
            Rule::UnjustifiedPostulate(r) => r.findings(file, text, ctx),
            Rule::EscapeHatch(r) => r.findings(file, text, ctx),
            Rule::TabMix(r) => r.findings(file, text, ctx),
            Rule::UnpinnedHeadline(r) => r.findings(file, text, ctx),
            Rule::CoqEscapeHatch(r) => r.findings(file, text, ctx),
            Rule::Idris2EscapeHatch(r) => r.findings(file, text, ctx),
            Rule::IsabelleEscapeHatch(r) => r.findings(file, text, ctx),
            Rule::LeanEscapeHatch(r) => r.findings(file, text, ctx),
        }
    }

    open spec fn fails_with(&self, file: Seq<char>, text: Seq<char>, ctx: LintContext, e: Seq<char>) -> bool {
        match self {
            Rule::SafePragma(r) => r.fails_with(file, text, ctx, e),
            Rule::OrphanModule(r) => r.fails_with(file, text, ctx, e),
            Rule::UnjustifiedPostulate(r) => r.fails_with(file, text, ctx, e),
            Rule::EscapeHatch(r) => r.fails_with(file, text, ctx, e),
            Rule::TabMix(r) => r.fails_with(file, text, ctx, e),
            Rule::UnpinnedHeadline(r) => r.fails_with(file, text, ctx, e),
            Rule::CoqEscapeHatch(r) => r.fails_with(file, text, ctx, e),
            Rule::Idris2EscapeHatch(r) => r.fails_with(file, text, ctx, e),
            Rule::IsabelleEscapeHatch(r) => r.fails_with(file, text, ctx, e),
            Rule::LeanEscapeHatch(r) => r.fails_with(file, text, ctx, e),
        }
    }

    fn name(&self) -> (r: &'static str) {
        match self {
            Rule::SafePragma(r) => r.name(),
            Rule::OrphanModule(r) => r.name(),
            Rule::UnjustifiedPostulate(r) => r.name(),
            Rule::EscapeHatch(r) => r.name(),
            Rule::TabMix(r) => r.name(),
            Rule::UnpinnedHeadline(r) => r.name(),
            Rule::CoqEscapeHatch(r) => r.name(),
            Rule::Idris2EscapeHatch(r) => r.name(),
            Rule::IsabelleEscapeHatch(r) => r.name(),
            Rule::LeanEscapeHatch(r) => r.name(),
        }
    }

    fn run(&self, file: &str, text: &str, ctx: &LintContext, report: &mut LintReport) -> (r: Result<(), String>) {
        match self {
            Rule::SafePragma(r) => r.run(file, text, ctx, report),
            Rule::OrphanModule(r) => r.run(file, text, ctx, report),
            Rule::UnjustifiedPostulate(r) => r.run(file, text, ctx, report),
            Rule::EscapeHatch(r) => r.run(file, text, ctx, report),
            Rule::TabMix(r) => r.run(file, text, ctx, report),
            Rule::UnpinnedHeadline(r) => r.run(file, text, ctx, report),
            Rule::CoqEscapeHatch(r) => r.run(file, text, ctx, report),
            Rule::Idris2EscapeHatch(r) => r.run(file, text, ctx, report),
            Rule::IsabelleEscapeHatch(r) => r.run(file, text, ctx, report),
            Rule::LeanEscapeHatch(r) => r.run(file, text, ctx, report),
        }
    }
}

/// The findings of a rule pack run in order: `None` as soon as a rule
/// cannot run.
pub open spec fn pack_findings(rules: Seq<Rule>, file: Seq<char>, text: Seq<char>, ctx: LintContext) -> Option<Seq<DiagView>>
    decreases rules.len(),
{
    if rules.len() == 0 {
        Some(Seq::empty())
    } else {
        match (pack_findings(rules.drop_last(), file, text, ctx), rules.last().findings(file, text, ctx)) {
            (Some(a), Some(b)) => Some(a + b),
            _ => None,
        }
    }
}

/// `e` is the error of the first rule of the pack that cannot run: every
/// rule before it ran.
pub open spec fn pack_fails_with(rules: Seq<Rule>, file: Seq<char>, text: Seq<char>, ctx: LintContext, e: Seq<char>) -> bool {
    exists|i: int|
        0 <= i < rules.len() && pack_findings(rules.take(i), file, text, ctx) is Some
            && rules[i].findings(file, text, ctx) is None
            && #[trigger] rules[i].fails_with(file, text, ctx, e)
}

/// The standard Agda pack, parameterised by `cfg`; fails only when the
/// headline pattern is not a valid regular expression.
pub fn rules_with_config(cfg: &RuleConfig) -> (r: Result<Vec<Rule>, String>)
    ensures
        r is Ok <==> crate::lint::unpinned_headline::regex_compiles(cfg.headline_pattern@),
        r matches Err(e) ==> e@ == "compiling headline pattern `"@ + cfg.headline_pattern@ + "`: "@
            + crate::lint::unpinned_headline::regex_error(cfg.headline_pattern@),
        r matches Ok(rs) ==> (rs@.len() == 6
            && rs@[0] == Rule::SafePragma(SafePragma::standard_spec())
            && rs@[1] == Rule::OrphanModule(OrphanModule)
            && rs@[2] == Rule::UnjustifiedPostulate(UnjustifiedPostulate)
            && rs@[3] == Rule::EscapeHatch(EscapeHatch)
            && rs@[4] == Rule::TabMix(TabMix)
            && (rs@[5] matches Rule::UnpinnedHeadline(u) && u.pattern() == cfg.headline_pattern@)),
{
    let headline = UnpinnedHeadline::new(cfg.headline_pattern.as_str())?;
    let mut v: Vec<Rule> = Vec::new();
    v.push(Rule::SafePragma(SafePragma::standard()));
    v.push(Rule::OrphanModule(OrphanModule));
    v.push(Rule::UnjustifiedPostulate(UnjustifiedPostulate));
    v.push(Rule::EscapeHatch(EscapeHatch));
    v.push(Rule::TabMix(TabMix));
    v.push(Rule::UnpinnedHeadline(headline));
    Ok(v)
}

/// The standard Agda pack with the default settings.
pub fn default_rules() -> (r: Vec<Rule>)
    ensures
        r@.len() == 6,
        r@[0] == Rule::SafePragma(SafePragma::standard_spec()),
        r@[1] == Rule::OrphanModule(OrphanModule),
        r@[2] == Rule::UnjustifiedPostulate(UnjustifiedPostulate),
        r@[3] == Rule::EscapeHatch(EscapeHatch),
        r@[4] == Rule::TabMix(TabMix),
        (r@[5] matches Rule::UnpinnedHeadline(u) && u.pattern() == unpinned_headline::DEFAULT_HEADLINE_PATTERN@),
{
    let mut v: Vec<Rule> = Vec::new();
    v.push(Rule::SafePragma(SafePragma::standard()));
    v.push(Rule::OrphanModule(OrphanModule));
    v.push(Rule::UnjustifiedPostulate(UnjustifiedPostulate));
    v.push(Rule::EscapeHatch(EscapeHatch));
    v.push(Rule::TabMix(TabMix));
    v.push(Rule::UnpinnedHeadline(UnpinnedHeadline::default()));
    v
}

/// Runs a rule pack over `text`, the contents of `file`.
pub fn run_lints(file: &str, text: &str, ctx: &LintContext, rules: &[Rule]) -> (r: Result<LintReport, String>)
    ensures
        r is Ok <==> pack_findings(rules@, file@, text@, *ctx) is Some,
        r matches Ok(rep) ==> rep.file@ == file@ && rep.diags() == pack_findings(rules@, file@, text@, *ctx)->0,
        r matches Err(e) ==> pack_fails_with(rules@, file@, text@, *ctx, e@),
{
    let mut report = LintReport::new(String::from_str(file));
    let mut i: usize = 0;
    assert(report.diags() =~= Seq::<DiagView>::empty());
    while i < rules.len()
        invariant
            i <= rules@.len(),
            report.file@ == file@,
            pack_findings(rules@.take(i as int), file@, text@, *ctx) == Some(report.diags()),
        decreases rules.len() - i,
    {
        proof {
            assert(rules@.take(i + 1).drop_last() =~= rules@.take(i as int));
            assert(rules@.take(i + 1).last() == rules@[i as int]);
        }
        let ghost before = report.diags();
        match rules[i].run(file, text, ctx, &mut report) {
            Ok(()) => {},
            Err(e) => {
                proof {
                    lemma_pack_stops(rules@, file@, text@, *ctx, i as int + 1);
                    assert(pack_findings(rules@.take(i as int), file@, text@, *ctx) == Some(before));
                    assert(rules@[i as int].findings(file@, text@, *ctx) is None);
                    assert(rules@[i as int].fails_with(file@, text@, *ctx, e@));
                    assert(pack_fails_with(rules@, file@, text@, *ctx, e@));
                }
                return Err(e);
            },
        }
        i = i + 1;
    }
    assert(rules@.take(rules@.len() as int) =~= rules@);
    Ok(report)
}

proof fn lemma_pack_stops(rules: Seq<Rule>, file: Seq<char>, text: Seq<char>, ctx: LintContext, n: int)
    requires
        0 < n <= rules.len(),
        pack_findings(rules.take(n), file, text, ctx) is None,
    ensures
        pack_findings(rules, file, text, ctx) is None,
    decreases rules.len() - n,
{
    if n < rules.len() {
        assert(rules.take(n + 1).drop_last() =~= rules.take(n));
        lemma_pack_stops(rules, file, text, ctx, n + 1);
    } else {
        assert(rules.take(n) =~= rules);
    }
}

/// A warning about `file` at 1-based `line`.
pub fn warn(rule: &str, file: &str, line: usize, message: String) -> (d: Diagnostic)
    ensures
        d@ == (DiagView { rule: rule@, severity: Severity::Warn, file: file@, message: message@, line: Some(line) }),
{
    crate::diagnostic::diagnostic(rule, Severity::Warn, file, message, Some(line))
}

/// The pack without the orphan rule.
pub open spec fn without_orphan(rules: Seq<Rule>) -> Seq<Rule>
    decreases rules.len(),
{
    if rules.len() == 0 {
        Seq::empty()
    } else if rules.last().rule_name() == "orphan-module"@ {
        without_orphan(rules.drop_last())
    } else {
        without_orphan(rules.drop_last()).push(rules.last())
    }
}

/// The pack to run for a set of root modules: all of it when there are
/// roots, and without the `orphan-module` rule when none were found (so
/// that not every module is flagged as an orphan).
pub fn pack_for_roots(rules: Vec<Rule>, have_roots: bool) -> (r: Vec<Rule>)
    ensures
        have_roots ==> r@ == rules@,
        !have_roots ==> r@ == without_orphan(rules@),
{
    if have_roots {
        return rules;
    }
    let ghost orig = rules@;
    let total = rules.len();
    let mut rest = rules;
    let mut out: Vec<Rule> = Vec::new();
    let mut k: usize = 0;
    assert(out@ =~= without_orphan(orig.take(0)));
    assert(rest@ =~= orig.skip(0));
    while rest.len() > 0
        invariant
            k <= orig.len(),
            orig.len() == total,
            rest@ == orig.skip(k as int),
            out@ == without_orphan(orig.take(k as int)),
        decreases rest.len(),
    {
        let r = rest.remove(0);
        proof {
            assert(r == orig[k as int]);
            assert(orig.take(k + 1).drop_last() =~= orig.take(k as int));
            assert(orig.take(k + 1).last() == orig[k as int]);
            assert(rest@ =~= orig.skip(k + 1));
        }
        let name = r.name();
        if !crate::text::str_eq(name, "orphan-module") {
            out.push(r);
        }
        k = k + 1;
    }
    assert(orig.take(k as int) =~= orig);
    out
}

} // verus!
