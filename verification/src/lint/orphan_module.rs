//! `orphan-module` (hard block): a module below the include root that no
//! root module reaches by imports.

use vstd::prelude::*;
use crate::diagnostic::{DiagView, LintReport, Severity};
use crate::graph::{module_name_of, module_name_spec, reachable_from_roots, roots_fail_with, walk_ok, walk_reaches};
use crate::lint::{LintContext, LintRule};
use crate::order::{set_contains, strs};
use crate::text::str_eq;

verus! {

broadcast use vstd::string::group_string_axioms;

/// Flags modules unreachable from the roots.
#[derive(Clone, Copy, Debug, PartialEq, Eq, Structural)]
pub struct OrphanModule;

/// Module `m` is one of the entry modules' own modules.
pub open spec fn is_entry_module(ctx: LintContext, m: Seq<char>) -> bool {
    exists|k: int|
        0 <= k < ctx.entry_modules@.len() && module_name_spec(#[trigger] ctx.entry_modules@[k]@, ctx.include_root@) == Some(m)
}

/// Every walk from an entry module can be made.
pub open spec fn roots_ok(ctx: LintContext) -> bool {
    forall|k: int| 0 <= k < ctx.entry_modules@.len() ==> walk_ok(ctx.tree.files@, ctx.include_root@, #[trigger] ctx.entry_modules@[k]@)
}

/// Module `m` is reached from some entry module.
pub open spec fn reached(ctx: LintContext, m: Seq<char>) -> bool {
    exists|k: int|
        0 <= k < ctx.entry_modules@.len() && walk_reaches(ctx.tree.files@, ctx.include_root@, #[trigger] ctx.entry_modules@[k]@, m)
}

impl LintRule for OrphanModule {
    open spec fn rule_name(&self) -> Seq<char> {
        "orphan-module"@
    }

    open spec fn findings(&self, file: Seq<char>, text: Seq<char>, ctx: LintContext) -> Option<Seq<DiagView>> {
        match module_name_spec(file, ctx.include_root@) {
            None => Some(Seq::empty()),
            Some(m) => if is_entry_module(ctx, m) {
                Some(Seq::empty())
            } else if !roots_ok(ctx) {
                None
            } else if reached(ctx, m) {
                Some(Seq::empty())
            } else {
                Some(seq![DiagView {
                    rule: "orphan-module"@,
                    severity: Severity::HardBlock,
                    file,
                    message: "module `"@ + m + "` is not reachable via imports from the root modules"@,
                    line: None,
                }])
            },
        }
    }

    /// Fails, for a non-entry module, with the error of the first entry
    /// module whose import walk cannot be made.
    open spec fn fails_with(&self, file: Seq<char>, text: Seq<char>, ctx: LintContext, e: Seq<char>) -> bool {
        match module_name_spec(file, ctx.include_root@) {
            None => false,
            Some(m) => !is_entry_module(ctx, m) && roots_fail_with(ctx.tree.files@, ctx.include_root@, ctx.entry_modules@, e),
        }
    }

    fn name(&self) -> (r: &'static str) {
        "orphan-module"
    }

    fn run(&self, file: &str, text: &str, ctx: &LintContext, report: &mut LintReport) -> (r: Result<(), String>) {
        let m = match module_name_of(file, ctx.include_root.as_str()) {
            None => {
                assert(report.diags() + Seq::<DiagView>::empty() =~= report.diags());
                return Ok(());
            },
            Some(m) => m,
        };
        let mut k: usize = 0;
        while k < ctx.entry_modules.len()
            invariant
                k <= ctx.entry_modules@.len(),
                module_name_spec(file@, ctx.include_root@) == Some(m@),
                forall|j: int| 0 <= j < k ==> module_name_spec(#[trigger] ctx.entry_modules@[j]@, ctx.include_root@) != Some(m@),
            decreases ctx.entry_modules.len() - k,
        {
            match module_name_of(ctx.entry_modules[k].as_str(), ctx.include_root.as_str()) {
                Some(e) => {
                    if str_eq(e.as_str(), m.as_str()) {
                        assert(report.diags() + Seq::<DiagView>::empty() =~= report.diags());
                        return Ok(());
                    }
                },
                None => {},
            }
            k = k + 1;
        }
        let reach = match reachable_from_roots(ctx.entry_modules.as_slice(), ctx.include_root.as_str(), &ctx.tree) {
            Ok(v) => v,
            Err(e) => {
                return Err(e);
            },
        };
        if set_contains(&reach, m.as_str()) {
            assert(report.diags() + Seq::<DiagView>::empty() =~= report.diags());
            return Ok(());
        }
        let mut msg = String::from_str("module `");
        msg.append(m.as_str());
        msg.append("` is not reachable via imports from the root modules");
        let d = crate::diagnostic::diagnostic("orphan-module", Severity::HardBlock, file, msg, None);
        let ghost before = report.diags();
        report.push(d);
        assert(report.diags() =~= before + seq![d@]);
        Ok(())
    }
}

} // verus!
