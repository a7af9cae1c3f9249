//! The Agda backend: `agda -i <root> <file>`; the exit code is the verdict.

use vstd::prelude::*;
use super::{str_views, Backend, BackendKind, named_paths, files_named};
use crate::graph::{module_name_spec, agda_imports, SourceTree};
use crate::path::module_file_spec;
use crate::lint::{rules_with_config, Rule, RuleConfig};

verus! {

/// The Agda proof assistant.
#[derive(Clone, Copy, Debug)]
pub struct Agda;

impl Backend for Agda {
    open spec fn exts_spec(&self) -> Seq<Seq<char>> {
        seq!["agda"@]
    }

    open spec fn module_id_spec(&self, file: Seq<char>, root: Seq<char>) -> Option<Seq<char>> {
        module_name_spec(file, root)
    }

    open spec fn module_path_spec(&self, module: Seq<char>, root: Seq<char>) -> Seq<char> {
        module_file_spec(root, module, "agda"@)
    }

    open spec fn imports_spec(&self, text: Seq<char>) -> Seq<Seq<char>> {
        agda_imports(text)
    }

    fn name(&self) -> (r: &'static str)
        ensures
            r@ == "agda"@,
    {
        "agda"
    }

    fn kind(&self) -> (r: BackendKind)
        ensures
            r == BackendKind::Assistant,
    {
        BackendKind::Assistant
    }

    fn extensions(&self) -> (r: Vec<&'static str>) {
        let r = vec!["agda"];
        assert(str_views(r@) =~= seq!["agda"@]);
        r
    }

    fn safe_mode(&self) -> (r: Option<&'static str>)
        ensures
            r matches Some(m) && m@ == "--safe --without-K"@,
    {
        Some("--safe --without-K")
    }

    fn command(&self) -> (r: &'static str)
        ensures
            r@ == "agda"@,
    {
        "agda"
    }

    fn module_name_of(&self, file: &str, include_root: &str) -> (r: Option<String>) {
        crate::graph::module_name_of(file, include_root)
    }

    fn module_to_path(&self, module: &str, include_root: &str) -> (r: String) {
        crate::graph::module_to_path(module, include_root)
    }

    fn direct_imports(&self, text: &str) -> (r: Vec<String>) {
        crate::graph::direct_imports(text)
    }

    /// `All.agda` and `Smoke.agda` files, ordered by path.
    fn discover_roots(&self, include_root: &str, tree: &SourceTree) -> (r: Vec<String>)
        ensures
            crate::order::strs(r@).to_multiset() == named_paths(tree.files@, seq!["All.agda"@, "Smoke.agda"@]).to_multiset(),
    {
        crate::graph::discover_roots(tree)
    }

    /// The standard pack, parameterised by `cfg`.
    fn lint_rules(&self, cfg: &RuleConfig) -> (r: Result<Vec<Rule>, String>)
        ensures
            r is Ok <==> crate::lint::unpinned_headline::regex_compiles(cfg.headline_pattern@),
            r matches Err(e) ==> e@ == "compiling headline pattern `"@ + cfg.headline_pattern@ + "`: "@
                + crate::lint::unpinned_headline::regex_error(cfg.headline_pattern@),
            r matches Ok(rs) ==> (rs@.len() == 6
                && rs@[0] == Rule::SafePragma(crate::lint::safe_pragma::SafePragma::standard_spec())
                && rs@[1] == Rule::OrphanModule(crate::lint::orphan_module::OrphanModule)
                && rs@[2] == Rule::UnjustifiedPostulate(crate::lint::postulate::UnjustifiedPostulate)
                && rs@[3] == Rule::EscapeHatch(crate::lint::escape_hatch::EscapeHatch)
                && rs@[4] == Rule::TabMix(crate::lint::tab_mix::TabMix)
                && (rs@[5] matches Rule::UnpinnedHeadline(u) && u.pattern() == cfg.headline_pattern@)),
    {
        rules_with_config(cfg)
    }
}

} // verus!
