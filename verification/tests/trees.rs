//! Whole-pipeline tests over small in-memory source trees: lint packs,
//! import graphs, DAG documents and reasoning documents, per backend.

use arghda_core::config::load_from_dir;
use arghda_core::dag::{build as build_dag, DagDocument};
use arghda_core::diagnostic::Severity;
use arghda_core::graph::{discover_roots, SourceFile, SourceTree};
use arghda_core::groove::manifest;
use arghda_core::lint::safe_pragma::SafePragma;
use arghda_core::lint::unpinned_headline::{UnpinnedHeadline, DEFAULT_HEADLINE_PATTERN};
use arghda_core::lint::{default_rules, run_lints, LintContext, Rule};
use arghda_core::prover::{Agda, Backend, BackendKind, Coq, Idris2, Isabelle, Lean, Mizar, Probe, Smt, Verdict};
use arghda_core::reason::{build as build_reason, ReasonDocument};
use arghda_core::workspace::{State, Workspace};

const PRAGMA: &str = "{-# OPTIONS --safe --without-K #-}\n";

fn tree(root: &str, files: &[(&str, &str)]) -> SourceTree {
    SourceTree {
        files: files
            .iter()
            .map(|(p, t)| SourceFile { path: format!("{root}/{p}"), text: Some(t.to_string()) })
            .collect(),
    }
}

fn agda(module: &str, body: &str) -> String {
    format!("{PRAGMA}module {module} where\n{body}")
}

fn wellformed() -> SourceTree {
    tree(
        "wellformed",
        &[
            ("All.agda", &agda("All", "import Good\nimport Util\n")),
            ("Good.agda", &agda("Good", "")),
            ("Util.agda", &agda("Util", "")),
        ],
    )
}

fn orphan() -> SourceTree {
    tree(
        "orphan",
        &[
            ("All.agda", &agda("All", "import Used\n")),
            ("Used.agda", &agda("Used", "")),
            ("Orphan.agda", &agda("Orphan", "")),
        ],
    )
}

fn ctx(root: &str, roots: Vec<String>, tree: SourceTree) -> LintContext {
    LintContext { include_root: root.to_string(), entry_modules: roots, tree }
}

fn agda_dag(root: &str, tree: SourceTree) -> DagDocument {
    let c = ctx(root, vec![format!("{root}/All.agda")], tree);
    build_dag(&c, &default_rules(), DEFAULT_HEADLINE_PATTERN, &Agda).unwrap()
}

fn dag_with<B: Backend>(root: &str, tree: SourceTree, roots: Vec<String>, b: &B) -> DagDocument {
    let c = ctx(root, roots, tree);
    build_dag(&c, &[], DEFAULT_HEADLINE_PATTERN, b).unwrap()
}

fn reason_of(dag: DagDocument, verdicts: &[(&str, Verdict)], stale: &[&str]) -> ReasonDocument {
    let v: Vec<(String, Verdict)> = verdicts.iter().map(|(n, v)| (n.to_string(), *v)).collect();
    let s: Vec<String> = stale.iter().map(|n| n.to_string()).collect();
    build_reason(dag, &v, &s)
}

fn effective(doc: &ReasonDocument, id: &str) -> Verdict {
    doc.nodes.iter().find(|n| n.id == id).unwrap().effective
}

fn wired(doc: &ReasonDocument, id: &str) -> bool {
    doc.nodes.iter().find(|n| n.id == id).unwrap().wired
}

fn ids(dag: &DagDocument) -> Vec<&str> {
    let mut v: Vec<&str> = dag.nodes.iter().map(|n| n.id.as_str()).collect();
    v.sort_unstable();
    v
}

fn has_edge(dag: &DagDocument, from: &str, to: &str) -> bool {
    dag.edges.iter().any(|e| e.from == from && e.to == to && e.kind == "imports")
}

fn base_names(paths: &[String]) -> Vec<String> {
    paths.iter().map(|p| p.rsplit('/').next().unwrap().to_string()).collect()
}

/// The hard blocks of the default pack over every `.agda` file of the tree
/// rooted at `root`, as `(basename, rule)`.
fn collect_hard_blocks(root: &str, t: SourceTree) -> Vec<(String, String)> {
    let c = ctx(root, vec![format!("{root}/All.agda")], t);
    let rules = default_rules();
    let mut hits = Vec::new();
    for f in &c.tree.files {
        if !f.path.ends_with(".agda") {
            continue;
        }
        let report = run_lints(&f.path, f.text.as_deref().unwrap(), &c, &rules).expect("lint run failed");
        for d in report.diagnostics {
            if d.severity == Severity::HardBlock {
                hits.push((f.path.rsplit('/').next().unwrap().to_string(), d.rule));
            }
        }
    }
    hits
}

#[test]
fn wellformed_fixture_passes_both_default_rules() {
    let hits = collect_hard_blocks("wellformed", wellformed());
    assert!(hits.is_empty(), "wellformed fixture must produce no hard-blocks, got: {:?}", hits);
}

#[test]
fn orphan_module_flagged_when_unreachable_from_entry() {
    let hits = collect_hard_blocks("orphan", orphan());
    let orphan_hits: Vec<_> = hits.iter().filter(|(_f, r)| r == "orphan-module").collect();
    assert!(orphan_hits.iter().any(|(f, _)| f == "Orphan.agda"), "hits were: {:?}", hits);
    assert!(!orphan_hits.iter().any(|(f, _)| f == "Used.agda" || f == "All.agda"), "hits were: {:?}", hits);
}

#[test]
fn missing_safe_pragma_flagged_when_pragma_absent() {
    let t = tree(
        "missing_pragma",
        &[("All.agda", &agda("All", "import Bad\n")), ("Bad.agda", "module Bad where\n")],
    );
    let hits = collect_hard_blocks("missing_pragma", t);
    let pragma_hits: Vec<_> = hits.iter().filter(|(_f, r)| r == "missing-safe-pragma").collect();
    assert!(pragma_hits.iter().any(|(f, _)| f == "Bad.agda"), "hits were: {:?}", hits);
    assert!(!pragma_hits.iter().any(|(f, _)| f == "All.agda"), "hits were: {:?}", hits);
}

#[test]
fn dag_over_orphan_fixture_has_expected_shape() {
    let doc = agda_dag("orphan", orphan());
    let ids: Vec<&str> = doc.nodes.iter().map(|n| n.id.as_str()).collect();
    assert_eq!(ids, vec!["All", "Orphan", "Used"]);
    assert!(has_edge(&doc, "All", "Used"));
    assert!(!doc.edges.iter().any(|e| e.to == "Orphan"));
    let o = doc.nodes.iter().find(|n| n.id == "Orphan").unwrap();
    assert_eq!(o.status, "blocked");
    assert!(o.lint.hard_block.contains(&"orphan-module".to_string()));
    assert_eq!(o.file, "Orphan.agda");
    assert_eq!(doc.nodes.iter().find(|n| n.id == "Used").unwrap().status, "clean");
    assert_eq!(doc.nodes.iter().find(|n| n.id == "All").unwrap().status, "clean");
    assert!(doc.blocked.iter().any(|b| b.node == "Orphan"));
}

#[test]
fn dag_over_wellformed_fixture_is_all_clean() {
    let doc = agda_dag("wellformed", wellformed());
    assert_eq!(doc.version, "0.1");
    assert!(doc.nodes.iter().all(|n| n.status == "clean"), "got: {:?}", doc.nodes);
    assert!(doc.blocked.is_empty());
    assert!(doc.edges.iter().any(|e| e.from == "All" && e.to == "Good"));
    assert!(doc.edges.iter().any(|e| e.from == "All" && e.to == "Util"));
}

#[test]
fn dag_populates_node_headlines() {
    let t = tree(
        "headlines",
        &[
            ("All.agda", &agda("All", "import Thm\n")),
            (
                "Thm.agda",
                &agda(
                    "Thm",
                    "\nthm-two : Set₁\nthm-two = Set\n\nthm-one : Set₁\nthm-one = Set\n\nprivate\n  helper : Set₁\n  helper = Set\n",
                ),
            ),
        ],
    );
    let doc = agda_dag("headlines", t);
    let thm = doc.nodes.iter().find(|n| n.id == "Thm").unwrap();
    assert_eq!(thm.headlines, vec!["thm-one".to_string(), "thm-two".to_string()]);
    let all = doc.nodes.iter().find(|n| n.id == "All").unwrap();
    assert!(all.headlines.is_empty());
}

#[test]
fn no_verdicts_means_clean_nodes_are_unknown_not_proven() {
    let doc = reason_of(agda_dag("wellformed", wellformed()), &[], &[]);
    for n in &doc.nodes {
        assert_eq!(n.effective, Verdict::Unknown, "node {} should be unknown without a typecheck", n.id);
        assert_eq!(n.soundness, "unproven");
    }
    assert_eq!(doc.crt_roots, vec!["All".to_string()]);
    assert_eq!(doc.version, "0.1");
    assert_eq!(doc.dag.version, "0.1");
}

#[test]
fn supplied_proven_lights_up_the_whole_cone() {
    let v = [("All", Verdict::Proven), ("Good", Verdict::Proven), ("Util", Verdict::Proven)];
    let doc = reason_of(agda_dag("wellformed", wellformed()), &v, &[]);
    for id in ["All", "Good", "Util"] {
        assert_eq!(effective(&doc, id), Verdict::Proven, "{id} should be proven");
        assert!(wired(&doc, id), "{id} should be wired");
    }
}

#[test]
fn a_postulated_import_infects_its_downstream() {
    let v = [("All", Verdict::Proven), ("Good", Verdict::Proven), ("Util", Verdict::Postulated)];
    let doc = reason_of(agda_dag("wellformed", wellformed()), &v, &[]);
    assert_eq!(effective(&doc, "Util"), Verdict::Postulated);
    assert_eq!(effective(&doc, "All"), Verdict::Postulated, "amber must propagate up the And import edge");
    assert_eq!(effective(&doc, "Good"), Verdict::Proven);
    let all = doc.nodes.iter().find(|n| n.id == "All").unwrap();
    assert_eq!(all.soundness, "amber");
}

#[test]
fn an_orphan_is_unwired() {
    let doc = reason_of(agda_dag("orphan", orphan()), &[], &[]);
    assert!(wired(&doc, "All"));
    assert!(wired(&doc, "Used"));
    assert!(!wired(&doc, "Orphan"), "Orphan must be unwired");
    assert_eq!(doc.crt_roots, vec!["All".to_string()]);
}

#[test]
fn staleness_demotes_a_proven_node_to_unknown() {
    let v = [("All", Verdict::Proven), ("Good", Verdict::Proven), ("Util", Verdict::Proven)];
    let doc = reason_of(agda_dag("wellformed", wellformed()), &v, &["Good"]);
    assert_eq!(effective(&doc, "Good"), Verdict::Unknown, "a stale proven node must fall back to unknown");
    assert_eq!(effective(&doc, "Util"), Verdict::Proven);
    assert_eq!(effective(&doc, "All"), Verdict::Unknown);
}

#[test]
fn crt_roots_and_wiring_survive_discover_roots_relative_paths() {
    let t = wellformed();
    let roots = discover_roots(&t);
    let c = ctx("wellformed", roots, t);
    let dag = build_dag(&c, &default_rules(), DEFAULT_HEADLINE_PATTERN, &Agda).unwrap();
    let doc = reason_of(dag, &[], &[]);
    assert_eq!(doc.crt_roots, vec!["All".to_string()], "got {:?}", doc.crt_roots);
    for id in ["All", "Good", "Util"] {
        assert!(wired(&doc, id), "{id} must be wired via discover_roots path");
    }
}

#[test]
fn reason_json_contract_is_frozen_at_0_1() {
    let doc = reason_of(agda_dag("wellformed", wellformed()), &[], &[]);
    assert_eq!(doc.version, "0.1");
    assert_eq!(doc.dag.version, "0.1");
    assert_eq!(doc.nodes.len(), 3);
    let e = &doc.edges[0];
    assert_eq!(e.kind, "imports");
    assert!(!e.from.is_empty() && !e.to.is_empty());
}

fn coq_tree() -> SourceTree {
    tree(
        "coq",
        &[
            ("All.v", "Require Import Base.\nRequire Import Util.\n"),
            ("Util.v", "Require Import Base.\n"),
            ("Base.v", "Definition one := 1.\n"),
            ("Orphan.v", "Definition two := 2.\n"),
        ],
    )
}

#[test]
fn coq_require_graph_over_the_fixture() {
    let t = coq_tree();
    let roots = Coq.discover_roots("coq", &t);
    let dag = dag_with("coq", t, roots, &Coq);
    assert_eq!(ids(&dag), vec!["All", "Base", "Orphan", "Util"]);
    assert!(has_edge(&dag, "All", "Base"));
    assert!(has_edge(&dag, "All", "Util"));
    assert!(has_edge(&dag, "Util", "Base"));
    assert!(!dag.edges.iter().any(|e| e.to == "Orphan"));
}

#[test]
fn coq_discover_roots_finds_all_v() {
    let t = coq_tree();
    assert_eq!(base_names(&Coq.discover_roots("coq", &t)), vec!["All.v".to_string()]);
}

#[test]
fn coq_reason_graph_wires_the_all_cone() {
    let t = coq_tree();
    let roots = Coq.discover_roots("coq", &t);
    let doc = reason_of(dag_with("coq", t, roots, &Coq), &[], &[]);
    assert_eq!(doc.crt_roots, vec!["All".to_string()]);
    assert!(wired(&doc, "All"));
    assert!(wired(&doc, "Util"));
    assert!(wired(&doc, "Base"));
    assert!(!wired(&doc, "Orphan"), "Orphan must be unwired");
}

fn idris_tree() -> SourceTree {
    tree(
        "idris2",
        &[
            ("Main.idr", "module Main\n\nimport Util\nimport public Data.Helper\n\nmain : IO ()\nmain = pure ()\n"),
            ("Util.idr", "module Util\n"),
            ("Data/Helper.idr", "module Data.Helper\n"),
            ("Orphan.idr", "module Orphan\n"),
        ],
    )
}

#[test]
fn idris2_import_graph_over_the_fixture() {
    let t = idris_tree();
    let roots = Idris2.discover_roots("idris2", &t);
    let dag = dag_with("idris2", t, roots, &Idris2);
    let ids: Vec<&str> = dag.nodes.iter().map(|n| n.id.as_str()).collect();
    assert_eq!(ids, vec!["Data.Helper", "Main", "Orphan", "Util"]);
    assert!(has_edge(&dag, "Main", "Util"));
    assert!(dag.edges.iter().any(|e| e.from == "Main" && e.to == "Data.Helper"));
    assert!(!dag.edges.iter().any(|e| e.to == "Orphan"));
}

#[test]
fn idris2_discover_roots_finds_main() {
    let t = idris_tree();
    assert_eq!(base_names(&Idris2.discover_roots("idris2", &t)), vec!["Main.idr".to_string()]);
}

#[test]
fn idris2_reason_graph_wires_the_main_cone() {
    let t = idris_tree();
    let roots = Idris2.discover_roots("idris2", &t);
    let doc = reason_of(dag_with("idris2", t, roots, &Idris2), &[], &[]);
    assert_eq!(doc.crt_roots, vec!["Main".to_string()]);
    assert!(wired(&doc, "Main"));
    assert!(wired(&doc, "Util"));
    assert!(wired(&doc, "Data.Helper"));
    assert!(!wired(&doc, "Orphan"), "Orphan must be unwired");
}

fn isabelle_tree() -> SourceTree {
    tree(
        "isabelle",
        &[
            ("ROOT", "session Fixture = HOL +\n  theories\n    All\n"),
            ("All.thy", "theory All imports Main Base Util begin\nend\n"),
            ("Util.thy", "theory Util imports Main Base begin\nend\n"),
            ("Base.thy", "theory Base imports Main begin\nend\n"),
            ("Orphan.thy", "theory Orphan imports Main begin\nend\n"),
        ],
    )
}

#[test]
fn isabelle_imports_graph_over_the_fixture() {
    let t = isabelle_tree();
    let roots = Isabelle.discover_roots("isabelle", &t);
    let dag = dag_with("isabelle", t, roots, &Isabelle);
    assert_eq!(ids(&dag), vec!["All", "Base", "Orphan", "Util"]);
    assert!(has_edge(&dag, "All", "Base"));
    assert!(has_edge(&dag, "All", "Util"));
    assert!(has_edge(&dag, "Util", "Base"));
    assert!(!dag.edges.iter().any(|e| e.to == "Orphan"));
    assert!(!dag.edges.iter().any(|e| e.to == "Main"), "stdlib import dropped");
}

#[test]
fn isabelle_discover_roots_reads_the_root_file() {
    let t = isabelle_tree();
    assert_eq!(base_names(&Isabelle.discover_roots("isabelle", &t)), vec!["All.thy".to_string()]);
}

#[test]
fn isabelle_reason_graph_wires_the_root_cone() {
    let t = isabelle_tree();
    let roots = Isabelle.discover_roots("isabelle", &t);
    let doc = reason_of(dag_with("isabelle", t, roots, &Isabelle), &[], &[]);
    assert_eq!(doc.crt_roots, vec!["All".to_string()]);
    assert!(wired(&doc, "All"));
    assert!(wired(&doc, "Util"));
    assert!(wired(&doc, "Base"));
    assert!(!wired(&doc, "Orphan"), "Orphan must be unwired");
}

fn lean_tree() -> SourceTree {
    tree("lean", &[("Main.lean", "import Util\n\ndef main : IO Unit := pure ()\n"), ("Util.lean", "def one : Nat := 1\n")])
}

#[test]
fn lean_import_graph_and_root() {
    let t = lean_tree();
    let roots = Lean.discover_roots("lean", &t);
    assert_eq!(base_names(&roots), vec!["Main.lean".to_string()]);
    let dag = dag_with("lean", t, roots, &Lean);
    assert_eq!(ids(&dag), vec!["Main", "Util"]);
    assert!(has_edge(&dag, "Main", "Util"));
}

#[test]
fn lean_reason_graph_wires_the_main_cone() {
    let t = lean_tree();
    let roots = Lean.discover_roots("lean", &t);
    let doc = reason_of(dag_with("lean", t, roots, &Lean), &[], &[]);
    assert_eq!(doc.crt_roots, vec!["Main".to_string()]);
    assert!(wired(&doc, "Main"));
    assert!(wired(&doc, "Util"));
}

fn mizar_tree() -> SourceTree {
    tree(
        "mizar",
        &[
            ("user.miz", "environ\n vocabularies XBOOLE_0;\n theorems BASE, XBOOLE_0;\nbegin\n"),
            ("base.miz", "environ\nbegin\n"),
            ("orphan.miz", "environ\nbegin\n"),
        ],
    )
}

#[test]
fn mizar_environ_graph_over_the_fixture() {
    let t = mizar_tree();
    let roots = Mizar.discover_roots("mizar", &t);
    let dag = dag_with("mizar", t, roots, &Mizar);
    assert_eq!(ids(&dag), vec!["base", "orphan", "user"]);
    assert!(has_edge(&dag, "user", "base"));
    assert!(!dag.edges.iter().any(|e| e.to == "xboole_0"), "MML import dropped as external");
    assert!(!dag.edges.iter().any(|e| e.to == "orphan"));
}

#[test]
fn mizar_has_no_root_convention() {
    let t = mizar_tree();
    assert!(Mizar.discover_roots("mizar", &t).is_empty());
    let doc = reason_of(dag_with("mizar", t, vec![], &Mizar), &[], &[]);
    assert!(doc.crt_roots.is_empty());
    assert!(doc.nodes.iter().all(|n| !n.wired));
}

fn smt_tree() -> SourceTree {
    tree(
        "smt",
        &[
            ("sat.smt2", "(declare-const x Int)\n(assert (> x 0))\n(check-sat)\n"),
            ("unsat.smt2", "(declare-const x Int)\n(assert (and (> x 2) (< x 1)))\n(check-sat)\n"),
        ],
    )
}

#[test]
fn smt_files_are_isolated_nodes_with_no_edges() {
    let t = smt_tree();
    let z3 = Smt::z3();
    assert!(z3.discover_roots("smt", &t).is_empty());
    let dag = dag_with("smt", t, vec![], &z3);
    assert_eq!(ids(&dag), vec!["sat", "unsat"]);
    assert!(dag.edges.is_empty(), "SMT queries have no dependency edges");
}

#[test]
fn smt_reason_graph_has_nodes_but_no_crt_cone() {
    let t = smt_tree();
    let z3 = Smt::z3();
    let doc = reason_of(dag_with("smt", t, vec![], &z3), &[], &[]);
    assert_eq!(doc.nodes.len(), 2);
    assert!(doc.crt_roots.is_empty());
    assert!(doc.nodes.iter().all(|n| !n.wired));
}

/// Whether the pack flags `All.agda` of a cubical tree as lacking its
/// safety pragma (the file is its own root, so the orphan rule skips).
fn has_missing_safe_pragma(rules: &[Rule]) -> bool {
    let t = tree("cubical", &[("All.agda", "{-# OPTIONS --cubical --safe #-}\nmodule All where\n")]);
    let c = ctx("cubical", vec!["cubical/All.agda".to_string()], t);
    let text = c.tree.files[0].text.clone().unwrap();
    let report = run_lints("cubical/All.agda", &text, &c, rules).unwrap();
    report.diagnostics.iter().any(|d| d.rule == "missing-safe-pragma" && d.severity == Severity::HardBlock)
}

#[test]
fn cubical_pack_accepts_a_cubical_file() {
    assert!(!has_missing_safe_pragma(&[Rule::SafePragma(SafePragma::cubical())]));
}

#[test]
fn standard_pack_flags_the_same_cubical_file() {
    let rules = Agda.lint_rules(&arghda_core::lint::RuleConfig::default()).unwrap();
    assert!(has_missing_safe_pragma(&rules));
}

#[test]
fn load_from_dir_without_config_is_default() {
    let cfg = load_from_dir(None).unwrap();
    assert_eq!(cfg.headline_pattern, DEFAULT_HEADLINE_PATTERN);
}

#[test]
fn invalid_pattern_is_an_error() {
    assert!(UnpinnedHeadline::new("[").is_err());
}

#[test]
fn transition_of_absent_file_errors() {
    let ws = Workspace::open("ws", &[true, true, true, true]).unwrap();
    assert!(ws.plan_transition("Ghost.agda", State::Inbox, State::Working, false).is_err());
}

#[test]
fn manifest_announces_frozen_schemas_and_backends() {
    let probe = |name: &str| Probe {
        backend: name.to_string(),
        kind: BackendKind::Assistant,
        runnable: true,
        detail: "v1".to_string(),
    };
    let m = manifest(vec![probe("agda"), probe("lean4")]);
    assert_eq!(m.groove, "0.1");
    assert_eq!(m.service, "arghda");
    assert_eq!(m.capabilities.schemas.dag, "0.1");
    assert_eq!(m.capabilities.schemas.reason, "0.1");
    assert_eq!(m.capabilities.backends.len(), 2);
    assert!(m.capabilities.commands.contains(&"reason"));
    assert_eq!(m.capabilities.backends[0].backend, "agda");
}
