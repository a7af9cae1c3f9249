use arghda_core::reason::record_check;
use arghda_core::prover::{probe_arg, Isabelle};
use arghda_core::timestamp::civil_from_days;
use arghda_core::prover::{needs_audit, run_verdict, AnyBackend, Coq, Lean, Mizar, Smt};
use arghda_core::prover::isabelle::session_root;
use arghda_core::prover::mizar::export_steps;
use arghda_core::config::{config_from_shape, load_from_dir, parse, with_cli};
use arghda_core::lint::{run_lints, LintContext};
use arghda_core::lint::unpinned_headline::UnpinnedHeadline;
use arghda_core::lint::orphan_module::OrphanModule;
use arghda_core::dag::compute_blocked;
use arghda_core::dispatch::{Dispatch, DEFAULT_ECHIDNA_URL};
use arghda_core::graph::{build, Edge, SourceFile, SourceTree};
use arghda_core::hash::sha256_hex;
use arghda_core::lint::unpinned_headline::DEFAULT_HEADLINE_PATTERN;
use arghda_core::lint::{default_rules, pack_for_roots, Rule};
use arghda_core::prover::mizar::{mizar_transitive_deps, mizar_verdict, parse_environ_imports};
use arghda_core::prover::{backend_named, check_word, Agda, Backend, BackendKind, Verdict};
use arghda_core::event::EventKind;
use arghda_core::proven::{ProvenManifest, ProvenRecord};
use arghda_core::workspace::{transition_kind, State, Workspace};

fn file(path: &str, text: &str) -> SourceFile {
    SourceFile { path: path.to_string(), text: Some(text.to_string()) }
}

#[test]
fn sha256_of_known_messages() {
    assert_eq!(sha256_hex(b""), "e3b0c44298fc1c149afbf4c8996fb92427ae41e4649b934ca495991b7852b855");
    assert_eq!(sha256_hex(b"abc"), "ba7816bf8f01cfea414140de5dae2223b00361a396177a9cb410ff61f20015ad");
    assert_eq!(
        sha256_hex(b"abcdbcdecdefdefgefghfghighijhijkijkljklmklmnlmnomnopnopq"),
        "248d6a61d20638b8e5c026930c3e6039a33ce45964ff2167f6ecedd419db06c1"
    );
}

#[test]
fn sha256_spans_several_blocks() {
    let msg = vec![b'a'; 1000];
    assert_eq!(sha256_hex(&msg), "41edece42d63e8d9bf515a9ba6932e1c20cbc9f5a5d134645adb5db1b9737ea3");
}

#[test]
fn graph_has_one_edge_per_in_tree_import() {
    let tree = SourceTree {
        files: vec![
            file("src/B.agda", "module B where\n"),
            file("src/A.agda", "module A where\nopen import B\nopen import Data.Nat\n"),
            file("src/notes.txt", "import A\n"),
        ],
    };
    let g = build("src", &tree, &Agda).unwrap();
    let ids: Vec<&str> = g.nodes.iter().map(|n| n.id.as_str()).collect();
    assert_eq!(ids, vec!["A", "B"]);
    assert_eq!(g.nodes[0].file, "A.agda");
    assert_eq!(g.edges.len(), 1);
    assert_eq!(g.edges[0].from, "A");
    assert_eq!(g.edges[0].to, "B");
    assert_eq!(g.edges[0].kind, "imports");
}

#[test]
fn graph_fails_on_an_unreadable_module() {
    let tree = SourceTree { files: vec![SourceFile { path: "src/A.agda".to_string(), text: None }] };
    assert!(build("src", &tree, &Agda).is_err());
}

#[test]
fn blocked_lists_self_blocked_modules_and_their_direct_importers() {
    let selfs = vec![("B".to_string(), vec!["missing-safe-pragma".to_string(), "tab-mix".to_string()])];
    let edges = vec![
        Edge { from: "A".to_string(), to: "B".to_string(), kind: "imports" },
        Edge { from: "C".to_string(), to: "A".to_string(), kind: "imports" },
    ];
    let blocked = compute_blocked(&selfs, &edges);
    let nodes: Vec<&str> = blocked.iter().map(|b| b.node.as_str()).collect();
    assert_eq!(nodes, vec!["A", "B"]);
    assert_eq!(blocked[0].blocked_by, vec!["B".to_string()]);
    assert_eq!(blocked[0].reason, "prerequisite not clean");
    assert!(blocked[1].blocked_by.is_empty());
    assert_eq!(blocked[1].reason, "missing-safe-pragma, tab-mix");
}

#[test]
fn echidna_route_reports_unavailable() {
    let d = Dispatch::parse("echidna").unwrap();
    let o = d.run(BackendKind::Assistant).unwrap();
    assert!(!o.available);
    assert_eq!(o.verdict, Verdict::Unavailable);
    assert!(o.output_tail.contains(DEFAULT_ECHIDNA_URL));
    assert!(Dispatch::parse("local").unwrap().run(BackendKind::Assistant).is_none());
    assert!(Dispatch::parse("remote").is_err());
}

#[test]
fn backends_are_found_by_name() {
    assert_eq!(backend_named("agda").unwrap().name(), "agda");
    assert_eq!(backend_named("z3").unwrap().command(), "z3");
    assert_eq!(backend_named("z3").unwrap().kind(), BackendKind::Solver);
    assert_eq!(backend_named("lean4").unwrap().kind(), BackendKind::Assistant);
    assert!(backend_named("nope").is_none());
}

#[test]
fn check_word_orders_availability_then_lint_then_verdict() {
    assert_eq!(check_word(false, true, Verdict::Proven), "backend-unavailable");
    assert_eq!(check_word(true, true, Verdict::Proven), "rejected");
    assert_eq!(check_word(true, false, Verdict::Proven), "proven-eligible");
    assert_eq!(check_word(true, false, Verdict::Error), "rejected");
}

#[test]
fn mizar_environ_and_verdict() {
    let deps = parse_environ_imports("environ\n vocabularies XBOOLE_0, SUBSET_1;\n notations TARSKI;\nbegin\n");
    assert_eq!(deps, vec!["xboole_0".to_string(), "subset_1".to_string(), "tarski".to_string()]);
    assert_eq!(mizar_verdict(true, Some(0)), Verdict::Proven);
    assert_eq!(mizar_verdict(true, Some(3)), Verdict::Error);
}

#[test]
fn cli_pattern_wins_over_config() {
    let cfg = parse("[lint]\nheadline_pattern = \"^a$\"\n").unwrap();
    assert_eq!(with_cli(cfg.clone(), Some("^b$")).headline_pattern, "^b$");
    assert_eq!(with_cli(cfg, None).headline_pattern, "^a$");
    assert_eq!(load_from_dir(None).unwrap().headline_pattern, DEFAULT_HEADLINE_PATTERN);
}

#[test]
fn orphan_rule_dropped_without_roots() {
    let rules = default_rules();
    let had = rules.iter().any(|r| matches!(r, Rule::OrphanModule(_)));
    assert!(had);
    let packed = pack_for_roots(default_rules(), false);
    assert!(!packed.iter().any(|r| matches!(r, Rule::OrphanModule(_))));
    assert_eq!(pack_for_roots(default_rules(), true).len(), rules.len());
}

#[test]
fn transitions_follow_the_lifecycle() {
    assert_eq!(transition_kind(State::Inbox, State::Working), Some(EventKind::Claim));
    assert_eq!(transition_kind(State::Working, State::Proven), Some(EventKind::Promote));
    assert_eq!(transition_kind(State::Proven, State::Inbox), Some(EventKind::Invalidate));
    assert!(transition_kind(State::Inbox, State::Proven).is_none());
    assert!(transition_kind(State::Inbox, State::Inbox).is_none());
}

#[test]
fn mizar_deps_come_before_their_dependents() {
    let tree = SourceTree {
        files: vec![
            file("r/x.miz", "environ\nbegin\n"),
            file("r/y.miz", "environ\n theorems X;\nbegin\n"),
            file("r/z.miz", "environ\n theorems Y, XBOOLE_0;\nbegin\n"),
        ],
    };
    let deps = mizar_transitive_deps(&parse_environ_imports("environ\n theorems Z;\nbegin\n"), "r", &tree);
    assert_eq!(deps, vec!["x".to_string(), "y".to_string(), "z".to_string()]);
}

#[test]
fn stale_tracks_promotion_records() {
    let ws = Workspace::open("ws", &[true, true, true, true]).unwrap();
    let mut m = ProvenManifest::new();
    m.insert("A.agda".to_string(), ProvenRecord { sha256: "h1".to_string(), promoted_at: "t".to_string() });
    let fresh = vec![("A.agda".to_string(), "h1".to_string())];
    assert!(ws.stale_proven(&m, &fresh).is_empty());
    let edited = vec![("A.agda".to_string(), "h2".to_string()), ("B.agda".to_string(), "h3".to_string())];
    let s = ws.stale_proven(&m, &edited);
    assert_eq!(s.len(), 2);
    assert_eq!((s[0].file.as_str(), s[0].reason), ("A.agda", "content changed since promotion"));
    assert_eq!((s[1].file.as_str(), s[1].reason), ("B.agda", "no recorded hash"));
    assert!(m.remove("A.agda"));
    assert_eq!(ws.stale_proven(&m, &fresh)[0].reason, "no recorded hash");
}

#[test]
fn promotion_plan_records_and_invalidation_drops() {
    let ws = Workspace::open("ws", &[true, true, true, true]).unwrap();
    let p = ws.plan_transition("A.agda", State::Working, State::Proven, true).unwrap();
    assert!(p.record_hash && !p.drop_record);
    assert_eq!(p.src, "ws/working/A.agda");
    assert_eq!(p.dst, "ws/proven/A.agda");
    let q = ws.plan_transition("A.agda", State::Proven, State::Inbox, true).unwrap();
    assert!(q.drop_record && !q.record_hash);
    assert!(ws.plan_transition("A.agda", State::Inbox, State::Proven, true).is_err());
    assert!(Workspace::open("ws", &[true, false, true, true]).is_err());
}

#[test]
fn run_verdicts_come_from_the_tools_output() {
    let agda = AnyBackend::Agda(Agda);
    assert_eq!(run_verdict(&agda, "", true, "", None, None), Verdict::Proven);
    assert_eq!(run_verdict(&agda, "", false, "", None, None), Verdict::Error);
    let z3 = AnyBackend::Smt(Smt::z3());
    assert_eq!(run_verdict(&z3, "", true, "unsat\n", None, None), Verdict::Proven);
    assert_eq!(run_verdict(&z3, "", true, "sat\n", None, None), Verdict::Refuted);
    let coq = AnyBackend::Coq(Coq);
    assert_eq!(run_verdict(&coq, "Lemma l : True.\nAdmitted.\n", true, "", None, None), Verdict::Admitted);
    let lean = AnyBackend::Lean(Lean);
    assert!(needs_audit(&lean, true, ""));
    assert!(!needs_audit(&agda, true, ""));
    assert_eq!(run_verdict(&lean, "", true, "", Some(Verdict::Proven), None), Verdict::Proven);
    assert_eq!(run_verdict(&lean, "", true, "", None, None), Verdict::Unknown);
    let miz = AnyBackend::Mizar(Mizar);
    assert_eq!(run_verdict(&miz, "", true, "", None, Some(0)), Verdict::Proven);
    assert_eq!(run_verdict(&miz, "", true, "", None, None), Verdict::Error);
}

#[test]
fn isabelle_session_and_mizar_export_plan() {
    assert_eq!(session_root("T"), "session \"ArghdaCheck\" = \"HOL\" +\n  theories\n    T\n");
    let steps = export_steps(&vec!["x".to_string(), "y".to_string()]);
    assert_eq!(steps.len(), 8);
    assert_eq!(steps[0], ("accom", "x".to_string()));
    assert_eq!(steps[3], ("transfer", "x".to_string()));
    assert_eq!(steps[5], ("verifier", "y".to_string()));
}

#[test]
fn manifest_gives_back_what_was_written() {
    let mut m = ProvenManifest::new();
    m.insert("B.agda".to_string(), ProvenRecord { sha256: "b".to_string(), promoted_at: "t1".to_string() });
    m.insert("A.agda".to_string(), ProvenRecord { sha256: "a".to_string(), promoted_at: "t2".to_string() });
    m.insert("B.agda".to_string(), ProvenRecord { sha256: "b2".to_string(), promoted_at: "t3".to_string() });
    assert_eq!(m.get("B.agda").unwrap().sha256, "b2");
    assert_eq!(m.get("A.agda").unwrap().promoted_at, "t2");
    assert!(m.contains_key("A.agda"));
    assert_eq!(m.entries.len(), 2);
    assert_eq!(m.entries[0].0, "A.agda");
    assert!(m.remove("B.agda"));
    assert!(m.get("B.agda").is_none());
    assert!(!m.remove("B.agda"));
}

#[test]
fn record_check_overrides_and_clears_staleness() {
    let mut verdicts = vec![("A".to_string(), Verdict::Proven), ("B".to_string(), Verdict::Proven)];
    let mut stale = vec!["A".to_string(), "B".to_string(), "A".to_string()];
    record_check(&mut verdicts, &mut stale, "A", Verdict::Error);
    assert_eq!(verdicts.iter().rev().find(|(n, _)| n == "A").unwrap().1, Verdict::Error);
    assert_eq!(verdicts.iter().rev().find(|(n, _)| n == "B").unwrap().1, Verdict::Proven);
    assert_eq!(stale, vec!["B".to_string()]);
}

#[test]
fn probe_arguments_per_backend() {
    assert_eq!(probe_arg(&AnyBackend::Isabelle(Isabelle)), "version");
    assert_eq!(probe_arg(&AnyBackend::Mizar(Mizar)), "-v");
    assert_eq!(probe_arg(&AnyBackend::Agda(Agda)), "--version");
}

#[test]
fn civil_dates_from_day_numbers() {
    assert_eq!(civil_from_days(0), (1970, 1, 1));
    assert_eq!(civil_from_days(19782), (2024, 2, 29));
    assert_eq!(civil_from_days(-1), (1969, 12, 31));
    let (y, m, d) = civil_from_days(i64::MIN);
    assert!(y < 0 && (1..=12).contains(&m) && (1..=31).contains(&d));
}

#[test]
fn config_from_shape_reads_the_lint_table() {
    let ok = vec![("lint".to_string(), Some(vec![("headline_pattern".to_string(), Some("^x$".to_string()))]))];
    assert_eq!(config_from_shape(&ok).unwrap().headline_pattern, "^x$");
    let empty = vec![("lint".to_string(), Some(vec![]))];
    assert_eq!(config_from_shape(&empty).unwrap().headline_pattern, DEFAULT_HEADLINE_PATTERN);
    assert_eq!(config_from_shape(&vec![]).unwrap().headline_pattern, DEFAULT_HEADLINE_PATTERN);
    let other_table = vec![("other".to_string(), None)];
    assert!(config_from_shape(&other_table).is_err());
    let other_key = vec![("lint".to_string(), Some(vec![("colour".to_string(), Some("red".to_string()))]))];
    assert!(config_from_shape(&other_key).is_err());
    let not_string = vec![("lint".to_string(), Some(vec![("headline_pattern".to_string(), None)]))];
    assert!(config_from_shape(&not_string).is_err());
}

#[test]
fn invalid_pattern_error_names_the_pattern() {
    let e = UnpinnedHeadline::new("[").err().unwrap();
    assert!(e.starts_with("compiling headline pattern `[`: "), "{e}");
    assert!(e.len() > "compiling headline pattern `[`: ".len());
}

#[test]
fn run_lints_returns_the_first_failing_rule_error() {
    let ctx = LintContext {
        include_root: "r".to_string(),
        entry_modules: vec!["r/All.agda".to_string()],
        tree: SourceTree {
            files: vec![
                SourceFile { path: "r/All.agda".to_string(), text: None },
                file("r/X.agda", "module X where\n"),
            ],
        },
    };
    let rules = default_rules();
    let e = run_lints("r/X.agda", "module X where\n", &ctx, &rules).err().unwrap();
    assert_eq!(e, "reading r/All.agda");
    let only_orphan = vec![Rule::OrphanModule(OrphanModule)];
    let e2 = run_lints("r/X.agda", "module X where\n", &ctx, &only_orphan).err().unwrap();
    assert_eq!(e2, "reading r/All.agda");
}

#[test]
fn unreadable_import_fails_the_orphan_rule() {
    let ctx = LintContext {
        include_root: "r".to_string(),
        entry_modules: vec!["r/All.agda".to_string()],
        tree: SourceTree {
            files: vec![
                file("r/All.agda", "module All where\nimport Gone\n"),
                SourceFile { path: "r/Gone.agda".to_string(), text: None },
                file("r/X.agda", "module X where\n"),
            ],
        },
    };
    let rules = vec![Rule::OrphanModule(OrphanModule)];
    assert_eq!(run_lints("r/X.agda", "module X where\n", &ctx, &rules).err().unwrap(), "reading r/Gone.agda");
}

#[test]
fn unreadable_smoke_file_fails_the_headline_rule() {
    let ctx = LintContext {
        include_root: "r".to_string(),
        entry_modules: vec!["r/All.agda".to_string(), "r/Smoke.agda".to_string()],
        tree: SourceTree {
            files: vec![
                file("r/All.agda", "module All where\n"),
                SourceFile { path: "r/Smoke.agda".to_string(), text: None },
            ],
        },
    };
    let rules = vec![Rule::UnpinnedHeadline(UnpinnedHeadline::default())];
    let e = run_lints("r/X.agda", "module X where\nfoo : Set\n", &ctx, &rules).err().unwrap();
    assert_eq!(e, "reading Smoke file r/Smoke.agda");
    let r = run_lints("r/Smoke.agda", "module Smoke where\n", &ctx, &rules).unwrap();
    assert!(r.diagnostics.is_empty());
}

#[test]
fn module_path_round_trip_under_various_roots() {
    use_round_trip("r", "A.B", "r/A/B.agda");
    use_round_trip("r/", "A.B", "r/A/B.agda");
    use_round_trip("/", "Top", "/Top.agda");
    use_round_trip("", "X.Y.Z", "X/Y/Z.agda");
    use_round_trip("./src", "M", "./src/M.agda");
}

fn use_round_trip(root: &str, module: &str, file: &str) {
    let p = arghda_core::graph::module_to_path(module, root);
    assert_eq!(p, file);
    assert_eq!(arghda_core::graph::module_name_of(&p, root), Some(module.to_string()));
}

#[test]
fn mizar_dependencies_come_in_depth_first_order() {
    let tree = SourceTree {
        files: vec![
            file("r/a.miz", "environ\n theorems C;\nbegin\n"),
            file("r/b.miz", "environ\nbegin\n"),
            file("r/c.miz", "environ\n theorems B, D;\nbegin\n"),
            file("r/d.miz", "environ\nbegin\n"),
        ],
    };
    let direct = vec!["a".to_string(), "b".to_string()];
    let deps = mizar_transitive_deps(&direct, "r", &tree);
    assert_eq!(deps, vec!["b".to_string(), "d".to_string(), "c".to_string(), "a".to_string()]);
}
