use arghda_core::dag::{DagDocument, DagNode, LintSummary};
use arghda_core::graph::Edge;
use arghda_core::prover::Verdict;
use arghda_core::reason::{build, demote, fold_verdicts, reachable_from, self_verdict_of, workspace_verdicts, Junct, ReasonDocument};

/// The effective verdicts and cycle marks of folding `selfv` over `edges`
/// (node positions), every node started in turn.
fn fold(selfv: &[Verdict], edges: &[(usize, usize, Junct)]) -> (Vec<Verdict>, Vec<bool>) {
    let mut adj: Vec<Vec<(usize, Junct)>> = vec![Vec::new(); selfv.len()];
    for (f, t, j) in edges {
        adj[*f].push((*t, *j));
    }
    let order: Vec<usize> = (0..selfv.len()).collect();
    let (eff, cyc, _) = fold_verdicts(&selfv.to_vec(), &adj, &order);
    (eff, cyc)
}

#[test]
fn demote_keeps_the_worse() {
    assert_eq!(demote(Verdict::Proven, Verdict::Postulated), Verdict::Postulated);
    assert_eq!(demote(Verdict::Unknown, Verdict::Proven), Verdict::Unknown);
    assert_eq!(demote(Verdict::Error, Verdict::Refuted), Verdict::Error);
}

#[test]
fn clean_but_unchecked_is_unknown_not_proven() {
    let (v, ev) = self_verdict_of("M", &[], &[], &[]);
    assert_eq!(v, Verdict::Unknown);
    assert!(ev.contains("no typecheck run"));
}

#[test]
fn supplied_proven_is_capped_by_postulate_lint() {
    let verdicts = vec![("M".to_string(), Verdict::Proven)];
    let (v, ev) = self_verdict_of("M", &["unjustified-postulate".to_string()], &[], &verdicts);
    assert_eq!(v, Verdict::Postulated);
    assert!(ev.contains("postulated"));
}

#[test]
fn orphan_lint_does_not_cap_soundness() {
    let verdicts = vec![("M".to_string(), Verdict::Proven)];
    let (v, _) = self_verdict_of("M", &["orphan-module".to_string()], &[], &verdicts);
    assert_eq!(v, Verdict::Proven);
}

#[test]
fn and_dependency_demotes_downstream() {
    // Top(0) imports Mid(1) imports Leaf(2); Leaf is Postulated.
    let (eff, _) = fold(
        &[Verdict::Proven, Verdict::Proven, Verdict::Postulated],
        &[(0, 1, Junct::And), (1, 2, Junct::And)],
    );
    assert_eq!(eff[2], Verdict::Postulated);
    assert_eq!(eff[1], Verdict::Postulated);
    assert_eq!(eff[0], Verdict::Postulated);
}

#[test]
fn or_alternative_keeps_a_goal_up() {
    // Goal(0) has two Or routes: RouteA(1) Error, RouteB(2) Proven.
    let (eff, _) = fold(
        &[Verdict::Proven, Verdict::Error, Verdict::Proven],
        &[(0, 1, Junct::Or), (0, 2, Junct::Or)],
    );
    assert_eq!(eff[0], Verdict::Proven);
}

#[test]
fn or_group_caps_at_best_when_no_route_is_green() {
    let (eff, _) = fold(
        &[Verdict::Proven, Verdict::Postulated, Verdict::Admitted],
        &[(0, 1, Junct::Or), (0, 2, Junct::Or)],
    );
    assert_eq!(eff[0], Verdict::Admitted);
}

#[test]
fn cycle_degrades_to_error_and_terminates() {
    let (eff, cyclic) = fold(
        &[Verdict::Proven, Verdict::Proven],
        &[(0, 1, Junct::And), (1, 0, Junct::And)],
    );
    assert!(cyclic.iter().any(|c| *c), "the cycle must be recorded");
    assert_eq!(eff[0], Verdict::Error);
    assert_eq!(eff[1], Verdict::Error);
}

#[test]
fn reachable_marks_only_the_root_cone() {
    // All(0) -> Used(1) -> Deep(2); Orphan(3) is imported by nobody.
    let adj: Vec<Vec<(usize, Junct)>> = vec![vec![(1, Junct::And)], vec![(2, Junct::And)], vec![], vec![]];
    let wired = reachable_from(&adj, &vec![0]);
    assert!(wired[0]);
    assert!(wired[1]);
    assert!(wired[2]);
    assert!(!wired[3]);
}

fn node(id: &str, file: &str) -> DagNode {
    DagNode {
        id: id.to_string(),
        file: file.to_string(),
        status: "clean",
        lint: LintSummary { hard_block: vec![], warn: vec![] },
        headlines: vec![],
    }
}

fn two_node_dag() -> DagDocument {
    DagDocument {
        version: "0.1",
        include_root: "/r".to_string(),
        entry_modules: vec!["/r/All.agda".to_string()],
        generated_at: "t".to_string(),
        nodes: vec![node("All", "All.agda"), node("Good", "Good.agda")],
        edges: vec![Edge { from: "All".to_string(), to: "Good".to_string(), kind: "imports" }],
        blocked: vec![],
    }
}

fn eff(d: &ReasonDocument, id: &str) -> Verdict {
    d.nodes.iter().find(|n| n.id == id).unwrap().effective
}

#[test]
fn workspace_proven_lights_the_cone_and_stale_demotes() {
    let dag = two_node_dag();
    let proven = vec!["Good.agda".to_string()];

    let (v, s) = workspace_verdicts(&dag, &proven, &vec![]);
    assert_eq!(v.iter().find(|(id, _)| id == "Good").map(|p| p.1), Some(Verdict::Proven));
    assert!(!v.iter().any(|(id, _)| id == "All"));
    assert!(s.is_empty());
    let doc = build(dag.clone(), &v, &s);
    assert_eq!(eff(&doc, "Good"), Verdict::Proven);
    assert_eq!(eff(&doc, "All"), Verdict::Unknown);

    let stale = vec!["Good.agda".to_string()];
    let (v2, s2) = workspace_verdicts(&dag, &proven, &stale);
    assert!(s2.contains(&"Good".to_string()));
    let doc2 = build(dag, &v2, &s2);
    assert_eq!(eff(&doc2, "Good"), Verdict::Unknown, "stale proven -> unknown");
    assert_eq!(eff(&doc2, "All"), Verdict::Unknown);
}
