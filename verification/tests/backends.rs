use arghda_core::lint::RuleConfig;
use arghda_core::prover::agda::Agda;
use arghda_core::prover::idris2::Idris2;
use arghda_core::prover::isabelle::{isabelle_verdict, Isabelle};
use arghda_core::prover::lean::{classify_axioms, decl_names, lean_verdict, Lean};
use arghda_core::prover::mizar::Mizar;
use arghda_core::prover::rocq::{coq_verdict, count_genuine_postulates, Coq};
use arghda_core::prover::smt::{parse_verdict, Smt};
use arghda_core::prover::{tail, Backend, BackendKind, Verdict};

#[test]
fn tail_keeps_last_n_lines() {
    assert_eq!(tail("a\nb\nc\nd", 2), "c\nd");
    assert_eq!(tail("only", 5), "only");
    assert_eq!(tail("", 3), "");
}

#[test]
fn agda_backend_identity() {
    assert_eq!(Agda.name(), "agda");
    assert_eq!(Agda.kind(), BackendKind::Assistant);
    assert_eq!(Agda.extensions(), &["agda"]);
    assert_eq!(Agda.safe_mode(), Some("--safe --without-K"));
}

#[test]
fn idris2_backend_identity() {
    assert_eq!(Idris2.name(), "idris2");
    assert_eq!(Idris2.kind(), BackendKind::Assistant);
    assert_eq!(Idris2.extensions(), &["idr"]);
}

#[test]
fn module_to_path_uses_idr_extension() {
    assert_eq!(Idris2.module_to_path("Data.Vect", "/r"), "/r/Data/Vect.idr");
}

#[test]
fn isabelle_backend_identity() {
    assert_eq!(Isabelle.name(), "isabelle");
    assert_eq!(Isabelle.kind(), BackendKind::Assistant);
    assert_eq!(Isabelle.extensions(), &["thy"]);
    assert_eq!(Isabelle.command(), "isabelle");
}

#[test]
fn module_to_path_uses_thy_extension() {
    assert_eq!(Isabelle.module_to_path("Foo", "/r"), "/r/Foo.thy");
}

#[test]
fn verdict_is_honest_about_sorry_axiom_and_clean() {
    assert_eq!(isabelle_verdict("lemma l: \"True\" by simp", false), Verdict::Error);
    assert_eq!(isabelle_verdict("lemma l: \"P\" sorry", true), Verdict::Admitted);
    assert_eq!(isabelle_verdict("lemma l: \"P\" oops", true), Verdict::Admitted);
    assert_eq!(isabelle_verdict("axiomatization where ax: \"P\"", true), Verdict::Postulated);
    assert_eq!(isabelle_verdict("lemma l: \"True\" by simp", true), Verdict::Proven);
}

#[test]
fn lean_backend_identity() {
    assert_eq!(Lean.name(), "lean4");
    assert_eq!(Lean.kind(), BackendKind::Assistant);
    assert_eq!(Lean.extensions(), &["lean"]);
    assert_eq!(Lean.command(), "lean");
}

#[test]
fn module_to_path_uses_lean_extension() {
    assert_eq!(Lean.module_to_path("Mathlib.Data.Nat", "/r"), "/r/Mathlib/Data/Nat.lean");
}

#[test]
fn decl_names_parses_keywords_modifiers_attributes() {
    let src = "\
@[simp] theorem foo : True := trivial\n\
private def bar : Nat := 0\n\
lemma baz.qux : 1 = 1 := rfl\n\
noncomputable def qq : Nat := 0\n\
example : True := trivial\n\
-- theorem commented : ...\n\
#eval 1\n";
    let names = decl_names(src);
    assert!(names.contains(&"foo".to_string()));
    assert!(names.contains(&"bar".to_string()));
    assert!(names.contains(&"baz.qux".to_string()), "dotted names kept");
    assert!(names.contains(&"qq".to_string()), "modifier skipped");
    assert!(!names.iter().any(|n| n == "example" || n == "1"));
}

#[test]
fn classify_axioms_maps_the_ground_truthed_output() {
    assert_eq!(classify_axioms("'t' does not depend on any axioms"), Verdict::Proven);
    assert_eq!(
        classify_axioms("'c' depends on axioms: [propext, Classical.choice, Quot.sound]"),
        Verdict::Proven,
    );
    assert_eq!(classify_axioms("'g' depends on axioms: [sorryAx]"), Verdict::Admitted);
    assert_eq!(
        classify_axioms("'n' depends on axioms: [Lean.ofReduceBool]"),
        Verdict::Postulated,
        "native_decide's axiom is non-standard => amber",
    );
    assert_eq!(
        classify_axioms("'a' depends on axioms: [propext]\n'b' depends on axioms: [sorryAx]"),
        Verdict::Admitted
    );
}

#[test]
fn verdict_is_honest_about_sorry_and_the_missing_audit() {
    assert_eq!(lean_verdict("", true), Verdict::Unknown);
    assert_eq!(
        lean_verdict("Foo.lean:1:8: warning: declaration uses 'sorry'", true),
        Verdict::Admitted
    );
    assert_eq!(lean_verdict("error: type mismatch", false), Verdict::Error);
}

#[test]
fn mizar_backend_identity() {
    assert_eq!(Mizar.name(), "mizar");
    assert_eq!(Mizar.kind(), BackendKind::Assistant);
    assert_eq!(Mizar.extensions(), &["miz"]);
    assert_eq!(Mizar.command(), "verifier");
}

#[test]
fn module_to_path_uses_miz_extension() {
    assert_eq!(Mizar.module_to_path("ordinal1", "/r"), "/r/ordinal1.miz");
}

#[test]
fn mizar_has_no_lint_rules() {
    assert!(Mizar.lint_rules(&RuleConfig::default()).unwrap().is_empty());
}

#[test]
fn coq_backend_identity() {
    assert_eq!(Coq.name(), "coq");
    assert_eq!(Coq.kind(), BackendKind::Assistant);
    assert_eq!(Coq.extensions(), &["v"]);
    assert_eq!(Coq.command(), "coqc");
}

#[test]
fn module_to_path_uses_v_extension() {
    assert_eq!(Coq.module_to_path("Coq.Lists.List", "/r"), "/r/Coq/Lists/List.v");
}

#[test]
fn verdict_is_honest_about_admit_axiom_and_clean() {
    assert_eq!(coq_verdict("Theorem t : True. Proof. exact I. Qed.\n", false), Verdict::Error);
    assert_eq!(coq_verdict("Theorem t : True.\nProof.\nAdmitted.\n", true), Verdict::Admitted);
    assert_eq!(
        coq_verdict("Axiom bad : False.\nTheorem t : True.\nProof.\nadmit.\nDefined.\n", true),
        Verdict::Admitted
    );
    assert_eq!(coq_verdict("Axiom em : forall P : Prop, P \\/ ~P.\n", true), Verdict::Postulated);
    assert_eq!(coq_verdict("Theorem t : True.\nProof.\nexact I.\nQed.\n", true), Verdict::Proven);
}

#[test]
fn section_scoped_declarations_are_discharged() {
    let code = "\
Section OrderedField.\n\
  Variable R : Type.\n\
  Hypothesis Rplus_comm : forall x y : R, x = y.\n\
  Parameter Rabs : R -> R.\n\
End OrderedField.\n";
    assert_eq!(count_genuine_postulates(code), 0);
}

#[test]
fn module_level_abstractions_are_not_postulates() {
    assert_eq!(count_genuine_postulates("Parameter State : Type.\n"), 0);
    assert_eq!(
        count_genuine_postulates("Parameter dec : forall x y : State, {x = y} + {x <> y}.\n"),
        0
    );
    assert_eq!(count_genuine_postulates("Parameter kernel : State -> State -> Q.\n"), 0);
}

#[test]
fn prop_valued_axioms_are_counted() {
    assert_eq!(
        count_genuine_postulates("Axiom excluded_middle : forall P : Prop, P \\/ ~P.\n"),
        1
    );
    assert_eq!(count_genuine_postulates("Parameter foo.\n"), 1);
}

#[test]
fn solver_identity() {
    assert_eq!(Smt::z3().name(), "z3");
    assert_eq!(Smt::cvc5().name(), "cvc5");
    assert_eq!(Smt::z3().kind(), BackendKind::Solver);
    assert_eq!(Smt::z3().extensions(), &["smt2"]);
}

#[test]
fn module_to_path_uses_smt2_extension() {
    assert_eq!(Smt::z3().module_to_path("queries.overflow", "/r"), "/r/queries/overflow.smt2");
}

#[test]
fn verdict_mapping_is_honest() {
    assert_eq!(parse_verdict("unsat\n", true), Verdict::Proven);
    assert_eq!(parse_verdict("sat\n", true), Verdict::Refuted);
    assert_eq!(parse_verdict("unknown\n", true), Verdict::Unknown);
    assert_eq!(parse_verdict("unsat\nunsat\n", true), Verdict::Proven);
    assert_eq!(parse_verdict("unsat\nsat\n", true), Verdict::Refuted);
    assert_eq!(parse_verdict("unsat\nunknown\n", true), Verdict::Unknown);
    assert_eq!(parse_verdict("(error \"parse error\")", false), Verdict::Error);
    assert_eq!(parse_verdict("(error \"x\")", true), Verdict::Error);
    assert_eq!(parse_verdict("", true), Verdict::Error);
}
