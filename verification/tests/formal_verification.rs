use d3_symmetry::formal_verification::{
    assertion_text, binary_text, discriminant_script, has_no_nul, lambda_polynomial_script,
    lambda_polynomial_text, lambda_uniqueness_script, negation_text, numeral_text,
    record_of_outcome, rejected_record, settle, small_numeral_text, verdict_record, verdict_text,
    Satisfiability, Z3Verifier,
};

#[test]
fn solver_confirms_the_three_identities() {
    let results = Z3Verifier::new().run_all_verifications();
    assert_eq!(results.len(), 3);
    assert_eq!(results[0].name, "Polinomio característico λ (Z3/SMT)");
    assert_eq!(results[1].name, "Unicidad de λ (Z3/SMT)");
    assert_eq!(results[2].name, "Discriminante D=-3 (Z3/SMT)");
    assert!(results[0].passed);
    assert!(results[1].passed);
    assert!(results[2].passed);
    assert_eq!(results[0].details, "Z3 confirma: λ² + λ + 1 ≡ 0 (mod n) [UNSAT ⇒ válido]");
    assert_eq!(
        results[1].details,
        "Z3 confirma: ∃x = λ tal que x²+x+1 ≡ 0 (mod n) [SAT ⇒ válido]"
    );
    assert_eq!(results[2].details, "Z3 confirma: p ≡ 1 (mod 3) ∧ Δ ≠ 0 [UNSAT ⇒ válido]");
}

#[test]
fn single_verifications_agree_with_the_run_of_all() {
    let verifier = Z3Verifier::default();
    assert!(verifier.verify_lambda_polynomial().passed);
    assert!(verifier.verify_lambda_uniqueness().passed);
    assert!(verifier.verify_discriminant().passed);
}

#[test]
fn pieces_of_a_query() {
    assert_eq!(numeral_text("12"), "(_ bv12 512)");
    assert_eq!(small_numeral_text(0), "(_ bv0 512)");
    assert_eq!(small_numeral_text(27), "(_ bv27 512)");
    assert_eq!(binary_text("bvadd", "a", "b"), "(bvadd a b)");
    assert_eq!(negation_text("a"), "(not a)");
    assert_eq!(assertion_text("a"), "(assert a)\n");
    assert_eq!(
        lambda_polynomial_text("x", "n"),
        "(bvurem (bvadd (bvadd (bvurem (bvmul x x) n) x) (_ bv1 512)) n)"
    );
}

#[test]
fn query_of_the_polynomial() {
    assert_eq!(
        lambda_polynomial_script(),
        "(assert (not (= (bvurem (bvadd (bvadd (bvurem (bvmul (_ bv37718080363155996902926221483475020450927657555482586988616620542887997980018 512) (_ bv37718080363155996902926221483475020450927657555482586988616620542887997980018 512)) (_ bv115792089237316195423570985008687907852837564279074904382605163141518161494337 512)) (_ bv37718080363155996902926221483475020450927657555482586988616620542887997980018 512)) (_ bv1 512)) (_ bv115792089237316195423570985008687907852837564279074904382605163141518161494337 512)) (_ bv0 512))))\n"
    );
}

#[test]
fn query_of_the_root() {
    assert_eq!(
        lambda_uniqueness_script(),
        "(declare-const x (_ BitVec 512))\n(assert (bvult x (_ bv115792089237316195423570985008687907852837564279074904382605163141518161494337 512)))\n(assert (not (= x (_ bv0 512))))\n(assert (= (bvurem (bvadd (bvadd (bvurem (bvmul x x) (_ bv115792089237316195423570985008687907852837564279074904382605163141518161494337 512)) x) (_ bv1 512)) (_ bv115792089237316195423570985008687907852837564279074904382605163141518161494337 512)) (_ bv0 512)))\n(assert (= x (_ bv37718080363155996902926221483475020450927657555482586988616620542887997980018 512)))\n"
    );
}

#[test]
fn query_of_the_discriminant() {
    assert_eq!(
        discriminant_script(),
        "(assert (not (= (bvurem (_ bv115792089237316195423570985008687907853269984665640564039457584007908834671663 512) (_ bv3 512)) (_ bv1 512))))\n(assert (= (bvmul (_ bv27 512) (bvmul (_ bv7 512) (_ bv7 512))) (_ bv0 512)))\n"
    );
}

#[test]
fn solver_tells_a_false_identity_apart() {
    // 2 * 3 = 7 modulo 2^512 has no solution
    let wrong = "(assert (= (bvmul (_ bv2 512) (_ bv3 512)) (_ bv7 512)))\n";
    let record = settle("probe", wrong, 1, Satisfiability::Sat, "confirmed", " — refuted");
    assert!(!record.passed);
    assert_eq!(record.details, "Z3 resultado: Unsat — refuted");
    let right = "(assert (= (bvmul (_ bv2 512) (_ bv3 512)) (_ bv6 512)))\n";
    let record = settle("probe", right, 1, Satisfiability::Sat, "confirmed", " — refuted");
    assert!(record.passed);
    assert_eq!(record.details, "confirmed");
    let record = settle("probe", right, 1, Satisfiability::Unsat, "confirmed", " — refuted");
    assert!(!record.passed);
    assert_eq!(record.details, "Z3 resultado: Sat — refuted");
}

#[test]
fn queries_that_the_solver_does_not_take_are_rejected() {
    let broken = "(assert (= (bvmul (_ bv2 512) (_ bv3 512)) (_ bv6 512))\n";
    let record = settle("probe", broken, 1, Satisfiability::Sat, "confirmed", " — refuted");
    assert_eq!(record.name, "probe");
    assert!(!record.passed);
    assert_eq!(record.details, "Z3 no aceptó la consulta");
    let widths = "(assert (= (bvmul (_ bv2 512) (_ bv3 256)) (_ bv6 512)))\n";
    let record = settle("probe", widths, 1, Satisfiability::Sat, "confirmed", " — refuted");
    assert!(!record.passed);
    assert_eq!(record.details, "Z3 no aceptó la consulta");
    let with_nul = "(assert true)\u{0}\n";
    let record = settle("probe", with_nul, 1, Satisfiability::Sat, "confirmed", " — refuted");
    assert!(!record.passed);
    assert_eq!(record.details, "Z3 no aceptó la consulta");
    let short = "(assert true)\n";
    let record = settle("probe", short, 2, Satisfiability::Sat, "confirmed", " — refuted");
    assert!(!record.passed);
    assert_eq!(record.details, "Z3 no aceptó la consulta");
}

#[test]
fn outcome_with_all_formulas_held_reports_the_answer() {
    let passed = record_of_outcome(
        "probe",
        2,
        2,
        Satisfiability::Unsat,
        Satisfiability::Unsat,
        "confirmed",
        " — refuted",
    );
    assert_eq!(passed.name, "probe");
    assert!(passed.passed);
    assert_eq!(passed.details, "confirmed");
    let failed = record_of_outcome(
        "probe",
        2,
        2,
        Satisfiability::Unsat,
        Satisfiability::Sat,
        "confirmed",
        " — refuted",
    );
    assert!(!failed.passed);
    assert_eq!(failed.details, "Z3 resultado: Sat — refuted");
}

#[test]
fn outcome_with_formulas_missing_is_a_rejection() {
    for held in [0usize, 1, 3] {
        let record = record_of_outcome(
            "probe",
            held,
            2,
            Satisfiability::Sat,
            Satisfiability::Sat,
            "confirmed",
            " — refuted",
        );
        assert_eq!(record.name, "probe");
        assert!(!record.passed);
        assert_eq!(record.details, "Z3 no aceptó la consulta");
    }
}

#[test]
fn queries_hold_no_nul_character() {
    assert!(has_no_nul(lambda_polynomial_script().as_str()));
    assert!(has_no_nul(lambda_uniqueness_script().as_str()));
    assert!(has_no_nul(discriminant_script().as_str()));
}

#[test]
fn record_of_an_expected_answer() {
    let record = verdict_record(
        "probe",
        Satisfiability::Unsat,
        Satisfiability::Unsat,
        "confirmed",
        " — refuted",
    );
    assert_eq!(record.name, "probe");
    assert!(record.passed);
    assert_eq!(record.details, "confirmed");
}

#[test]
fn record_of_another_answer_names_it() {
    let sat = verdict_record(
        "probe",
        Satisfiability::Unsat,
        Satisfiability::Sat,
        "confirmed",
        " — propiedad NO verificada",
    );
    assert!(!sat.passed);
    assert_eq!(sat.details, "Z3 resultado: Sat — propiedad NO verificada");
    let unknown = verdict_record(
        "probe",
        Satisfiability::Sat,
        Satisfiability::Unknown,
        "confirmed",
        " — λ no satisface el polinomio",
    );
    assert!(!unknown.passed);
    assert_eq!(unknown.details, "Z3 resultado: Unknown — λ no satisface el polinomio");
    let unsat = verdict_record("probe", Satisfiability::Sat, Satisfiability::Unsat, "c", "!");
    assert_eq!(unsat.details, "Z3 resultado: Unsat!");
}

#[test]
fn record_of_a_rejected_query() {
    let record = rejected_record("probe");
    assert_eq!(record.name, "probe");
    assert!(!record.passed);
    assert_eq!(record.details, "Z3 no aceptó la consulta");
}

#[test]
fn names_of_the_verdicts() {
    assert_eq!(verdict_text(Satisfiability::Unsat), "Unsat");
    assert_eq!(verdict_text(Satisfiability::Unknown), "Unknown");
    assert_eq!(verdict_text(Satisfiability::Sat), "Sat");
}

#[test]
fn nul_characters_are_found() {
    assert!(has_no_nul(
        "115792089237316195423570985008687907852837564279074904382605163141518161494337"
    ));
    assert!(has_no_nul(""));
    assert!(has_no_nul("λ² + λ"));
    assert!(!has_no_nul("12\u{0}34"));
    assert!(!has_no_nul("\u{0}"));
}
