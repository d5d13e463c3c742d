use eval::config::{plan_job, ConfigError, EvalMode, Job, PathKind, Paths};

fn no_paths() -> Paths {
    Paths {
        dataset: None,
        chompy_ruleset: None,
        other_ruleset: None,
        ruleset_comparison_output: None,
        explanation_output: None,
        derivability_output: None,
    }
}

fn all_paths() -> Paths {
    Paths {
        dataset: Some("data.csv".to_string()),
        chompy_ruleset: Some("chompy.txt".to_string()),
        other_ruleset: Some("other.txt".to_string()),
        ruleset_comparison_output: Some("comparison.json".to_string()),
        explanation_output: Some("explanation.json".to_string()),
        derivability_output: Some("derivability.json".to_string()),
    }
}

#[test]
fn every_mode_has_its_name() {
    assert_eq!(EvalMode::from("caviar"), Some(EvalMode::CaviarComparison));
    assert_eq!(EvalMode::from("derivability"), Some(EvalMode::DerivabilityComparison));
    assert_eq!(EvalMode::from("verify"), Some(EvalMode::Verify));
    assert_eq!(EvalMode::from("eggsplain"), Some(EvalMode::Eggsplain));
    assert_eq!(EvalMode::from("soundness"), Some(EvalMode::Soundness));
}

#[test]
fn other_names_are_no_mode() {
    for name in ["", "Caviar", "caviar ", "derive", "verify!", "explain"] {
        assert_eq!(EvalMode::from(name), None);
    }
}

#[test]
fn an_unknown_mode_is_reported_before_any_path() {
    assert_eq!(plan_job("compare", no_paths()).err(), Some(ConfigError::UnknownMode));
    assert_eq!(plan_job("compare", all_paths()).err(), Some(ConfigError::UnknownMode));
}

#[test]
fn a_comparison_needs_a_dataset_and_an_output() {
    match plan_job("caviar", all_paths()) {
        Ok(Job::Compare { dataset, candidate, output }) => {
            assert_eq!(dataset, "data.csv");
            assert_eq!(candidate, Some("chompy.txt".to_string()));
            assert_eq!(output, "comparison.json");
        },
        _ => panic!("no comparison was planned"),
    }
    let mut paths = all_paths();
    paths.chompy_ruleset = None;
    assert!(matches!(plan_job("caviar", paths), Ok(Job::Compare { candidate: None, .. })));
    let mut paths = all_paths();
    paths.ruleset_comparison_output = None;
    assert_eq!(
        plan_job("caviar", paths).err(),
        Some(ConfigError::MissingPath(PathKind::RulesetComparisonOutput))
    );
    assert_eq!(
        plan_job("caviar", no_paths()).err(),
        Some(ConfigError::MissingPath(PathKind::Dataset))
    );
}

#[test]
fn a_derivation_needs_both_rule_sets_and_an_output() {
    match plan_job("derivability", all_paths()) {
        Ok(Job::Derive { ruleset, against, output }) => {
            assert_eq!(ruleset, "chompy.txt");
            assert_eq!(against, "other.txt");
            assert_eq!(output, "derivability.json");
        },
        _ => panic!("no derivation was planned"),
    }
    assert_eq!(
        plan_job("derivability", no_paths()).err(),
        Some(ConfigError::MissingPath(PathKind::ChompyRuleset))
    );
    let mut paths = all_paths();
    paths.other_ruleset = None;
    paths.derivability_output = None;
    assert_eq!(
        plan_job("derivability", paths).err(),
        Some(ConfigError::MissingPath(PathKind::OtherRuleset))
    );
    let mut paths = all_paths();
    paths.derivability_output = None;
    assert_eq!(
        plan_job("derivability", paths).err(),
        Some(ConfigError::MissingPath(PathKind::DerivabilityOutput))
    );
}

#[test]
fn an_explanation_needs_a_dataset_a_rule_set_and_an_output() {
    match plan_job("eggsplain", all_paths()) {
        Ok(Job::Explain { dataset, ruleset, output }) => {
            assert_eq!(dataset, "data.csv");
            assert_eq!(ruleset, "chompy.txt");
            assert_eq!(output, "explanation.json");
        },
        _ => panic!("no explanation was planned"),
    }
    assert_eq!(
        plan_job("eggsplain", no_paths()).err(),
        Some(ConfigError::MissingPath(PathKind::Dataset))
    );
    let mut paths = all_paths();
    paths.chompy_ruleset = None;
    assert_eq!(
        plan_job("eggsplain", paths).err(),
        Some(ConfigError::MissingPath(PathKind::ChompyRuleset))
    );
    let mut paths = all_paths();
    paths.explanation_output = None;
    assert_eq!(
        plan_job("eggsplain", paths).err(),
        Some(ConfigError::MissingPath(PathKind::ExplanationOutput))
    );
}

#[test]
fn verifying_needs_a_dataset_only() {
    let mut paths = no_paths();
    paths.dataset = Some("data.csv".to_string());
    match plan_job("verify", paths) {
        Ok(Job::Verify { dataset }) => assert_eq!(dataset, "data.csv"),
        _ => panic!("no verification was planned"),
    }
    assert_eq!(
        plan_job("verify", no_paths()).err(),
        Some(ConfigError::MissingPath(PathKind::Dataset))
    );
}

#[test]
fn a_soundness_run_needs_the_reference_rule_set() {
    let mut paths = no_paths();
    paths.other_ruleset = Some("reference.txt".to_string());
    match plan_job("soundness", paths) {
        Ok(Job::Soundness { reference }) => assert_eq!(reference, "reference.txt"),
        _ => panic!("no soundness run was planned"),
    }
    assert_eq!(
        plan_job("soundness", no_paths()).err(),
        Some(ConfigError::MissingPath(PathKind::OtherRuleset))
    );
}
