use sieve::extraction::ExtractionConfig;
use sieve::ui::concise;

#[test]
fn extraction_config_requires_modules_and_deduplicates_them() {
    assert!(ExtractionConfig::new(".", vec![]).is_err());
    let config = ExtractionConfig::new("/tmp/example", vec!["Example.Basic".into(), "Example.Basic".into()]).unwrap();
    assert_eq!(config.modules, vec!["Example.Basic"]);
}

#[test]
fn extraction_config_rejects_blank_module_names() {
    let error = ExtractionConfig::new(".", vec!["A".into(), " \t".into()]).unwrap_err();
    assert_eq!(error.message, "imported module names cannot be empty");
    let error = ExtractionConfig::new(".", vec![]).unwrap_err();
    assert_eq!(error.message, "at least one --import module is required");
    let config = ExtractionConfig::new("p", vec!["B".into(), "A".into(), "B".into()]).unwrap();
    assert_eq!(config.modules, vec!["B", "A"]);
    assert_eq!(config.project, "p");
}

#[test]
fn concise_statements_are_bounded() {
    assert_eq!(concise("  alpha   beta  ", 20), "alpha beta");
    assert_eq!(concise("abcdefghijk", 6), "abcde…");
}

#[test]
fn concise_handles_exact_fits_and_zero_budgets() {
    assert_eq!(concise("a\u{3000}b", 3), "a b");
    assert_eq!(concise("abc", 0), "…");
    assert_eq!(concise("", 0), "");
}
