use sieve::analysis::filters::{DependencyLayer, LayerSelection};
use sieve::analysis::lenses::LensKind;
use sieve::analysis::structure::StructuralMode;
use sieve::cli::{parse_arguments, parse_command, parse_unsigned, selected_layer, Command};
use sieve::report::OutputFormat;

fn args(words: &[&str]) -> Vec<String> {
    words.iter().map(|w| w.to_string()).collect()
}

fn refusal(words: &[&str]) -> String {
    match parse_arguments(&args(words)) {
        Ok(_) => panic!("accepted {:?}", words),
        Err(e) => e.message,
    }
}

#[test]
fn parses_filters_explicitly() {
    let cli = parse_arguments(&args(&["summary", "--include-generated", "--layer", "proof"])).unwrap();
    assert!(cli.filter.include_generated);
    assert_eq!(cli.filter.layer, LayerSelection::Proof);
}

#[test]
fn parses_proof_step_selection() {
    let cli = parse_arguments(&args(&["proof-steps", "Example.theorem", "--step", "7", "--format", "json"])).unwrap();
    assert!(matches!(cli.command, Command::ProofSteps(ref name) if name == "Example.theorem"));
    assert_eq!(cli.selected_step, Some(7));
    assert_eq!(cli.format, OutputFormat::Json);
}

#[test]
fn parses_lens_commands_and_explicit_layers() {
    let cli = parse_arguments(&args(&["inspect", "Example.theorem", "--lens", "bridge", "--layer", "both"])).unwrap();
    assert!(matches!(cli.command, Command::Inspect(ref name) if name == "Example.theorem"));
    assert_eq!(cli.lens, LensKind::Bridge);
    assert!(cli.layer_explicit);
}

#[test]
fn rejects_unknown_or_discovery_only_lenses() {
    assert!(parse_arguments(&args(&["discover", "--lens", "proof"])).is_err());
    assert!(parse_arguments(&args(&["inspect", "T", "--lens", "meaning"])).is_err());
    assert!(parse_arguments(&args(&["discover", "--format", "csv"])).is_err());
}

#[test]
fn defaults_without_options() {
    let cli = parse_arguments(&args(&[])).unwrap();
    assert!(matches!(cli.command, Command::Summary));
    assert_eq!(cli.format, OutputFormat::Text);
    assert_eq!(cli.max_depth, 32);
    assert_eq!(cli.limit, 100);
    assert_eq!(cli.tree_depth, None);
    assert_eq!(cli.minimum_size, 4);
    assert_eq!(cli.minimum_support, 2);
    assert_eq!(cli.structural_mode, StructuralMode::AlphaEquivalent);
    assert_eq!(cli.port, 4173);
    assert_eq!(cli.lens, LensKind::All);
    assert!(!cli.layer_explicit);
    assert_eq!(cli.filter.layer, LayerSelection::Both);
    assert!(cli.histogram_buckets.is_none());
}

#[test]
fn reads_numbers_modes_and_later_values() {
    let cli = parse_arguments(&args(&[
        "duplicates", "--exact", "--limit", "5", "--limit", "9", "--tree-depth", "3", "--port", "8080",
        "--minimum-size", "6", "--kind", "theorem", "--module", "Mathlib.Logic", "--weighted",
    ]))
    .unwrap();
    assert!(matches!(cli.command, Command::Duplicates));
    assert_eq!(cli.limit, 9);
    assert_eq!(cli.tree_depth, Some(3));
    assert_eq!(cli.port, 8080);
    assert_eq!(cli.minimum_size, 6);
    assert_eq!(cli.structural_mode, StructuralMode::Exact);
    assert_eq!(cli.filter.declaration_kind.as_deref(), Some("theorem"));
    assert_eq!(cli.filter.module.as_deref(), Some("Mathlib.Logic"));
    assert!(cli.weighted);
    let alpha = parse_arguments(&args(&["duplicates", "--exact", "--alpha"])).unwrap();
    assert_eq!(alpha.structural_mode, StructuralMode::AlphaEquivalent);
}

#[test]
fn reports_each_refusal() {
    assert_eq!(refusal(&["--layer"]), "--layer requires statement, proof, or both");
    assert_eq!(refusal(&["--limit"]), "--limit requires a number");
    assert_eq!(refusal(&["--layer", "middle"]), "invalid layer middle");
    assert_eq!(refusal(&["--format", "xml"]), "invalid output format xml");
    assert_eq!(refusal(&["--lens", "meaning"]), "unknown lens meaning");
    assert_eq!(refusal(&["--max-depth", "deep"]), "invalid maximum depth");
    assert_eq!(refusal(&["--port", "70000"]), "invalid port");
    assert_eq!(refusal(&["--step", "-1"]), "invalid proof-step id");
    assert_eq!(refusal(&["--verbose"]), "unknown option --verbose");
    assert_eq!(refusal(&["graph", "extra"]), "graph takes no arguments");
    assert_eq!(refusal(&["path", "A"]), "usage: sieve path <source> <target>");
    assert_eq!(refusal(&["discover", "--lens", "trust"]), "discover supports influence, bridge, neighbors, or all");
    assert_eq!(refusal(&["inspect", "T", "--format", "csv"]), "discover and inspect support --format text or json");
    // The first faulty argument decides.
    assert_eq!(refusal(&["--verbose", "--layer", "middle"]), "unknown option --verbose");
}

#[test]
fn option_values_are_not_read_as_options() {
    let cli = parse_arguments(&args(&["summary", "--kind", "--weighted"])).unwrap();
    assert_eq!(cli.filter.declaration_kind.as_deref(), Some("--weighted"));
    assert!(!cli.weighted);
    assert!(matches!(cli.command, Command::Summary));
}

#[test]
fn help_flags_become_the_help_command() {
    assert!(matches!(parse_arguments(&args(&["-h"])).unwrap().command, Command::Help));
    assert!(matches!(parse_arguments(&args(&["--help"])).unwrap().command, Command::Help));
}

#[test]
fn commands_by_shape() {
    assert!(matches!(parse_command(args(&["compare", "A", "B"])).unwrap(), Command::Compare(ref a, ref b) if a == "A" && b == "B"));
    assert!(matches!(parse_command(args(&["Foo.bar", "Baz"])).unwrap(), Command::LegacyDeclarations(ref v) if v.len() == 2));
    assert!(parse_command(args(&["rank"])).is_err());
}

#[test]
fn selected_lenses_and_targets() {
    let discover = parse_arguments(&args(&["discover"])).unwrap();
    assert_eq!(discover.selected_lenses(), vec![LensKind::Influence, LensKind::Bridge, LensKind::Neighbors]);
    assert!(!discover.needs_targeted_proof_steps());
    let inspect = parse_arguments(&args(&["inspect", "T"])).unwrap();
    assert_eq!(inspect.selected_lenses().len(), 5);
    assert!(inspect.needs_targeted_proof_steps());
    let bridge = parse_arguments(&args(&["inspect", "T", "--lens", "bridge"])).unwrap();
    assert!(!bridge.needs_targeted_proof_steps());
    let steps = parse_arguments(&args(&["proof-steps", "T"])).unwrap();
    assert_eq!(steps.extraction_targets(), vec!["T".to_string()]);
    let legacy = parse_arguments(&args(&["A", "B"])).unwrap();
    assert_eq!(legacy.extraction_targets(), vec!["A".to_string(), "B".to_string()]);
    assert!(discover.extraction_targets().is_empty());
}

#[test]
fn unsigned_numbers_and_layers() {
    assert_eq!(parse_unsigned("0", 10), Some(0));
    assert_eq!(parse_unsigned("65535", 65535), Some(65535));
    assert_eq!(parse_unsigned("65536", 65535), None);
    assert_eq!(parse_unsigned("", 10), None);
    assert_eq!(parse_unsigned("1a", 10), None);
    assert_eq!(selected_layer(LayerSelection::Statement), DependencyLayer::Statement);
    assert_eq!(selected_layer(LayerSelection::Proof), DependencyLayer::Proof);
}
