use sieve::analysis::corpus::AnalysisCorpus;
use sieve::analysis::dependency::DependencyConfig;
use sieve::analysis::filters::AnalysisFilter;
use sieve::model::{
    DeclarationSnapshot, ExprStats, ExpressionGraph, ExpressionNode, ExtractionSnapshot, SymbolSnapshot,
};

fn stats(nodes: usize) -> ExprStats {
    ExprStats {
        nodes,
        max_depth: 1,
        bound_variables: 0,
        free_variables: 0,
        metavariables: 0,
        sorts: 0,
        constants: 1,
        applications: 0,
        lambdas: 0,
        foralls: 0,
        lets: 0,
        literals: 0,
        metadata: 0,
        projections: 0,
    }
}

fn constant_graph(name: &str) -> ExpressionGraph {
    ExpressionGraph {
        root: 0,
        nodes: vec![ExpressionNode {
            id: 0,
            kind: "constant".into(),
            children: vec![],
            name: Some(name.into()),
            index: None,
            value: None,
            binder_info: None,
            universe_levels: vec![],
        }],
    }
}

fn declaration(name: &str, dependency: &str, generated: bool) -> DeclarationSnapshot {
    DeclarationSnapshot {
        name: name.into(),
        kind: "theorem".into(),
        module_name: Some("Fixture".into()),
        generation_kind: None,
        is_internal: generated,
        is_private: false,
        is_unsafe: false,
        is_partial: false,
        doc_string: None,
        source_range: None,
        level_parameters: vec![],
        type_: dependency.into(),
        has_value: false,
        type_stats: stats(1),
        value_stats: None,
        type_graph: constant_graph(dependency),
        value_graph: None,
        statement_dependencies: vec![dependency.into()],
        proof_dependencies: vec![],
        axioms: vec![],
        proof_steps: None,
    }
}

fn symbol(name: &str, generated: bool) -> SymbolSnapshot {
    SymbolSnapshot {
        name: name.into(),
        kind: "theorem".into(),
        module_name: Some("Fixture".into()),
        generation_kind: None,
        is_internal: generated,
        is_private: false,
        is_unsafe: false,
        is_partial: false,
        is_class: false,
        is_instance: false,
        is_projection: false,
    }
}

fn fixture() -> AnalysisCorpus {
    AnalysisCorpus::new(ExtractionSnapshot {
        schema_version: 6,
        lean_version: "fixture".into(),
        imported_modules: vec!["Fixture".into()],
        declarations: vec![
            declaration("A", "B", false),
            declaration("B", "A", false),
            declaration("C", "B", true),
        ],
        symbols: vec![symbol("A", false), symbol("B", false), symbol("C", true)],
    })
    .unwrap()
}

#[test]
fn filtering_does_not_mutate_unfiltered_results() {
    let corpus = fixture();
    assert_eq!(corpus.filtered_declaration_ids(&AnalysisFilter::all()).len(), 3);
    assert_eq!(corpus.filtered_declaration_ids(&AnalysisFilter::default()).len(), 2);
    assert_eq!(corpus.filtered_declaration_ids(&AnalysisFilter::all()).len(), 3);
}

#[test]
fn traversal_is_cycle_safe_and_reverse_edges_are_indexed() {
    let corpus = fixture();
    let config = DependencyConfig {
        filter: AnalysisFilter::all(),
        max_depth: 20,
        limit: 20,
        ..DependencyConfig::default()
    };
    let forward = corpus.traverse_dependencies("A", false, &config).unwrap();
    assert_eq!(
        forward.nodes.iter().map(|node| node.name.as_str()).collect::<Vec<_>>(),
        vec!["B"]
    );
    let reverse = corpus.direct_dependents("B", &config).unwrap();
    assert_eq!(
        reverse.edges.iter().map(|edge| edge.source.as_str()).collect::<Vec<_>>(),
        vec!["A", "C"]
    );
}

#[test]
fn corpus_indexes_edges_both_ways() {
    let corpus = fixture();
    assert_eq!(corpus.edges().len(), 3);
    assert_eq!(corpus.outgoing_edge_ids(0), &[0]);
    assert_eq!(corpus.incoming_edge_ids("B"), &[0, 2]);
    assert_eq!(corpus.incoming_edge_ids("Missing"), &[] as &[usize]);
    assert_eq!(corpus.declaration_id("C"), Some(2));
    assert_eq!(corpus.declaration_id("D"), None);
    assert_eq!(corpus.symbol("A").map(|s| s.name.as_str()), Some("A"));
    assert_eq!(corpus.internal_dependency_edge_count(), 3);
    assert_eq!(corpus.multiplicities(1, sieve::analysis::filters::DependencyLayer::Statement), Some(&[1usize][..]));
    assert_eq!(corpus.multiplicities(1, sieve::analysis::filters::DependencyLayer::Proof), None);
    assert_eq!(corpus.filtered_edges(&AnalysisFilter::default()).len(), 2);
}

#[test]
fn corpus_rejects_unsupported_schema() {
    let snapshot = ExtractionSnapshot {
        schema_version: 3,
        lean_version: "fixture".into(),
        imported_modules: vec!["Fixture".into()],
        declarations: vec![],
        symbols: vec![],
    };
    assert!(AnalysisCorpus::new(snapshot).is_err());
}

#[test]
fn corpus_rejects_dependencies_missing_from_the_symbol_table() {
    let snapshot = ExtractionSnapshot {
        schema_version: 6,
        lean_version: "fixture".into(),
        imported_modules: vec!["Fixture".into()],
        declarations: vec![declaration("A", "Missing", false)],
        symbols: vec![symbol("A", false)],
    };
    assert!(AnalysisCorpus::new(snapshot).is_err());
}

#[test]
fn direct_dependencies_summarize_by_module_and_kind() {
    let corpus = fixture();
    let config = DependencyConfig { filter: AnalysisFilter::all(), ..DependencyConfig::default() };
    let summary = corpus.direct_dependencies("A", &config).unwrap();
    assert_eq!(summary.direction, "forward");
    assert_eq!(summary.edges.len(), 1);
    assert_eq!(summary.edges[0].target, "B");
    assert_eq!(summary.occurrences_by_module, vec![("Fixture".to_string(), 1)]);
    assert_eq!(summary.occurrences_by_kind, vec![("theorem".to_string(), 1)]);
    assert!(!summary.truncated);
    assert!(corpus.direct_dependencies("Nope", &config).is_none());
    let limited = DependencyConfig { filter: AnalysisFilter::all(), limit: 1, ..DependencyConfig::default() };
    let reverse = corpus.direct_dependents("B", &limited).unwrap();
    assert!(reverse.truncated);
    assert_eq!(reverse.edges.len(), 1);
    assert_eq!(reverse.occurrences_by_module, vec![("Fixture".to_string(), 2)]);
}

#[test]
fn traversal_respects_depth_and_limit() {
    let corpus = fixture();
    let shallow = DependencyConfig { filter: AnalysisFilter::all(), max_depth: 0, ..DependencyConfig::default() };
    assert!(corpus.traverse_dependencies("A", false, &shallow).unwrap().nodes.is_empty());
    let none = DependencyConfig { filter: AnalysisFilter::all(), limit: 0, ..DependencyConfig::default() };
    let result = corpus.traverse_dependencies("B", true, &none).unwrap();
    assert!(result.nodes.is_empty());
    assert!(!result.truncated);
    let all = DependencyConfig { filter: AnalysisFilter::all(), ..DependencyConfig::default() };
    let reverse = corpus.traverse_dependencies("B", true, &all).unwrap();
    assert_eq!(
        reverse.nodes.iter().map(|n| (n.name.as_str(), n.depth)).collect::<Vec<_>>(),
        vec![("A", 1), ("C", 1)]
    );
    assert!(corpus.traverse_dependencies("Unknown", false, &all).is_none());
}
