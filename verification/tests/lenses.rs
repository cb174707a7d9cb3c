use sieve::analysis::corpus::AnalysisCorpus;
use sieve::analysis::filters::{AnalysisFilter, DependencyLayer};
use sieve::analysis::lenses::LensAnalysisConfig;
use sieve::model::{
    DeclarationSnapshot, ExprStats, ExpressionGraph, ExpressionNode, ExtractionSnapshot, SymbolSnapshot,
};

fn stats(nodes: usize) -> ExprStats {
    ExprStats {
        nodes,
        max_depth: 1,
        bound_variables: 0,
        free_variables: 0,
        metavariables: 0,
        sorts: 0,
        constants: 1,
        applications: 0,
        lambdas: 0,
        foralls: 0,
        lets: 0,
        literals: 0,
        metadata: 0,
        projections: 0,
    }
}

fn node(id: usize, kind: &str, children: Vec<usize>, name: Option<&str>) -> ExpressionNode {
    ExpressionNode {
        id,
        kind: kind.into(),
        children,
        name: name.map(|n| n.into()),
        index: None,
        value: None,
        binder_info: None,
        universe_levels: vec![],
    }
}

fn graph(dependencies: &[&str]) -> (ExpressionGraph, ExprStats) {
    if dependencies.is_empty() {
        return (ExpressionGraph { root: 0, nodes: vec![node(0, "sort", vec![], None)] }, stats(1));
    }
    let mut nodes: Vec<ExpressionNode> =
        dependencies.iter().enumerate().map(|(i, d)| node(i, "constant", vec![], Some(d))).collect();
    if dependencies.len() == 1 {
        return (ExpressionGraph { root: 0, nodes }, stats(1));
    }
    let k = dependencies.len();
    nodes.push(node(k, "application", (0..k).collect(), None));
    (ExpressionGraph { root: k, nodes }, stats(k + 1))
}

/// A theorem whose proof uses `proof_dependencies`.
fn declaration(name: &str, proof_dependencies: &[&str]) -> DeclarationSnapshot {
    let (type_graph, type_stats) = graph(&[]);
    let (value_graph, value_stats) = graph(proof_dependencies);
    DeclarationSnapshot {
        name: name.into(),
        kind: "theorem".into(),
        module_name: Some("Fixture".into()),
        generation_kind: None,
        is_internal: false,
        is_private: false,
        is_unsafe: false,
        is_partial: false,
        doc_string: None,
        source_range: None,
        level_parameters: vec![],
        type_: format!("Statement {name}"),
        has_value: true,
        type_stats,
        value_stats: Some(value_stats),
        type_graph,
        value_graph: Some(value_graph),
        statement_dependencies: vec![],
        proof_dependencies: proof_dependencies.iter().map(|d| d.to_string()).collect(),
        axioms: vec![],
        proof_steps: None,
    }
}

fn symbol(name: &str) -> SymbolSnapshot {
    SymbolSnapshot {
        name: name.into(),
        kind: "theorem".into(),
        module_name: Some("Fixture".into()),
        generation_kind: None,
        is_internal: false,
        is_private: false,
        is_unsafe: false,
        is_partial: false,
        is_class: false,
        is_instance: false,
        is_projection: false,
    }
}

fn corpus_of(declarations: Vec<DeclarationSnapshot>, symbols: Vec<SymbolSnapshot>) -> AnalysisCorpus {
    AnalysisCorpus::new(ExtractionSnapshot {
        schema_version: 6,
        lean_version: "fixture".into(),
        imported_modules: vec!["Fixture".into()],
        declarations,
        symbols,
    })
    .unwrap()
}

/// Two dense clusters joined through B, and one theorem on its own.
fn fixture() -> AnalysisCorpus {
    let declarations = vec![
        declaration("A1", &["A2", "B"]),
        declaration("A2", &["A1", "A3"]),
        declaration("A3", &["A1", "A2"]),
        declaration("B", &["C1"]),
        declaration("C1", &["C2", "C3"]),
        declaration("C2", &["C1", "C3"]),
        declaration("C3", &["C1", "C2"]),
        declaration("Disconnected", &[]),
    ];
    let symbols = declarations.iter().map(|d| symbol(&d.name)).collect();
    corpus_of(declarations, symbols)
}

/// VisibleLater depends on Foundation only through an internal declaration.
fn hidden_path_fixture() -> AnalysisCorpus {
    let mut hidden = declaration("Hidden", &["Foundation"]);
    hidden.is_internal = true;
    let declarations = vec![declaration("VisibleLater", &["Hidden"]), hidden, declaration("Foundation", &[])];
    let mut symbols: Vec<SymbolSnapshot> = declarations.iter().map(|d| symbol(&d.name)).collect();
    symbols[1].is_internal = true;
    corpus_of(declarations, symbols)
}

fn names(v: &[&str]) -> Vec<String> {
    v.iter().map(|s| s.to_string()).collect()
}

fn influence_names(corpus: &AnalysisCorpus, config: &LensAnalysisConfig) -> Vec<(String, usize, Vec<String>)> {
    let graph = corpus.lens_layer_graph(DependencyLayer::Proof, config);
    let (_, regions) = corpus.graph_regions(&graph, DependencyLayer::Proof, config);
    corpus
        .layer_influence(&graph, DependencyLayer::Proof, config, &regions, false)
        .into_iter()
        .map(|e| (e.name, e.reachable_dependent_count, e.reachable_dependents))
        .collect()
}

#[test]
fn influence_is_cycle_safe_and_ties_are_stable() {
    let config = LensAnalysisConfig { limit: 20, ..LensAnalysisConfig::default() };
    let first = influence_names(&fixture(), &config);
    assert!(!first.is_empty());
    assert!(first.iter().all(|(_, _, reachable)| reachable.len() <= 7));
    let listed: Vec<String> = first.iter().map(|(name, _, _)| name.clone()).collect();
    let mut sorted = listed.clone();
    sorted.sort();
    assert_eq!(listed, sorted);
    let second = influence_names(&fixture(), &config);
    assert_eq!(first, second);
}

#[test]
fn bridge_witnesses_are_real_directed_dependency_paths() {
    let corpus = fixture();
    let config = LensAnalysisConfig { limit: 20, ..LensAnalysisConfig::default() };
    let graph = corpus.lens_layer_graph(DependencyLayer::Proof, &config);
    let (_, regions) = corpus.graph_regions(&graph, DependencyLayer::Proof, &config);
    let bridges = corpus.layer_bridges(&graph, DependencyLayer::Proof, &config, &regions, &vec![], false);
    let bridge = bridges.iter().find(|evidence| evidence.name == "B").expect("B connects the two dense graph regions");
    assert!(bridge.distinct_directed_region_pair_count > 0);
    for witness in &bridge.witness_paths {
        assert_eq!(witness.nodes.len(), 3);
        for edge in witness.nodes.windows(2) {
            let source = corpus.declaration_id(&edge[0]).unwrap();
            assert!(corpus.outgoing_edge_ids(source).iter().any(|&id| {
                let dependency = &corpus.edges()[id];
                dependency.layer == DependencyLayer::Proof && dependency.target == edge[1]
            }));
        }
    }
}

#[test]
fn hidden_generated_nodes_connect_paths_without_becoming_reported_endpoints() {
    let corpus = hidden_path_fixture();
    let config = LensAnalysisConfig::default();
    let graph = corpus.lens_layer_graph(DependencyLayer::Proof, &config);
    let foundation = corpus.declaration_id("Foundation").unwrap();
    let influence = corpus.influence_evidence(&graph, foundation, DependencyLayer::Proof, &config, &vec![], true).unwrap();
    assert_eq!(influence.direct_dependent_count, 0);
    assert_eq!(influence.reachable_dependents, names(&["VisibleLater"]));
    assert_eq!(influence.representative_paths[0].nodes, names(&["VisibleLater", "Hidden", "Foundation"]));
    let included_config = LensAnalysisConfig {
        filter: AnalysisFilter { include_generated: true, ..AnalysisFilter::default() },
        ..LensAnalysisConfig::default()
    };
    let included_graph = corpus.lens_layer_graph(DependencyLayer::Proof, &included_config);
    let included = corpus
        .influence_evidence(&included_graph, foundation, DependencyLayer::Proof, &included_config, &vec![], true)
        .unwrap();
    assert!(included.reachable_dependents.contains(&"Hidden".to_string()));
}

#[test]
fn degrees_count_filtered_edges_and_weights() {
    let corpus = fixture();
    let config = sieve::analysis::dependency::DependencyConfig {
        filter: AnalysisFilter::default(),
        weighted: false,
        max_depth: 32,
        limit: 100,
    };
    let degrees = corpus.degree_counts(&config);
    assert_eq!(degrees.len(), 8);
    let b = degrees.iter().find(|d| corpus.declarations()[d.id].name == "B").unwrap();
    assert_eq!(b.in_degree, 1);
    assert_eq!(b.out_degree, 1);
    assert_eq!(b.weighted_in_degree, 1);
    let c1 = degrees.iter().find(|d| corpus.declarations()[d.id].name == "C1").unwrap();
    assert_eq!(c1.in_degree, 3);
    assert_eq!(c1.out_degree, 2);
    let lonely = degrees.iter().find(|d| corpus.declarations()[d.id].name == "Disconnected").unwrap();
    assert_eq!((lonely.in_degree, lonely.out_degree), (0, 0));
}

#[test]
fn ranking_orders_by_value_then_name_and_keeps_the_limit() {
    let corpus = fixture();
    let ranked = corpus.rank("proof-dependencies", &AnalysisFilter::default(), 3).unwrap();
    let got: Vec<(String, usize)> = ranked.into_iter().map(|r| (r.name, r.value)).collect();
    assert_eq!(got, vec![("A1".to_string(), 2), ("A2".to_string(), 2), ("A3".to_string(), 2)]);
    assert!(corpus.rank("unknown-metric", &AnalysisFilter::default(), 3).is_none());
    let axioms = corpus.rank("axioms", &AnalysisFilter::default(), 100).unwrap();
    assert_eq!(axioms.len(), 8);
    assert_eq!(axioms[0].name, "A1");
}

#[test]
fn metrics_export_lists_counts_per_declaration() {
    let corpus = hidden_path_fixture();
    let csv = sieve::report::csv::metrics(&corpus, &AnalysisFilter::all());
    let lines: Vec<&str> = csv.lines().collect();
    assert_eq!(lines.len(), 4);
    assert!(lines[0].starts_with("name,module,kind,generated"));
    assert_eq!(lines[1], "VisibleLater,Fixture,theorem,false,false,false,0,1,1,1,0,1,1,1,1");
    assert_eq!(lines[2], "Hidden,Fixture,theorem,true,false,false,0,1,1,1,0,1,1,1,1");
    assert_eq!(lines[3], "Foundation,Fixture,theorem,false,false,false,0,1,1,1,0,1,1,1,0");
}

#[test]
fn expression_counts_measure_each_layer() {
    let corpus = fixture();
    let a1 = corpus.declaration_id("A1").unwrap();
    let proof = corpus.expression_counts(a1, DependencyLayer::Proof).unwrap();
    assert_eq!((proof.total_occurrences, proof.unique_nodes, proof.maximum_depth, proof.direct_dependencies), (3, 3, 1, 2));
    let statement = corpus.expression_counts(a1, DependencyLayer::Statement).unwrap();
    assert_eq!(statement.direct_dependencies, 0);
}

#[test]
fn visibility_names_internal_private_and_public() {
    let mut d = declaration("T", &[]);
    assert_eq!(sieve::analysis::metrics::declaration_visibility(&d), "public");
    d.is_private = true;
    assert_eq!(sieve::analysis::metrics::declaration_visibility(&d), "private");
    d.is_internal = true;
    assert_eq!(sieve::analysis::metrics::declaration_visibility(&d), "internal");
}

#[test]
fn constant_frequencies_put_the_most_used_first() {
    let corpus = fixture();
    let a1 = corpus.declaration_id("A1").unwrap();
    let graph = corpus.declarations()[a1].value_graph.as_ref().unwrap();
    let frequencies = sieve::analysis::metrics::constant_frequencies(graph);
    let got: Vec<(String, usize)> = frequencies.into_iter().map(|c| (c.name, c.occurrences)).collect();
    assert_eq!(got, vec![("A2".to_string(), 1), ("B".to_string(), 1)]);
}

#[test]
fn kind_occurrences_count_the_expression_tree() {
    let corpus = fixture();
    let a1 = corpus.declaration_id("A1").unwrap();
    let kinds = corpus.kind_occurrences(a1, DependencyLayer::Proof).unwrap();
    assert_eq!(kinds, vec![("application".to_string(), 1), ("constant".to_string(), 2)]);
    let statement = corpus.kind_occurrences(a1, DependencyLayer::Statement).unwrap();
    assert_eq!(statement, vec![("sort".to_string(), 1)]);
}
