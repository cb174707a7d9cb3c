use sieve::analysis::corpus::AnalysisCorpus;
use sieve::analysis::dependency::DependencyConfig;
use sieve::analysis::filters::{AnalysisFilter, DependencyLayer};
use sieve::analysis::graph::{component_ids, insert_unique, tarjan_components, undirected_graph};
use sieve::analysis::lenses::LensAnalysisConfig;
use sieve::report::csv::cell;
use sieve::ui::{corpus_fingerprint, declaration_visible, is_math_kind, witness_paths, UiFilters};
use sieve::report::{csv, text};
use sieve::model::{
    DeclarationSnapshot, ExprStats, ExpressionGraph, ExpressionNode, ExtractionSnapshot, SymbolSnapshot,
};

fn stats(nodes: usize) -> ExprStats {
    ExprStats {
        nodes,
        max_depth: 1,
        bound_variables: 0,
        free_variables: 0,
        metavariables: 0,
        sorts: 0,
        constants: 1,
        applications: 0,
        lambdas: 0,
        foralls: 0,
        lets: 0,
        literals: 0,
        metadata: 0,
        projections: 0,
    }
}

fn node(id: usize, kind: &str, children: Vec<usize>, name: Option<&str>) -> ExpressionNode {
    ExpressionNode {
        id,
        kind: kind.into(),
        children,
        name: name.map(|n| n.into()),
        index: None,
        value: None,
        binder_info: None,
        universe_levels: vec![],
    }
}

fn type_graph(dependencies: &[&str]) -> ExpressionGraph {
    if dependencies.is_empty() {
        return ExpressionGraph { root: 0, nodes: vec![node(0, "sort", vec![], None)] };
    }
    let mut nodes: Vec<ExpressionNode> =
        dependencies.iter().enumerate().map(|(i, d)| node(i, "constant", vec![], Some(d))).collect();
    if dependencies.len() == 1 {
        return ExpressionGraph { root: 0, nodes };
    }
    let k = dependencies.len();
    nodes.push(node(k, "application", (0..k).collect(), None));
    ExpressionGraph { root: k, nodes }
}

fn declaration(name: &str, dependencies: &[&str]) -> DeclarationSnapshot {
    let graph = type_graph(dependencies);
    let size = if dependencies.len() > 1 { dependencies.len() + 1 } else { 1 };
    DeclarationSnapshot {
        name: name.into(),
        kind: "theorem".into(),
        module_name: Some("Fixture".into()),
        generation_kind: None,
        is_internal: false,
        is_private: false,
        is_unsafe: false,
        is_partial: false,
        doc_string: None,
        source_range: None,
        level_parameters: vec![],
        type_: name.into(),
        has_value: false,
        type_stats: stats(size),
        value_stats: None,
        type_graph: graph,
        value_graph: None,
        statement_dependencies: dependencies.iter().map(|d| d.to_string()).collect(),
        proof_dependencies: vec![],
        axioms: vec![],
        proof_steps: None,
    }
}

fn symbol(name: &str) -> SymbolSnapshot {
    SymbolSnapshot {
        name: name.into(),
        kind: "theorem".into(),
        module_name: Some("Fixture".into()),
        generation_kind: None,
        is_internal: false,
        is_private: false,
        is_unsafe: false,
        is_partial: false,
        is_class: false,
        is_instance: false,
        is_projection: false,
    }
}

/// A -> B -> C, D -> B, E alone, F <-> G.
fn fixture() -> AnalysisCorpus {
    let shape: Vec<(&str, Vec<&str>)> = vec![
        ("A", vec!["B"]),
        ("B", vec!["C"]),
        ("C", vec![]),
        ("D", vec!["B"]),
        ("E", vec![]),
        ("F", vec!["G"]),
        ("G", vec!["F"]),
    ];
    AnalysisCorpus::new(ExtractionSnapshot {
        schema_version: 6,
        lean_version: "fixture".into(),
        imported_modules: vec!["Fixture".into()],
        declarations: shape.iter().map(|(n, d)| declaration(n, d)).collect(),
        symbols: shape.iter().map(|(n, _)| symbol(n)).collect(),
    })
    .unwrap()
}

fn names(v: &[&str]) -> Vec<String> {
    v.iter().map(|s| s.to_string()).collect()
}

#[test]
fn shortest_path_follows_dependencies() {
    let corpus = fixture();
    let config = DependencyConfig::default();
    let path = corpus.shortest_dependency_path("A", "C", &config).unwrap();
    assert_eq!(path.nodes, names(&["A", "B", "C"]));
    assert_eq!(path.layers, vec![DependencyLayer::Statement, DependencyLayer::Statement]);
    assert_eq!(path.total_weight, 2);
    assert!(corpus.shortest_dependency_path("C", "A", &config).is_none());
    assert!(corpus.shortest_dependency_path("Missing", "A", &config).is_none());
    let itself = corpus.shortest_dependency_path("A", "A", &config).unwrap();
    assert_eq!(itself.nodes, names(&["A"]));
    assert_eq!(itself.total_weight, 0);
}

#[test]
fn shortest_path_respects_depth() {
    let corpus = fixture();
    let mut config = DependencyConfig::default();
    config.max_depth = 1;
    assert!(corpus.shortest_dependency_path("A", "C", &config).is_none());
    assert!(corpus.shortest_dependency_path("A", "B", &config).is_some());
}

#[test]
fn weak_components_are_sorted_by_size_then_name() {
    let corpus = fixture();
    let result = corpus.connected_components(&DependencyConfig::default());
    assert_eq!(result.components, vec![names(&["A", "B", "C", "D"]), names(&["F", "G"]), names(&["E"])]);
    assert_eq!(result.algorithm, "weakly connected components");
    assert!(!result.external_symbols_included);
}

#[test]
fn strong_components_group_cycles() {
    let corpus = fixture();
    let result = corpus.strongly_connected_components(&DependencyConfig::default());
    assert_eq!(
        result.components,
        vec![names(&["F", "G"]), names(&["A"]), names(&["B"]), names(&["C"]), names(&["D"]), names(&["E"])]
    );
    assert_eq!(result.algorithm, "Tarjan strongly connected components");
}

#[test]
fn graph_structure_finds_cut_vertices_and_bridges() {
    let corpus = fixture();
    let result = corpus.graph_structure(&DependencyConfig::default());
    assert_eq!(result.articulation_points, names(&["B"]));
    let bridges: Vec<(String, String)> =
        vec![("A", "B"), ("B", "C"), ("B", "D"), ("F", "G")].into_iter().map(|(a, b)| (a.to_string(), b.to_string())).collect();
    assert_eq!(result.bridges, bridges);
    // Synchronous label propagation oscillates with period two on these
    // components; after the fifty rounds it ends where it was after two.
    let communities: Vec<(String, usize)> = vec![("A", 0), ("B", 1), ("C", 0), ("D", 0), ("E", 2), ("F", 3), ("G", 4)]
        .into_iter()
        .map(|(n, c)| (n.to_string(), c))
        .collect();
    assert_eq!(result.communities, communities);
}

#[test]
fn shared_dependencies_intersect_direct_targets() {
    let corpus = fixture();
    let config = DependencyConfig::default();
    assert_eq!(corpus.shared_dependencies(&names(&["A", "D"]), &config), Some(names(&["B"])));
    assert_eq!(corpus.shared_dependencies(&names(&["A", "B"]), &config), Some(vec![]));
    assert_eq!(corpus.shared_dependencies(&names(&["A", "Missing"]), &config), None);
    assert_eq!(corpus.shared_dependencies(&[], &config), Some(vec![]));
}

#[test]
fn module_occurrences_sum_edge_weights() {
    let corpus = fixture();
    let table = corpus.module_dependency_occurrences(&AnalysisFilter::default());
    assert_eq!(table, vec![(("Fixture".to_string(), "Fixture".to_string(), DependencyLayer::Statement), 5)]);
}

#[test]
fn graph_helpers_on_plain_adjacency() {
    assert_eq!(insert_unique(&vec![1, 3], 2), vec![1, 2, 3]);
    assert_eq!(insert_unique(&vec![1, 3], 3), vec![1, 3]);
    let directed = vec![vec![(1, 1)], vec![(0, 1)], vec![(1, 2)], vec![]];
    let mask = vec![true, true, true, true];
    let undirected = undirected_graph(&directed, &mask);
    assert_eq!(undirected, vec![vec![1], vec![0, 2], vec![1], vec![]]);
    let components = component_ids(&undirected, &vec![0, 1, 2, 3]);
    assert_eq!(components, vec![vec![0, 1, 2], vec![3]]);
    let strong = tarjan_components(&directed, &mask, &vec![0, 1, 2, 3]);
    assert_eq!(strong.len(), 3);
    assert!(strong.iter().any(|c| {
        let mut c = c.clone();
        c.sort();
        c == vec![0, 1]
    }));
}

#[test]
fn path_and_csv_reports_render_exactly() {
    let corpus = fixture();
    let config = DependencyConfig::default();
    let path = corpus.shortest_dependency_path("A", "C", &config).unwrap();
    assert_eq!(text::path(&path), "shortest path (2 edges, total occurrence weight 2):\n  A -> B -> C\n");
    let filter = AnalysisFilter::default();
    assert_eq!(csv::modules(&corpus, &filter), "source_module,target_module,layer,weight\nFixture,Fixture,Statement,5\n");
    let nodes = csv::nodes(&corpus, &filter);
    assert!(nodes.starts_with(
        "id,display_name,module,kind,generated,source_backed,statement_occurrences,value_occurrences\n0,A,Fixture,theorem,false,false,1,0\n"
    ));
    assert_eq!(nodes.lines().count(), 8);
    let edges = csv::edges(&corpus, &filter);
    assert!(edges.contains("\nA,B,Statement,1,true,Fixture,Fixture,theorem,false,false,false\n"));
    assert_eq!(edges.lines().count(), 6);
}

#[test]
fn csv_cells_quote_only_when_needed() {
    assert_eq!(cell("plain"), "plain");
    assert_eq!(cell("a,b"), "\"a,b\"");
    assert_eq!(cell("say \"hi\""), "\"say \"\"hi\"\"\"");
    assert_eq!(cell("two\nlines"), "\"two\nlines\"");
    assert_eq!(cell(""), "");
}

#[test]
fn corpus_counts_total_the_admitted_declarations_and_edges() {
    let corpus = fixture();
    let counts = corpus.corpus_counts(&AnalysisFilter::default());
    assert_eq!(counts.declaration_count, 7);
    assert_eq!(counts.theorem_count, 7);
    assert_eq!(counts.generated_count, 0);
    assert_eq!(counts.symbol_count, 7);
    assert_eq!(counts.statement_occurrences, 7);
    assert_eq!(counts.value_occurrences, 0);
    assert_eq!(counts.statement_unique_nodes, 7);
    assert_eq!(counts.value_unique_nodes, 0);
    assert_eq!(counts.dependency_edges, 5);
    assert_eq!(counts.dependency_occurrences, 5);
    assert_eq!(counts.internal_dependency_edges, 5);
    assert_eq!(counts.by_kind, vec![("theorem".to_string(), 7)]);
    assert_eq!(counts.by_module, vec![("Fixture".to_string(), 7)]);
    assert_eq!(counts.statement_sizes, vec![1; 7]);
    assert!(counts.value_sizes.is_empty());
}

#[test]
fn corpus_fingerprints_are_stable_and_sixteen_hex_digits() {
    let first = corpus_fingerprint(&fixture());
    let second = corpus_fingerprint(&fixture());
    assert_eq!(first, second);
    assert_eq!(first.len(), 16);
    assert!(first.chars().all(|c| c.is_ascii_hexdigit() && !c.is_ascii_uppercase()));
}

#[test]
fn witnesses_follow_dependencies_both_ways() {
    let corpus = fixture();
    let w = witness_paths(&corpus, "decl:C", "A", 10).unwrap();
    assert_eq!(w.source, "C");
    assert_eq!(w.target, "A");
    assert_eq!(w.paths.len(), 1);
    assert_eq!(w.paths[0].nodes, names(&["A", "B", "C"]));
    let both = witness_paths(&corpus, "F", "G", 10).unwrap();
    assert_eq!(both.paths.len(), 2);
    assert_eq!(both.paths[0].nodes, names(&["G", "F"]));
    assert_eq!(both.paths[1].nodes, names(&["F", "G"]));
    let capped = witness_paths(&corpus, "F", "G", 1).unwrap();
    assert_eq!(capped.paths.len(), 1);
    assert_eq!(witness_paths(&corpus, "E", "A", 10).err().unwrap().message, "no dependency witness connects E and A");
}

#[test]
fn explorer_visibility_follows_its_switches() {
    let corpus = fixture();
    let defaults = UiFilters::default();
    assert!(declaration_visible(&corpus, 0, &defaults));
    let no_theorems = UiFilters { include_theorems: false, include_definitions: true, include_technical: false };
    assert!(!declaration_visible(&corpus, 0, &no_theorems));
    assert!(is_math_kind("abbrev"));
    assert!(!is_math_kind("instance"));
}

#[test]
fn influence_counts_theorems_that_depend_on_a_theorem() {
    let corpus = fixture();
    let mut config = LensAnalysisConfig::default();
    config.filter = AnalysisFilter::default();
    let graph = corpus.lens_layer_graph(DependencyLayer::Statement, &config);
    assert_eq!(graph.adjacency[0], vec![1]);
    assert_eq!(graph.reverse[1], vec![0, 3]);
    let regions: Vec<(String, String)> = vec![("A".to_string(), "statement-region-0001".to_string())];
    let evidence = corpus.influence_evidence(&graph, 2, DependencyLayer::Statement, &config, &regions, false).unwrap();
    assert_eq!(evidence.name, "C");
    assert_eq!(evidence.direct_dependents, names(&["B"]));
    assert_eq!(evidence.reachable_dependents, names(&["A", "B", "D"]));
    assert_eq!(evidence.graph_regions, vec!["statement-region-0001".to_string()]);
    assert_eq!(
        evidence.reason,
        "reachable from 3 theorem(s), including 1 direct dependent(s), across 1 graph region(s)"
    );
    assert!(!evidence.traversal_truncated);
    assert_eq!(evidence.representative_paths.len(), 3);
    assert_eq!(evidence.representative_paths[0].nodes, names(&["A", "B", "C"]));
    assert_eq!(evidence.representative_paths[1].nodes, names(&["D", "B", "C"]));
    assert_eq!(evidence.representative_paths[2].nodes, names(&["B", "C"]));
    let b = corpus.influence_evidence(&graph, 1, DependencyLayer::Statement, &config, &regions, false).unwrap();
    assert_eq!(b.direct_dependents, names(&["A", "D"]));
    assert!(corpus.influence_evidence(&graph, 4, DependencyLayer::Statement, &config, &regions, false).is_none());
    assert!(corpus.influence_evidence(&graph, 4, DependencyLayer::Statement, &config, &regions, true).is_some());
    assert!(corpus.influence_evidence(&graph, 2, DependencyLayer::Proof, &config, &regions, true).is_none());
}

fn corpus_of(declarations: Vec<DeclarationSnapshot>) -> AnalysisCorpus {
    let symbols: Vec<SymbolSnapshot> = declarations.iter().map(|d| symbol(&d.name)).collect();
    AnalysisCorpus::new(ExtractionSnapshot {
        schema_version: 6,
        lean_version: "fixture".into(),
        imported_modules: vec!["Fixture".into()],
        declarations,
        symbols,
    })
    .unwrap()
}

#[test]
fn equation_theorems_count_as_generated() {
    let mut equation = declaration("T.eq_1", &[]);
    equation.generation_kind = Some("equationTheorem".into());
    let corpus = corpus_of(vec![declaration("T", &[]), equation.clone()]);
    let counts = corpus.corpus_counts(&AnalysisFilter::all());
    assert_eq!(counts.declaration_count, 2);
    assert_eq!(counts.generated_count, 1);
    assert!(sieve::analysis::lenses::trust_evidence(&equation).is_generated);
    assert!(!sieve::analysis::lenses::trust_evidence(&declaration("T", &[])).is_generated);
}

#[test]
fn bridges_join_distinct_regions_through_a_theorem() {
    let corpus = fixture();
    let mut config = LensAnalysisConfig::default();
    config.filter = AnalysisFilter::default();
    let graph = corpus.lens_layer_graph(DependencyLayer::Statement, &config);
    let regions: Vec<(String, String)> = vec![
        ("A".to_string(), "r1".to_string()),
        ("C".to_string(), "r3".to_string()),
        ("D".to_string(), "r2".to_string()),
    ];
    let articulation = vec!["B".to_string()];
    let b = corpus
        .bridge_evidence(&graph, 1, DependencyLayer::Statement, &config, &regions, &articulation, false)
        .unwrap();
    assert_eq!(b.name, "B");
    assert!(b.articulation_point);
    assert_eq!(b.distinct_directed_region_pair_count, 2);
    let pairs: Vec<(String, String)> =
        b.directed_region_pairs.iter().map(|p| (p.incoming_region.clone(), p.outgoing_region.clone())).collect();
    assert_eq!(pairs, vec![("r1".to_string(), "r3".to_string()), ("r2".to_string(), "r3".to_string())]);
    assert_eq!(b.incoming_theorems, names(&["A", "D"]));
    assert_eq!(b.outgoing_theorems, names(&["C"]));
    assert_eq!(b.witness_paths.len(), 2);
    assert_eq!(b.witness_paths[0].nodes, names(&["A", "B", "C"]));
    assert_eq!(b.witness_paths[1].nodes, names(&["D", "B", "C"]));
    assert_eq!(b.reason, "lies on direct dependency witnesses for 2 distinct directed graph-region pair(s)");
    let same: Vec<(String, String)> =
        vec![("A".to_string(), "r".to_string()), ("C".to_string(), "r".to_string()), ("D".to_string(), "r".to_string())];
    assert!(corpus.bridge_evidence(&graph, 1, DependencyLayer::Statement, &config, &same, &articulation, false).is_none());
    let quiet = corpus.bridge_evidence(&graph, 1, DependencyLayer::Statement, &config, &same, &vec![], true).unwrap();
    assert_eq!(quiet.distinct_directed_region_pair_count, 0);
    assert!(!quiet.articulation_point);
    assert_eq!(quiet.reason, "no direct dependency witness connects distinct graph regions");
}

#[test]
fn inspection_subjects_must_be_theorems_with_steps_for_the_proof_lens() {
    let mut definition = declaration("d", &[]);
    definition.kind = "definition".into();
    let corpus = corpus_of(vec![declaration("T", &[]), definition]);
    assert_eq!(corpus.lens_subject("T", false).ok(), Some(0));
    assert_eq!(corpus.lens_subject("Z", false).err().unwrap().message, "unknown theorem Z");
    assert_eq!(corpus.lens_subject("d", false).err().unwrap().message, "d is a definition, not a theorem");
    assert_eq!(corpus.lens_subject("T", true).err().unwrap().message, "proof-step extraction is absent for T");
}

#[test]
fn influence_ranks_by_reach_then_direct_then_name() {
    let corpus = fixture();
    let mut config = LensAnalysisConfig::default();
    config.filter = AnalysisFilter::default();
    let graph = corpus.lens_layer_graph(DependencyLayer::Statement, &config);
    let regions: Vec<(String, String)> = vec![];
    let b = corpus.influence_evidence(&graph, 1, DependencyLayer::Statement, &config, &regions, false).unwrap();
    let c = corpus.influence_evidence(&graph, 2, DependencyLayer::Statement, &config, &regions, false).unwrap();
    let ranked = sieve::analysis::bridge::rank_influence(vec![b, c], 5);
    let order: Vec<String> = ranked.iter().map(|e| e.name.clone()).collect();
    assert_eq!(order, names(&["C", "B"]));
    let b = corpus.influence_evidence(&graph, 1, DependencyLayer::Statement, &config, &regions, false).unwrap();
    let c = corpus.influence_evidence(&graph, 2, DependencyLayer::Statement, &config, &regions, false).unwrap();
    let top = sieve::analysis::bridge::rank_influence(vec![b, c], 1);
    assert_eq!(top.len(), 1);
    assert_eq!(top[0].name, "C");
}

#[test]
fn comparisons_split_dependencies_and_count_kinds() {
    let corpus = corpus_of(vec![
        declaration("L", &["X", "Y"]),
        declaration("R", &["Y", "Z"]),
        declaration("X", &[]),
        declaration("Y", &[]),
        declaration("Z", &[]),
    ]);
    let facts = corpus.comparison_facts("L", "R", DependencyLayer::Statement).unwrap();
    assert!(!facts.exact_equal);
    assert!(facts.alpha_equivalent == facts.exact_equal || !facts.exact_equal);
    assert_eq!(facts.shared_dependencies, names(&["Y"]));
    assert_eq!(facts.left_only_dependencies, names(&["X"]));
    assert_eq!(facts.right_only_dependencies, names(&["Z"]));
    assert_eq!(facts.left_kinds, vec![("application".to_string(), 1), ("constant".to_string(), 2)]);
    assert_eq!(facts.left_size, 3);
    assert_eq!(facts.left_depth, 2);
    assert_eq!(facts.right_depth, 2);
    assert!(corpus.comparison_facts("L", "missing", DependencyLayer::Statement).is_none());
    assert!(corpus.comparison_facts("L", "R", DependencyLayer::Proof).is_none());
    let same = corpus.comparison_facts("X", "X", DependencyLayer::Statement).unwrap();
    assert!(same.exact_equal && same.alpha_equivalent);
}

#[test]
fn graph_regions_list_every_name_once_with_canonical_identifiers() {
    let corpus = fixture();
    let mut config = LensAnalysisConfig::default();
    config.filter = AnalysisFilter::default();
    let graph = corpus.lens_layer_graph(DependencyLayer::Statement, &config);
    let (regions, entries) = corpus.graph_regions(&graph, DependencyLayer::Statement, &config);
    let listed: Vec<String> = entries.iter().map(|(name, _)| name.clone()).collect();
    assert_eq!(listed, names(&["A", "B", "C", "D", "E", "F", "G"]));
    assert_eq!(entries[0].1, "statement-region-0001");
    assert!(entries.iter().all(|(_, id)| id.starts_with("statement-region-") && id.len() == "statement-region-0001".len()));
    let isolated = &entries[4].1;
    assert_eq!(entries.iter().filter(|(_, id)| id == isolated).count(), 1);
    let mut members_seen = 0;
    for region in &regions {
        assert_eq!(region.layer, DependencyLayer::Statement);
        let mut sorted = region.members.clone();
        sorted.sort();
        assert_eq!(sorted, region.members);
        for member in &region.members {
            assert!(entries.iter().any(|(name, id)| name == member && id == &region.id));
        }
        members_seen += region.members.len();
    }
    assert_eq!(members_seen, 7);
}

#[test]
fn swapped_comparisons_swap_their_sides() {
    let corpus = corpus_of(vec![
        declaration("L", &["X", "Y"]),
        declaration("R", &["Y", "Z"]),
        declaration("X", &[]),
        declaration("Y", &[]),
        declaration("Z", &[]),
    ]);
    let forward = corpus.comparison_facts("L", "R", DependencyLayer::Statement).unwrap();
    let backward = corpus.comparison_facts("R", "L", DependencyLayer::Statement).unwrap();
    assert_eq!(forward.exact_equal, backward.exact_equal);
    assert_eq!(forward.alpha_equivalent, backward.alpha_equivalent);
    assert_eq!(forward.shared_dependencies, backward.shared_dependencies);
    assert_eq!(forward.left_only_dependencies, backward.right_only_dependencies);
    assert_eq!(forward.right_only_dependencies, backward.left_only_dependencies);
    assert_eq!(forward.left_kinds, backward.right_kinds);
    assert_eq!((forward.left_size, forward.right_size), (backward.right_size, backward.left_size));
}

#[test]
fn witnesses_are_given_whenever_either_direction_connects() {
    let corpus = fixture();
    let both = witness_paths(&corpus, "A", "C", 10).unwrap();
    assert_eq!(both.paths.len(), 1);
    assert_eq!(both.paths[0].nodes, names(&["A", "B", "C"]));
    let cycle = witness_paths(&corpus, "decl:F", "G", 10).unwrap();
    assert_eq!(cycle.paths.len(), 2);
    let capped = witness_paths(&corpus, "F", "G", 1).unwrap();
    assert_eq!(capped.paths.len(), 1);
    assert!(witness_paths(&corpus, "A", "E", 10).is_err());
}
