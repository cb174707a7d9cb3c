use std::collections::{BTreeSet, VecDeque};

use sieve::analysis::proof_steps::{
    build_proof_outline, meaningful_named_reference, validate_proof_steps, ProofStepGraph, MAX_OUTLINE_NODES,
};
use sieve::analysis::corpus::AnalysisCorpus;
use sieve::model::{
    DeclarationSnapshot, ExprStats, ExpressionGraph, ExpressionNode, ExtractionSnapshot, NamedResultSnapshot, ProofStep,
    ProofStepExtraction, SymbolSnapshot,
};
use sieve::ui::{proof_view, ProofViewEdge, ProofViewStep};

fn graph() -> ExpressionGraph {
    ExpressionGraph {
        root: 0,
        nodes: vec![ExpressionNode {
            id: 0,
            kind: "sort".into(),
            children: vec![],
            name: None,
            index: None,
            value: Some("0".into()),
            binder_info: None,
            universe_levels: vec![],
        }],
    }
}

fn step(id: usize, prerequisites: Vec<usize>) -> ProofStep {
    ProofStep {
        id,
        kind: if id == 2 { "conclusion".into() } else { "namedApplication".into() },
        proposition: format!("P{id}"),
        proposition_graph: graph(),
        context: vec![],
        scope: vec![],
        proof_term_path: vec![id],
        prerequisite_steps: prerequisites,
        hypothesis_references: vec![],
        named_references: vec![],
    }
}

fn named_step(id: usize, kind: &str, prerequisites: Vec<usize>, named: &[&str]) -> ProofStep {
    ProofStep {
        id,
        kind: kind.into(),
        proposition: format!("P{id}"),
        proposition_graph: graph(),
        context: vec![],
        scope: vec![],
        proof_term_path: vec![id],
        prerequisite_steps: prerequisites,
        hypothesis_references: vec![],
        named_references: named.iter().map(|name| (*name).into()).collect(),
    }
}

fn named_result(name: &str) -> NamedResultSnapshot {
    NamedResultSnapshot {
        name: name.into(),
        kind: "theorem".into(),
        module_name: Some("Fixture".into()),
        type_: "P".into(),
        type_graph: graph(),
    }
}

#[test]
fn edges_point_from_prerequisites_to_claims() {
    let extraction = ProofStepExtraction {
        complete: true,
        truncation_reason: None,
        visited_terms: 3,
        conclusion_step: Some(2),
        steps: vec![step(0, vec![]), step(1, vec![0]), step(2, vec![0, 1])],
        named_results: vec![],
    };
    let graph = ProofStepGraph::new(&extraction).unwrap();
    assert_eq!(graph.direct_dependents(0).unwrap(), [1, 2]);
    assert_eq!(graph.transitive_prerequisites(2).unwrap(), [0, 1]);
    assert_eq!(graph.paths_to_conclusion(0, 10).unwrap().0, vec![vec![0, 1, 2], vec![0, 2]]);
}

#[test]
fn condensed_edges_expand_to_valid_raw_edges() {
    let extraction = ProofStepExtraction {
        complete: true,
        truncation_reason: None,
        visited_terms: 5,
        conclusion_step: Some(4),
        steps: vec![
            named_step(0, "namedApplication", vec![], &["Foundation"]),
            named_step(1, "anonymousApplication", vec![0], &[]),
            named_step(2, "localFact", vec![1], &[]),
            named_step(3, "branchConclusion", vec![2], &[]),
            named_step(4, "conclusion", vec![3], &["Finish"]),
        ],
        named_results: vec![named_result("Foundation"), named_result("Finish")],
    };
    let outline = build_proof_outline(&extraction).unwrap();
    assert_eq!(
        outline.retained_nodes.iter().map(|node| node.raw_step_id).collect::<Vec<_>>(),
        vec![0, 2, 3, 4]
    );
    let raw = outline.raw_edges.iter().map(|edge| (edge.source, edge.target)).collect::<BTreeSet<_>>();
    for edge in &outline.condensed_edges {
        assert_eq!(edge.raw_step_path.first(), Some(&edge.source));
        assert_eq!(edge.raw_step_path.last(), Some(&edge.target));
        assert!(edge.raw_step_path.windows(2).all(|pair| raw.contains(&(pair[0], pair[1]))));
    }
    let conclusion = outline.conclusion_step.unwrap();
    for node in &outline.retained_nodes {
        let mut seen = BTreeSet::from([node.raw_step_id]);
        let mut queue = VecDeque::from([node.raw_step_id]);
        while let Some(current) = queue.pop_front() {
            for edge in outline.condensed_edges.iter().filter(|edge| edge.source == current) {
                if seen.insert(edge.target) {
                    queue.push_back(edge.target);
                }
            }
        }
        assert!(seen.contains(&conclusion));
    }
}

#[test]
fn condensed_edges_count_branching_paths_without_enumerating_them() {
    let extraction = ProofStepExtraction {
        complete: true,
        truncation_reason: None,
        visited_terms: 5,
        conclusion_step: Some(4),
        steps: vec![
            named_step(0, "localFact", vec![], &[]),
            named_step(1, "anonymousApplication", vec![0], &[]),
            named_step(2, "anonymousApplication", vec![0], &[]),
            named_step(3, "anonymousApplication", vec![1, 2], &[]),
            named_step(4, "conclusion", vec![3], &[]),
        ],
        named_results: vec![],
    };
    let outline = build_proof_outline(&extraction).unwrap();
    let edge = outline
        .condensed_edges
        .iter()
        .find(|edge| edge.source == 0 && edge.target == 4)
        .expect("branching paths are represented by one edge");
    assert_eq!(edge.path_count, 2);
    assert_eq!(edge.maximum_raw_path_length, 4);
    assert_eq!(edge.raw_step_path.first(), Some(&0));
    assert_eq!(edge.raw_step_path.last(), Some(&4));
}

#[test]
fn large_outlines_are_limited_to_semantic_landmarks() {
    let mut steps = (0..300)
        .map(|id| named_step(id, "namedApplication", id.checked_sub(1).into_iter().collect(), &["Foundation"]))
        .collect::<Vec<_>>();
    steps.push(named_step(300, "conclusion", vec![299], &[]));
    let extraction = ProofStepExtraction {
        complete: true,
        truncation_reason: None,
        visited_terms: 301,
        conclusion_step: Some(300),
        steps,
        named_results: vec![named_result("Foundation")],
    };
    let outline = build_proof_outline(&extraction).unwrap();
    assert_eq!(outline.candidate_node_count, 301);
    assert_eq!(outline.retained_nodes.len(), MAX_OUTLINE_NODES);
    assert!(outline.retained_nodes.iter().any(|node| node.raw_step_id == 300));
}

#[test]
fn incomplete_outline_preserves_extraction_status() {
    let extraction = ProofStepExtraction {
        complete: false,
        truncation_reason: Some("fixture limit reached".into()),
        visited_terms: 10,
        conclusion_step: None,
        steps: vec![],
        named_results: vec![],
    };
    let outline = build_proof_outline(&extraction).unwrap();
    assert!(!outline.complete);
    assert_eq!(outline.truncation_reason.as_deref(), Some("fixture limit reached"));
    assert!(outline.retained_nodes.is_empty());
}

#[test]
fn rejects_forward_and_missing_step_references() {
    let extraction = ProofStepExtraction {
        complete: true,
        truncation_reason: None,
        visited_terms: 2,
        conclusion_step: Some(1),
        steps: vec![step(0, vec![1]), step(1, vec![])],
        named_results: vec![],
    };
    assert!(validate_proof_steps(&extraction).is_err());
}

#[test]
fn plumbing_references_are_not_landmarks() {
    assert!(!meaningful_named_reference("instAddNat"));
    assert!(!meaningful_named_reference("Nat.toFloat"));
    assert!(!meaningful_named_reference("foo.match_1"));
    assert!(!meaningful_named_reference("Eq.mpr"));
    assert!(meaningful_named_reference("Nat.add_comm"));
    assert!(!meaningful_named_reference("installer"));
    assert!(meaningful_named_reference("Finish"));
}

#[test]
fn paths_to_conclusion_report_truncation() {
    let extraction = ProofStepExtraction {
        complete: true,
        truncation_reason: None,
        visited_terms: 3,
        conclusion_step: Some(2),
        steps: vec![step(0, vec![]), step(1, vec![0]), step(2, vec![0, 1])],
        named_results: vec![],
    };
    let graph = ProofStepGraph::new(&extraction).unwrap();
    let (paths, truncated) = graph.paths_to_conclusion(0, 1).unwrap();
    assert_eq!(paths, vec![vec![0, 1, 2]]);
    assert!(truncated);
    let inspection = graph.inspect(1, 10).unwrap();
    assert_eq!(inspection.direct_prerequisites, vec![0]);
    assert_eq!(inspection.direct_dependents, vec![2]);
    assert_eq!(inspection.paths_to_conclusion, vec![vec![1, 2]]);
    assert!(graph.inspect(7, 10).is_none());
    let report = graph.report("Fixture.main", Some(1)).unwrap();
    assert_eq!(report.edges.len(), 3);
    let error = graph.report("Fixture.main", Some(9)).unwrap_err();
    assert_eq!(error.message, "unknown proof step 9");
}

fn stats() -> ExprStats {
    ExprStats {
        nodes: 1,
        max_depth: 1,
        bound_variables: 0,
        free_variables: 0,
        metavariables: 0,
        sorts: 1,
        constants: 0,
        applications: 0,
        lambdas: 0,
        foralls: 0,
        lets: 0,
        literals: 0,
        metadata: 0,
        projections: 0,
    }
}

fn proved(name: &str, proof_steps: Option<ProofStepExtraction>) -> DeclarationSnapshot {
    DeclarationSnapshot {
        name: name.into(),
        kind: "theorem".into(),
        module_name: Some("Fixture".into()),
        generation_kind: None,
        is_internal: false,
        is_private: false,
        is_unsafe: false,
        is_partial: false,
        doc_string: None,
        source_range: None,
        level_parameters: vec![],
        type_: "P".into(),
        has_value: true,
        type_stats: stats(),
        value_stats: Some(stats()),
        type_graph: graph(),
        value_graph: Some(graph()),
        statement_dependencies: vec![],
        proof_dependencies: vec![],
        axioms: vec![],
        proof_steps,
    }
}

fn symbol(name: &str) -> SymbolSnapshot {
    SymbolSnapshot {
        name: name.into(),
        kind: "theorem".into(),
        module_name: Some("Fixture".into()),
        generation_kind: None,
        is_internal: false,
        is_private: false,
        is_unsafe: false,
        is_partial: false,
        is_class: false,
        is_instance: false,
        is_projection: false,
    }
}

fn outlined_corpus() -> AnalysisCorpus {
    let extraction = ProofStepExtraction {
        complete: true,
        truncation_reason: None,
        visited_terms: 5,
        conclusion_step: Some(4),
        steps: vec![
            named_step(0, "namedApplication", vec![], &["Foundation"]),
            named_step(1, "anonymousApplication", vec![0], &[]),
            named_step(2, "localFact", vec![1], &[]),
            named_step(3, "branchConclusion", vec![2], &[]),
            named_step(4, "conclusion", vec![3], &["Finish"]),
        ],
        named_results: vec![named_result("Foundation"), named_result("Finish")],
    };
    AnalysisCorpus::new(ExtractionSnapshot {
        schema_version: 6,
        lean_version: "fixture".into(),
        imported_modules: vec!["Fixture".into()],
        declarations: vec![proved("T", Some(extraction)), proved("U", None)],
        symbols: vec![symbol("T"), symbol("U")],
    })
    .unwrap()
}

fn view_step(step: usize, retained: bool) -> ProofViewStep {
    ProofViewStep { step, retained }
}

fn view_edge(source: usize, target: usize, collapsed_steps: Option<usize>) -> ProofViewEdge {
    ProofViewEdge { source, target, collapsed_steps }
}

#[test]
fn proof_view_shows_the_outline_with_condensed_edges() {
    let corpus = outlined_corpus();
    let view = proof_view(&corpus, "T", "outline", None).unwrap();
    assert_eq!(view.declaration, "T");
    assert!(view.complete);
    assert_eq!(view.conclusion_step, Some(4));
    assert_eq!(view.steps, vec![view_step(0, true), view_step(2, true), view_step(3, true), view_step(4, true)]);
    assert_eq!(view.edges, vec![view_edge(0, 2, Some(1)), view_edge(2, 3, Some(0)), view_edge(3, 4, Some(0))]);
}

#[test]
fn raw_proof_view_expands_a_named_path() {
    let corpus = outlined_corpus();
    let view = proof_view(&corpus, "T", "raw", Some("proof-path-0-2")).unwrap();
    assert_eq!(
        view.steps,
        vec![view_step(0, true), view_step(1, false), view_step(2, true), view_step(3, true), view_step(4, true)]
    );
    assert_eq!(view.edges, vec![view_edge(0, 1, None), view_edge(1, 2, None), view_edge(2, 3, None), view_edge(3, 4, None)]);
    let prefix = proof_view(&corpus, "T", "raw", None).unwrap();
    assert_eq!(prefix.steps.len(), 5);
}

#[test]
fn proof_view_refusals_name_their_cause() {
    let corpus = outlined_corpus();
    let message = |r: Result<sieve::ui::ProofView, sieve::error::SieveError>| r.err().unwrap().message;
    assert_eq!(message(proof_view(&corpus, "T", "raw", Some("proof-path-9-9"))), "unknown condensed proof path proof-path-9-9");
    assert_eq!(message(proof_view(&corpus, "Missing", "outline", None)), "unknown declaration Missing");
    assert_eq!(message(proof_view(&corpus, "U", "outline", None)), "proof-step extraction is unavailable for U");
}
