use sieve::analysis::filters::LayerSelection;
use sieve::analysis::structure::{layer_selection_name, structurally_equal, StructuralMode};
use sieve::model::{ExpressionGraph, ExpressionNode};

fn binder(name: &str) -> ExpressionGraph {
    ExpressionGraph {
        root: 1,
        nodes: vec![
            ExpressionNode {
                id: 0,
                kind: "sort".into(),
                children: vec![],
                name: None,
                index: None,
                value: Some("0".into()),
                binder_info: None,
                universe_levels: vec![],
            },
            ExpressionNode {
                id: 1,
                kind: "forall".into(),
                children: vec![0, 0],
                name: Some(name.into()),
                index: None,
                value: None,
                binder_info: Some("explicit".into()),
                universe_levels: vec![],
            },
        ],
    }
}

#[test]
fn alpha_comparison_ignores_only_binder_names() {
    let left = binder("x");
    let right = binder("y");
    assert!(!structurally_equal((&left, left.root), (&right, right.root), StructuralMode::Exact));
    assert!(structurally_equal((&left, left.root), (&right, right.root), StructuralMode::AlphaEquivalent));
    assert_ne!(left.root_fingerprint(StructuralMode::Exact), right.root_fingerprint(StructuralMode::Exact));
    assert_eq!(
        left.root_fingerprint(StructuralMode::AlphaEquivalent),
        right.root_fingerprint(StructuralMode::AlphaEquivalent)
    );
}

#[test]
fn fingerprints_follow_the_fnv_recipe() {
    let graph = binder("x");
    let fingerprints = graph.structural_fingerprints(StructuralMode::Exact);
    assert_eq!(fingerprints.len(), 2);
    let mut hash: u64 = 0xcbf29ce484222325;
    let mut feed = |bytes: &[u8]| {
        for byte in bytes {
            hash ^= u64::from(*byte);
            hash = hash.wrapping_mul(0x100000001b3);
        }
        hash ^= 0xff;
        hash = hash.wrapping_mul(0x100000001b3);
    };
    feed(b"sort");
    feed(&[0]);
    feed(&[0]);
    feed(&[1]);
    feed(b"0");
    feed(&[0]);
    assert_eq!(fingerprints[0], hash);
}

#[test]
fn render_tree_indents_and_cuts_at_the_depth_limit() {
    let graph = binder("x");
    assert_eq!(graph.render_tree(5), "#1 forall x explicit\n  #0 sort 0\n  #0 sort 0\n");
    assert_eq!(graph.render_tree(0), "#1 forall x explicit\n  …\n");
    assert_eq!(layer_selection_name(LayerSelection::Both), "both");
}

#[test]
fn different_shapes_are_not_equal() {
    let left = binder("x");
    let mut right = binder("x");
    right.nodes[1].binder_info = Some("implicit".into());
    assert!(!structurally_equal((&left, 1), (&right, 1), StructuralMode::AlphaEquivalent));
    assert!(structurally_equal((&left, 0), (&right, 0), StructuralMode::Exact));
}
