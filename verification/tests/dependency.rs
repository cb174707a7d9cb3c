use sieve::analysis::dependency::label_propagation;

#[test]
fn label_propagation_is_deterministic() {
    let graph = vec![vec![1], vec![0, 2], vec![1], vec![]];
    let active = vec![0, 1, 2, 3];
    assert_eq!(label_propagation(&graph, &active), label_propagation(&graph, &active));
}

#[test]
fn label_propagation_takes_the_most_common_smallest_label() {
    let graph = vec![vec![1], vec![0, 2], vec![1], vec![]];
    let active = vec![0, 1, 2, 3];
    let labels = label_propagation(&graph, &active);
    assert_eq!(labels.len(), 4);
    assert_eq!(labels[3], (3, 3));
    assert!(labels.iter().all(|(id, label)| *id < 4 && *label < 4));
    let single = label_propagation(&vec![vec![]], &vec![0]);
    assert_eq!(single, vec![(0, 0)]);
}
