//! The whole-number facts behind comparing two declarations: structural
//! equality, the dependencies they share and do not, their expression kinds,
//! sizes and depths.
use vstd::prelude::*;
use crate::analysis::corpus::{declaration_known, layer_graph, AnalysisCorpus, DependencyEdge};
use crate::analysis::dependency::capped;
use crate::analysis::filters::DependencyLayer;
use crate::analysis::influence::{dedup_sorted, strictly_sorted};
use crate::analysis::structure::{lemma_layer_graph_valid, struct_eq, structurally_equal, subtree_shapes, tree_depth, StructuralMode};
use crate::model::{ExpressionGraph, ExpressionNode, ExtractionSnapshot};
use crate::ordering::sort_names;
use crate::strings::{copy_text, text_lt, texts_view};
use crate::tally::{count_of, tally_add, tally_has, tally_sorted};
use crate::validation::texts_contain;

verus! {

/// What comparing two declarations on one layer finds, in whole numbers.
pub struct ComparisonFacts {
    pub exact_equal: bool,
    pub alpha_equivalent: bool,
    pub shared_dependencies: Vec<String>,
    pub left_only_dependencies: Vec<String>,
    pub right_only_dependencies: Vec<String>,
    pub left_kinds: Vec<(String, usize)>,
    pub right_kinds: Vec<(String, usize)>,
    pub left_size: usize,
    pub right_size: usize,
    pub left_depth: usize,
    pub right_depth: usize,
}

/// Some edge of the layer leads from declaration `id` to the symbol `t`.
pub open spec fn layer_dependency(edges: Seq<DependencyEdge>, id: int, layer: DependencyLayer, t: Seq<char>) -> bool {
    exists|k: int| 0 <= k < edges.len() && (#[trigger] edges[k]).source == id && edges[k].layer == layer && edges[k].target@ == t
}

/// The names of `v` that `other` holds (`inside`) or does not, in order.
pub open spec fn names_split(v: Seq<Seq<char>>, other: Seq<Seq<char>>, inside: bool) -> Seq<Seq<char>>
    decreases v.len(),
{
    if v.len() == 0 {
        Seq::empty()
    } else {
        let earlier = names_split(v.drop_last(), other, inside);
        if other.contains(v.last()) == inside {
            earlier.push(v.last())
        } else {
            earlier
        }
    }
}

/// How many of the nodes have the kind `name`.
pub open spec fn kind_count(nodes: Seq<ExpressionNode>, name: Seq<char>) -> nat
    decreases nodes.len(),
{
    if nodes.len() == 0 {
        0
    } else {
        kind_count(nodes.drop_last(), name) + if nodes.last().kind@ == name { 1nat } else { 0nat }
    }
}

/// The tally counts the nodes of each kind.
pub open spec fn kinds_tallied(g: ExpressionGraph, t: Seq<(String, usize)>) -> bool {
    &&& tally_sorted(t)
    &&& forall|name: Seq<char>| #[trigger] count_of(t, name) == kind_count(g.nodes@, name)
    &&& forall|name: Seq<char>| #[trigger] tally_has(t, name) <==> kind_count(g.nodes@, name) > 0
}

proof fn lemma_kind_count_bound(nodes: Seq<ExpressionNode>, name: Seq<char>)
    ensures
        kind_count(nodes, name) <= nodes.len(),
    decreases nodes.len(),
{
    if nodes.len() > 0 {
        lemma_kind_count_bound(nodes.drop_last(), name);
    }
}

/// The tally of the graph's node kinds.
fn kind_tally(g: &ExpressionGraph) -> (r: Vec<(String, usize)>)
    ensures
        kinds_tallied(*g, r@),
{
    let mut r: Vec<(String, usize)> = Vec::new();
    let mut k: usize = 0;
    while k < g.nodes.len()
        invariant
            k <= g.nodes@.len(),
            tally_sorted(r@),
            forall|name: Seq<char>| #[trigger] count_of(r@, name) == kind_count(g.nodes@.take(k as int), name),
            forall|name: Seq<char>| #[trigger] tally_has(r@, name) <==> kind_count(g.nodes@.take(k as int), name) > 0,
        decreases g.nodes@.len() - k,
    {
        let kind = g.nodes[k].kind.as_str();
        proof {
            assert(g.nodes@.take(k + 1).drop_last() == g.nodes@.take(k as int));
            assert(g.nodes@.take(k + 1).last() == g.nodes@[k as int]);
            lemma_kind_count_bound(g.nodes@.take(k as int), kind@);
        }
        let ghost before = r@;
        tally_add(&mut r, kind, 1);
        proof {
            assert forall|name: Seq<char>| #[trigger] tally_has(r@, name) <==> kind_count(g.nodes@.take(k + 1), name) > 0 by {
                assert(tally_has(before, name) <==> kind_count(g.nodes@.take(k as int), name) > 0);
            }
        }
        k = k + 1;
    }
    proof {
        assert(g.nodes@.take(k as int) == g.nodes@);
    }
    r
}

/// The names of `v` that `other` holds (`inside`) or does not, in order.
fn split_names(v: &Vec<String>, other: &Vec<String>, inside: bool) -> (r: Vec<String>)
    ensures
        texts_view(r@) == names_split(texts_view(v@), texts_view(other@), inside),
{
    let mut r: Vec<String> = Vec::new();
    let mut k: usize = 0;
    while k < v.len()
        invariant
            k <= v@.len(),
            texts_view(r@) == names_split(texts_view(v@).take(k as int), texts_view(other@), inside),
        decreases v@.len() - k,
    {
        let ghost r0 = r@;
        proof {
            assert(texts_view(v@).take(k + 1).drop_last() == texts_view(v@).take(k as int));
            assert(texts_view(v@).take(k + 1).last() == v@[k as int]@);
        }
        if texts_contain(other, v[k].as_str()) == inside {
            r.push(copy_text(&v[k]));
            proof {
                assert(texts_view(r@) =~= texts_view(r0).push(v@[k as int]@));
            }
        }
        k = k + 1;
    }
    proof {
        assert(texts_view(v@).take(k as int) == texts_view(v@));
    }
    r
}

/// The facts are those of comparing declarations `a` and `b` on `layer`.
pub open spec fn comparison_reports(s: ExtractionSnapshot, edges: Seq<DependencyEdge>, a: int, b: int, layer: DependencyLayer, f: ComparisonFacts) -> bool {
    match (layer_graph(s.declarations@[a], layer), layer_graph(s.declarations@[b], layer)) {
        (Some(gl), Some(gr)) => {
            &&& f.exact_equal == struct_eq(gl, gl.root as int, gr, gr.root as int, StructuralMode::Exact)
            &&& f.alpha_equivalent == (f.exact_equal || struct_eq(gl, gl.root as int, gr, gr.root as int, StructuralMode::AlphaEquivalent))
            &&& exists|lv: Seq<Seq<char>>, rv: Seq<Seq<char>>| #[trigger] dependency_split(edges, a, b, layer, lv, rv, f)
            &&& kinds_tallied(gl, f.left_kinds@)
            &&& kinds_tallied(gr, f.right_kinds@)
            &&& f.left_size == gl.nodes@.len()
            &&& f.right_size == gr.nodes@.len()
            &&& f.left_depth == capped(tree_depth(gl, gl.root as int))
            &&& f.right_depth == capped(tree_depth(gr, gr.root as int))
        },
        _ => false,
    }
}

/// `lv` and `rv` are the sorted dependencies of `a` and `b`, and the facts
/// split them into shared, left-only and right-only, in order.
pub open spec fn dependency_split(edges: Seq<DependencyEdge>, a: int, b: int, layer: DependencyLayer,
    lv: Seq<Seq<char>>, rv: Seq<Seq<char>>, f: ComparisonFacts) -> bool {
    &&& strictly_sorted(lv) && strictly_sorted(rv)
    &&& (forall|t: Seq<char>| #[trigger] lv.contains(t) <==> layer_dependency(edges, a, layer, t))
    &&& (forall|t: Seq<char>| #[trigger] rv.contains(t) <==> layer_dependency(edges, b, layer, t))
    &&& texts_view(f.shared_dependencies@) == names_split(lv, rv, true)
    &&& texts_view(f.left_only_dependencies@) == names_split(lv, rv, false)
    &&& texts_view(f.right_only_dependencies@) == names_split(rv, lv, false)
}

impl AnalysisCorpus {
    /// The distinct symbols that declaration `id` depends on in the layer,
    /// sorted.
    fn layer_dependencies(&self, id: usize, layer: DependencyLayer) -> (r: Vec<String>)
        requires
            id < self.snapshot_view().declarations@.len(),
        ensures
            strictly_sorted(texts_view(r@)),
            forall|t: Seq<char>| #[trigger] texts_view(r@).contains(t) <==> layer_dependency(self.edges_view(), id as int, layer, t),
    {
        let ghost all = self.edges_view();
        let edges = self.edges();
        let ids = self.outgoing_edge_ids(id);
        let mut names: Vec<String> = Vec::new();
        let mut k: usize = 0;
        while k < ids.len()
            invariant
                edges@ == all,
                all == self.edges_view(),
                forall|j: int| 0 <= j < ids@.len() ==> #[trigger] ids@[j] < all.len() && all[ids@[j] as int].source == id,
                forall|e: int| 0 <= e < all.len() && (#[trigger] all[e]).source == id ==> ids@.contains(e as usize),
                k <= ids@.len(),
                forall|t: Seq<char>| #[trigger] texts_view(names@).contains(t) <==> exists|j: int| 0 <= j < k
                    && all[ids@[j] as int].layer == layer && all[#[trigger] ids@[j] as int].target@ == t,
            decreases ids@.len() - k,
        {
            let ghost n0 = texts_view(names@);
            let e = &edges[ids[k]];
            if e.layer == layer {
                names.push(copy_text(&e.target));
                proof {
                    assert(texts_view(names@) =~= n0.push(e.target@));
                }
            }
            proof {
                assert forall|t: Seq<char>| #[trigger] texts_view(names@).contains(t) <==> exists|j: int| 0 <= j < k + 1
                    && all[ids@[j] as int].layer == layer && all[#[trigger] ids@[j] as int].target@ == t by {
                    assert(*e == all[ids@[k as int] as int]);
                    if texts_view(names@).contains(t) {
                        if n0.contains(t) {
                            let j = choose|j: int| 0 <= j < k && all[ids@[j] as int].layer == layer && all[#[trigger] ids@[j] as int].target@ == t;
                        } else {
                            let i = choose|i: int| 0 <= i < texts_view(names@).len() && texts_view(names@)[i] == t;
                            assert(i == n0.len());
                            assert(all[ids@[k as int] as int].target@ == t);
                        }
                    }
                    if exists|j: int| 0 <= j < k + 1 && all[ids@[j] as int].layer == layer && all[#[trigger] ids@[j] as int].target@ == t {
                        let j = choose|j: int| 0 <= j < k + 1 && all[ids@[j] as int].layer == layer && all[#[trigger] ids@[j] as int].target@ == t;
                        if j == k {
                            assert(texts_view(names@)[texts_view(names@).len() - 1] == t);
                        } else {
                            assert(n0.contains(t));
                            let i = choose|i: int| 0 <= i < n0.len() && n0[i] == t;
                            assert(texts_view(names@)[i] == t);
                        }
                    }
                }
            }
            k = k + 1;
        }
        proof {
            assert forall|t: Seq<char>| #[trigger] texts_view(names@).contains(t) <==> layer_dependency(all, id as int, layer, t) by {
                if layer_dependency(all, id as int, layer, t) {
                    let e = choose|e: int| 0 <= e < all.len() && (#[trigger] all[e]).source == id && all[e].layer == layer && all[e].target@ == t;
                    assert(all[e].source == id);
                    assert(all.len() == edges.len());
                    assert(ids@.contains(e as usize));
                    let j = choose|j: int| 0 <= j < ids@.len() && ids@[j] == e as usize;
                    assert(all[ids@[j] as int].target@ == t);
                }
                if texts_view(names@).contains(t) {
                    let j = choose|j: int| 0 <= j < ids@.len() && all[ids@[j] as int].layer == layer && all[#[trigger] ids@[j] as int].target@ == t;
                    assert(all[ids@[j] as int].source == id);
                }
            }
        }
        dedup_sorted(sort_names(names))
    }

    /// The whole-number facts of comparing the declarations `left` and
    /// `right` on `layer`: none where either name is no declaration or has no
    /// expression for the layer.
    pub fn comparison_facts(&self, left: &str, right: &str, layer: DependencyLayer) -> (r: Option<ComparisonFacts>)
        ensures
            r is Some <==> exists|a: int, b: int| 0 <= a < self.snapshot_view().declarations@.len() && 0 <= b < self.snapshot_view().declarations@.len()
                && #[trigger] self.snapshot_view().declarations@[a].name@ == left@ && #[trigger] self.snapshot_view().declarations@[b].name@ == right@
                && layer_graph(self.snapshot_view().declarations@[a], layer) is Some && layer_graph(self.snapshot_view().declarations@[b], layer) is Some,
            r matches Some(f) ==> forall|a: int, b: int| 0 <= a < self.snapshot_view().declarations@.len()
                && 0 <= b < self.snapshot_view().declarations@.len()
                && self.snapshot_view().declarations@[a].name@ == left@ && self.snapshot_view().declarations@[b].name@ == right@
                ==> #[trigger] comparison_reports(self.snapshot_view(), self.edges_view(), a, b, layer, f),
    {
        proof {
            use_type_invariant(self);
        }
        let ghost s = self.snapshot_view();
        let left_id = match self.declaration_id(left) {
            Some(i) => i,
            None => {
                return None;
            },
        };
        let right_id = match self.declaration_id(right) {
            Some(i) => i,
            None => {
                return None;
            },
        };
        proof {
            assert forall|i: int| 0 <= i < s.declarations@.len() && #[trigger] s.declarations@[i].name@ == left@ implies i == left_id by {
                if i != left_id as int {
                    if i < left_id { assert(s.declarations@[i].name@ != s.declarations@[left_id as int].name@); }
                    else { assert(s.declarations@[left_id as int].name@ != s.declarations@[i].name@); }
                }
            }
            assert forall|i: int| 0 <= i < s.declarations@.len() && #[trigger] s.declarations@[i].name@ == right@ implies i == right_id by {
                if i != right_id as int {
                    if i < right_id { assert(s.declarations@[i].name@ != s.declarations@[right_id as int].name@); }
                    else { assert(s.declarations@[right_id as int].name@ != s.declarations@[i].name@); }
                }
            }
        }
        let left_graph = match self.graph(left_id, layer) {
            Some(g) => g,
            None => {
                return None;
            },
        };
        let right_graph = match self.graph(right_id, layer) {
            Some(g) => g,
            None => {
                return None;
            },
        };
        proof {
            lemma_layer_graph_valid(s, left_id as int, layer);
            lemma_layer_graph_valid(s, right_id as int, layer);
        }
        let exact_equal = structurally_equal((left_graph, left_graph.root), (right_graph, right_graph.root), StructuralMode::Exact);
        let alpha_equivalent = exact_equal
            || structurally_equal((left_graph, left_graph.root), (right_graph, right_graph.root), StructuralMode::AlphaEquivalent);
        let left_dependencies = self.layer_dependencies(left_id, layer);
        let right_dependencies = self.layer_dependencies(right_id, layer);
        let shared = split_names(&left_dependencies, &right_dependencies, true);
        let left_only = split_names(&left_dependencies, &right_dependencies, false);
        let right_only = split_names(&right_dependencies, &left_dependencies, false);
        let (_ls, left_depths) = subtree_shapes(left_graph);
        let (_rs, right_depths) = subtree_shapes(right_graph);
        let f = ComparisonFacts {
            exact_equal,
            alpha_equivalent,
            shared_dependencies: shared,
            left_only_dependencies: left_only,
            right_only_dependencies: right_only,
            left_kinds: kind_tally(left_graph),
            right_kinds: kind_tally(right_graph),
            left_size: left_graph.nodes.len(),
            right_size: right_graph.nodes.len(),
            left_depth: left_depths[left_graph.root],
            right_depth: right_depths[right_graph.root],
        };
        proof {
            let lv = texts_view(left_dependencies@);
            let rv = texts_view(right_dependencies@);
            assert(dependency_split(self.edges_view(), left_id as int, right_id as int, layer, lv, rv, f));
            assert(comparison_reports(s, self.edges_view(), left_id as int, right_id as int, layer, f));
        }
        Some(f)
    }
}

/// Two strictly sorted lists of names with the same members are equal.
proof fn lemma_sorted_names_equal(a: Seq<Seq<char>>, b: Seq<Seq<char>>)
    requires
        strictly_sorted(a),
        strictly_sorted(b),
        forall|t: Seq<char>| #![trigger a.contains(t)] #![trigger b.contains(t)] a.contains(t) <==> b.contains(t),
    ensures
        a == b,
    decreases a.len(),
{
    if a.len() == 0 {
        if b.len() > 0 {
            assert(b.contains(b[0]));
        }
        assert(b =~= a);
    } else {
        assert(a.contains(a[0]));
        assert(b.len() > 0);
        assert(a[0] == b[0]) by {
            let j = choose|j: int| 0 <= j < b.len() && b[j] == a[0];
            assert(b.contains(b[0]));
            let i = choose|i: int| 0 <= i < a.len() && a[i] == b[0];
            crate::strings::lemma_text_lt_trichotomy(a[0], b[0]);
            if j > 0 && i > 0 {
                assert(text_lt(b[0], b[j]));
                assert(text_lt(a[0], a[i]));
            } else if j > 0 {
                assert(text_lt(b[0], b[j]));
            } else if i > 0 {
                assert(text_lt(a[0], a[i]));
            }
        }
        let a2 = a.drop_first();
        let b2 = b.drop_first();
        assert forall|t: Seq<char>| #![trigger a2.contains(t)] #![trigger b2.contains(t)] a2.contains(t) <==> b2.contains(t) by {
            if a2.contains(t) {
                let i = choose|i: int| 0 <= i < a2.len() && a2[i] == t;
                assert(a[i + 1] == t);
                assert(text_lt(a[0], a[i + 1]));
                crate::strings::lemma_text_lt_trichotomy(a[0], t);
                assert(a.contains(t));
                let j = choose|j: int| 0 <= j < b.len() && b[j] == t;
                assert(j != 0);
                assert(b2[j - 1] == t);
            }
            if b2.contains(t) {
                let j = choose|j: int| 0 <= j < b2.len() && b2[j] == t;
                assert(b[j + 1] == t);
                assert(text_lt(b[0], b[j + 1]));
                crate::strings::lemma_text_lt_trichotomy(b[0], t);
                assert(b.contains(t));
                let i = choose|i: int| 0 <= i < a.len() && a[i] == t;
                assert(i != 0);
                assert(a2[i - 1] == t);
            }
        }
        assert(strictly_sorted(a2)) by {
            assert forall|i: int, j: int| 0 <= i < j < a2.len() implies text_lt(#[trigger] a2[i], #[trigger] a2[j]) by {
                assert(a2[i] == a[i + 1] && a2[j] == a[j + 1]);
            }
        }
        assert(strictly_sorted(b2)) by {
            assert forall|i: int, j: int| 0 <= i < j < b2.len() implies text_lt(#[trigger] b2[i], #[trigger] b2[j]) by {
                assert(b2[i] == b[i + 1] && b2[j] == b[j + 1]);
            }
        }
        lemma_sorted_names_equal(a2, b2);
        assert(a =~= seq![a[0]] + a2);
        assert(b =~= seq![b[0]] + b2);
    }
}

/// Splitting a strictly sorted list keeps it strictly sorted, and keeps
/// the names that `other` holds (`inside`) or does not.
proof fn lemma_names_split(v: Seq<Seq<char>>, other: Seq<Seq<char>>, inside: bool)
    requires
        strictly_sorted(v),
    ensures
        strictly_sorted(names_split(v, other, inside)),
        forall|t: Seq<char>| #[trigger] names_split(v, other, inside).contains(t) <==> v.contains(t) && other.contains(t) == inside,
    decreases v.len(),
{
    if v.len() > 0 {
        let w = v.drop_last();
        assert(strictly_sorted(w)) by {
            assert forall|i: int, j: int| 0 <= i < j < w.len() implies text_lt(#[trigger] w[i], #[trigger] w[j]) by {
                assert(w[i] == v[i] && w[j] == v[j]);
            }
        }
        lemma_names_split(w, other, inside);
        let earlier = names_split(w, other, inside);
        let x = v.last();
        assert forall|t: Seq<char>| v.contains(t) <==> w.contains(t) || t == x by {
            if v.contains(t) {
                let i = choose|i: int| 0 <= i < v.len() && v[i] == t;
                if i < v.len() - 1 {
                    assert(w[i] == t);
                }
            }
            if w.contains(t) {
                let i = choose|i: int| 0 <= i < w.len() && w[i] == t;
                assert(v[i] == t);
            }
            if t == x {
                assert(v[v.len() - 1] == t);
            }
        }
        assert forall|t: Seq<char>| w.contains(t) implies text_lt(t, x) by {
            let i = choose|i: int| 0 <= i < w.len() && w[i] == t;
            assert(v[i] == t);
        }
        if other.contains(x) == inside {
            let r = earlier.push(x);
            assert forall|i: int, j: int| 0 <= i < j < r.len() implies text_lt(#[trigger] r[i], #[trigger] r[j]) by {
                if j == r.len() - 1 {
                    assert(earlier.contains(r[i]));
                } else {
                    assert(r[i] == earlier[i] && r[j] == earlier[j]);
                }
            }
            assert forall|t: Seq<char>| #[trigger] r.contains(t) <==> v.contains(t) && other.contains(t) == inside by {
                if r.contains(t) {
                    let i = choose|i: int| 0 <= i < r.len() && r[i] == t;
                    if i < r.len() - 1 {
                        assert(earlier[i] == t);
                        assert(earlier.contains(t));
                    }
                }
                if v.contains(t) && other.contains(t) == inside && t != x {
                    assert(earlier.contains(t));
                    let i = choose|i: int| 0 <= i < earlier.len() && earlier[i] == t;
                    assert(r[i] == t);
                }
                if t == x {
                    assert(r[r.len() - 1] == x);
                }
            }
        } else {
            assert forall|t: Seq<char>| #[trigger] earlier.contains(t) <==> v.contains(t) && other.contains(t) == inside by {
                if earlier.contains(t) {
                    assert(w.contains(t));
                    assert(text_lt(t, x));
                    crate::strings::lemma_text_lt_trichotomy(t, x);
                }
            }
        }
    }
}

/// Comparing `b` with `a` gives the facts of comparing `a` with `b` with
/// the two sides exchanged: the same equality flags and shared
/// dependencies, the one-sided dependencies, kind counts, sizes and depths
/// swapped.
pub proof fn lemma_comparison_swapped(s: ExtractionSnapshot, edges: Seq<DependencyEdge>, a: int, b: int, layer: DependencyLayer,
    f1: ComparisonFacts, f2: ComparisonFacts)
    requires
        crate::validation::snapshot_valid(s),
        0 <= a < s.declarations@.len(),
        0 <= b < s.declarations@.len(),
        comparison_reports(s, edges, a, b, layer, f1),
        comparison_reports(s, edges, b, a, layer, f2),
    ensures
        texts_view(f1.shared_dependencies@) == texts_view(f2.shared_dependencies@),
        texts_view(f1.left_only_dependencies@) == texts_view(f2.right_only_dependencies@),
        texts_view(f1.right_only_dependencies@) == texts_view(f2.left_only_dependencies@),
        forall|name: Seq<char>| #[trigger] count_of(f1.left_kinds@, name) == count_of(f2.right_kinds@, name),
        forall|name: Seq<char>| #[trigger] count_of(f1.right_kinds@, name) == count_of(f2.left_kinds@, name),
        f1.left_size == f2.right_size && f1.right_size == f2.left_size,
        f1.left_depth == f2.right_depth && f1.right_depth == f2.left_depth,
        f1.exact_equal == f2.exact_equal,
        f1.alpha_equivalent == f2.alpha_equivalent,
{
    lemma_layer_graph_valid(s, a, layer);
    lemma_layer_graph_valid(s, b, layer);
    let gl = layer_graph(s.declarations@[a], layer)->0;
    let gr = layer_graph(s.declarations@[b], layer)->0;
    if struct_eq(gl, gl.root as int, gr, gr.root as int, StructuralMode::Exact) {
        crate::analysis::structure::lemma_struct_eq_symmetric(gl, gl.root as int, gr, gr.root as int, StructuralMode::Exact);
    }
    if struct_eq(gr, gr.root as int, gl, gl.root as int, StructuralMode::Exact) {
        crate::analysis::structure::lemma_struct_eq_symmetric(gr, gr.root as int, gl, gl.root as int, StructuralMode::Exact);
    }
    if struct_eq(gl, gl.root as int, gr, gr.root as int, StructuralMode::AlphaEquivalent) {
        crate::analysis::structure::lemma_struct_eq_symmetric(gl, gl.root as int, gr, gr.root as int, StructuralMode::AlphaEquivalent);
    }
    if struct_eq(gr, gr.root as int, gl, gl.root as int, StructuralMode::AlphaEquivalent) {
        crate::analysis::structure::lemma_struct_eq_symmetric(gr, gr.root as int, gl, gl.root as int, StructuralMode::AlphaEquivalent);
    }
    let (lv, rv) = choose|lv: Seq<Seq<char>>, rv: Seq<Seq<char>>| #[trigger] dependency_split(edges, a, b, layer, lv, rv, f1);
    let (lv2, rv2) = choose|lv: Seq<Seq<char>>, rv: Seq<Seq<char>>| #[trigger] dependency_split(edges, b, a, layer, lv, rv, f2);
    assert forall|t: Seq<char>| #![trigger lv.contains(t)] #![trigger rv2.contains(t)] lv.contains(t) <==> rv2.contains(t) by {}
    assert forall|t: Seq<char>| #![trigger rv.contains(t)] #![trigger lv2.contains(t)] rv.contains(t) <==> lv2.contains(t) by {}
    lemma_sorted_names_equal(lv, rv2);
    lemma_sorted_names_equal(rv, lv2);
    lemma_names_split(lv, rv, true);
    lemma_names_split(rv, lv, true);
    assert forall|t: Seq<char>| #![trigger names_split(lv, rv, true).contains(t)] #![trigger names_split(rv, lv, true).contains(t)]
        names_split(lv, rv, true).contains(t) <==> names_split(rv, lv, true).contains(t) by {}
    lemma_sorted_names_equal(names_split(lv, rv, true), names_split(rv, lv, true));
}

} // verus!

