//! The per-layer dependency graph the lenses read, and the influence lens:
//! which theorems depend, directly or through others, on a theorem.
use vstd::prelude::*;
use crate::analysis::corpus::{edge_selected, matching_declaration_ids, AnalysisCorpus, DependencyEdge};
use crate::analysis::filters::{filter_matches_declaration, AnalysisFilter, DependencyLayer};
use crate::analysis::lenses::{exact_layer_filter, path_layer_filter, LensAnalysisConfig};
use crate::model::{DeclarationSnapshot, ExtractionSnapshot};
use crate::analysis::corpus::layer_graph;
use crate::analysis::lenses::{DependencyWitnessPath, InfluenceEvidence};
use crate::ordering::{names_sorted, sort_names};
use crate::sorting::{ranked_sorted, sort_ranked, Ranked};
use crate::strings::{
    append_text, compare_text, copy_text, decimal, decimal_text, lemma_text_lt_transitive, lemma_text_lt_trichotomy, text_eq,
    text_from, text_lt, texts_view, Order,
};

verus! {

/// The ids strictly increase by declaration name.
pub open spec fn by_name(ds: Seq<DeclarationSnapshot>, row: Seq<usize>) -> bool {
    &&& forall|k: int| 0 <= k < row.len() ==> #[trigger] row[k] < ds.len()
    &&& forall|i: int, j: int| 0 <= i < j < row.len() ==> text_lt(ds[#[trigger] row[i] as int].name@, ds[#[trigger] row[j] as int].name@)
}

/// Declaration names are distinct.
pub open spec fn names_distinct(ds: Seq<DeclarationSnapshot>) -> bool {
    forall|a: int, b: int| 0 <= a < ds.len() && 0 <= b < ds.len() && a != b ==> #[trigger] ds[a].name@ != #[trigger] ds[b].name@
}

/// A copy of a list of ids.
pub fn copy_ids(v: &Vec<usize>) -> (r: Vec<usize>)
    ensures
        r@ == v@,
{
    let mut r: Vec<usize> = Vec::new();
    let mut i: usize = 0;
    while i < v.len()
        invariant
            i <= v@.len(),
            r@ == v@.take(i as int),
        decreases v.len() - i,
    {
        r.push(v[i]);
        proof {
            assert(v@.take(i + 1) =~= v@.take(i as int).push(v@[i as int]));
        }
        i = i + 1;
    }
    proof {
        assert(v@.take(v@.len() as int) =~= v@);
    }
    r
}

/// Adds `id` to a row kept in name order, once.
fn insert_by_name(row: &mut Vec<usize>, id: usize, ds: &[DeclarationSnapshot])
    requires
        by_name(ds@, old(row)@),
        names_distinct(ds@),
        id < ds@.len(),
    ensures
        by_name(ds@, final(row)@),
        forall|x: usize| #[trigger] final(row)@.contains(x) <==> (old(row)@.contains(x) || x == id),
{
    let ghost r0 = row@;
    let mut p: usize = 0;
    while p < row.len()
        invariant
            row@ == r0,
            by_name(ds@, r0),
            id < ds@.len(),
            p <= row@.len(),
            forall|k: int| 0 <= k < p ==> text_lt(ds@[#[trigger] r0[k] as int].name@, ds@[id as int].name@),
        ensures
            row@ == r0,
            p <= row@.len(),
            forall|k: int| 0 <= k < p ==> text_lt(ds@[#[trigger] r0[k] as int].name@, ds@[id as int].name@),
            p < row@.len() ==> !text_lt(ds@[r0[p as int] as int].name@, ds@[id as int].name@),
        decreases row@.len() - p,
    {
        let q = row[p];
        if !matches!(compare_text(ds[q].name.as_str(), ds[id].name.as_str()), Order::Less) {
            break;
        }
        p = p + 1;
    }
    if p < row.len() && row[p] == id {
        return;
    }
    proof {
        if p < r0.len() {
            lemma_text_lt_trichotomy(ds@[r0[p as int] as int].name@, ds@[id as int].name@);
            assert(r0[p as int] != id);
            assert(ds@[r0[p as int] as int].name@ != ds@[id as int].name@);
            assert(text_lt(ds@[id as int].name@, ds@[r0[p as int] as int].name@));
        }
    }
    row.insert(p, id);
    proof {
        let r = row@;
        assert(r =~= r0.take(p as int).push(id) + r0.skip(p as int));
        assert forall|i: int, j: int| 0 <= i < j < r.len() implies text_lt(ds@[#[trigger] r[i] as int].name@, ds@[#[trigger] r[j] as int].name@) by {
            if j < p {
                assert(r[i] == r0[i] && r[j] == r0[j]);
            } else if j == p {
                assert(r[i] == r0[i]);
            } else if i == p {
                assert(r[j] == r0[j - 1]);
                if j - 1 > p {
                    assert(text_lt(ds@[r0[p as int] as int].name@, ds@[r0[j - 1] as int].name@));
                    lemma_text_lt_transitive(ds@[id as int].name@, ds@[r0[p as int] as int].name@, ds@[r0[j - 1] as int].name@);
                }
            } else if i < p {
                assert(r[i] == r0[i] && r[j] == r0[j - 1]);
                assert(text_lt(ds@[r0[i] as int].name@, ds@[id as int].name@));
                if j - 1 > p {
                    assert(text_lt(ds@[r0[p as int] as int].name@, ds@[r0[j - 1] as int].name@));
                    lemma_text_lt_transitive(ds@[id as int].name@, ds@[r0[p as int] as int].name@, ds@[r0[j - 1] as int].name@);
                }
                lemma_text_lt_transitive(ds@[r0[i] as int].name@, ds@[id as int].name@, ds@[r0[j - 1] as int].name@);
            } else {
                assert(r[i] == r0[i - 1] && r[j] == r0[j - 1]);
            }
        }
        assert forall|x: usize| #[trigger] r.contains(x) <==> (r0.contains(x) || x == id) by {
            if r.contains(x) {
                let k = choose|k: int| 0 <= k < r.len() && r[k] == x;
                if k < p {
                    assert(r0[k] == x);
                } else if k > p {
                    assert(r0[k - 1] == x);
                }
            }
            if r0.contains(x) {
                let k = choose|k: int| 0 <= k < r0.len() && r0[k] == x;
                if k < p {
                    assert(r[k] == x);
                } else {
                    assert(r[k + 1] == x);
                }
            }
            if x == id {
                assert(r[p as int] == x);
            }
        }
    }
}


/// The dependency graph of one layer as the lenses read it: rows in name
/// order, the declarations reported (`active`) and those that may connect
/// paths (`path_active`).
#[derive(Clone, Debug)]
pub struct LensLayerGraph {
    pub adjacency: Vec<Vec<usize>>,
    pub reverse: Vec<Vec<usize>>,
    pub active: Vec<bool>,
    pub path_active: Vec<bool>,
}

/// The arc `a -> b` of the layer graph: an edge the path filter admits from
/// declaration `a` to the declaration `b`, both admitted by the path filter.
pub open spec fn lens_arc(s: ExtractionSnapshot, edges: Seq<DependencyEdge>, pf: AnalysisFilter, a: int, b: int) -> bool {
    let ds = s.declarations@;
    &&& 0 <= a < ds.len() && 0 <= b < ds.len()
    &&& filter_matches_declaration(pf, ds[a]) && filter_matches_declaration(pf, ds[b])
    &&& exists|k: int| 0 <= k < edges.len() && #[trigger] edge_selected(s, pf, edges[k]) && edges[k].source == a
        && edges[k].target@ == ds[b].name@
}

/// The arc `a -> b` comes from one of the first `m` edges.
spec fn lens_arc_upto(s: ExtractionSnapshot, edges: Seq<DependencyEdge>, pf: AnalysisFilter, a: int, b: int, m: int) -> bool {
    let ds = s.declarations@;
    &&& 0 <= a < ds.len() && 0 <= b < ds.len()
    &&& filter_matches_declaration(pf, ds[a]) && filter_matches_declaration(pf, ds[b])
    &&& exists|k: int| 0 <= k < m && #[trigger] edge_selected(s, pf, edges[k]) && edges[k].source == a
        && edges[k].target@ == ds[b].name@
}

/// `g` is the layer graph of the snapshot under the reporting filter `f`
/// and the path filter `pf`.
pub open spec fn layer_graph_of(s: ExtractionSnapshot, edges: Seq<DependencyEdge>, f: AnalysisFilter, pf: AnalysisFilter, g: LensLayerGraph) -> bool {
    let ds = s.declarations@;
    let n = ds.len();
    &&& g.active@.len() == n
    &&& g.path_active@.len() == n
    &&& g.adjacency@.len() == n
    &&& g.reverse@.len() == n
    &&& forall|x: int| 0 <= x < n ==> #[trigger] g.active@[x] == filter_matches_declaration(f, ds[x])
    &&& forall|x: int| 0 <= x < n ==> #[trigger] g.path_active@[x] == filter_matches_declaration(pf, ds[x])
    &&& forall|x: int| 0 <= x < n ==> by_name(ds, #[trigger] g.adjacency@[x]@)
    &&& forall|x: int| 0 <= x < n ==> by_name(ds, #[trigger] g.reverse@[x]@)
    &&& forall|a: int, b: usize| 0 <= a < n ==> (#[trigger] g.adjacency@[a]@.contains(b) <==> lens_arc(s, edges, pf, a, b as int))
    &&& forall|a: usize, b: int| 0 <= b < n ==> (#[trigger] g.reverse@[b]@.contains(a) <==> lens_arc(s, edges, pf, a as int, b))
}

/// The reporting filter of a lens on one layer.
pub open spec fn lens_filter(config: LensAnalysisConfig, layer: DependencyLayer) -> AnalysisFilter {
    AnalysisFilter { layer: crate::analysis::lenses::layer_selection(layer), ..config.filter }
}

/// The path filter of a lens on one layer: hidden declarations may connect.
pub open spec fn lens_path_filter(config: LensAnalysisConfig, layer: DependencyLayer) -> AnalysisFilter {
    AnalysisFilter {
        layer: crate::analysis::lenses::layer_selection(layer),
        include_generated: true,
        include_infrastructure: true,
        ..config.filter
    }
}

impl AnalysisCorpus {
    /// Which declarations the filter admits, one mark per declaration.
    fn admitted_marks(&self, filter: &AnalysisFilter) -> (r: Vec<bool>)
        ensures
            r@.len() == self.snapshot_view().declarations@.len(),
            forall|x: int| 0 <= x < r@.len() ==> #[trigger] r@[x] == filter_matches_declaration(*filter, self.snapshot_view().declarations@[x]),
    {
        let ds = self.declarations();
        let mut r: Vec<bool> = Vec::new();
        let mut x: usize = 0;
        while x < ds.len()
            invariant
                ds@ == self.snapshot_view().declarations@,
                x <= ds@.len(),
                r@.len() == x,
                forall|y: int| 0 <= y < x ==> #[trigger] r@[y] == filter_matches_declaration(*filter, ds@[y]),
            decreases ds.len() - x,
        {
            r.push(filter.matches_declaration(&ds[x]));
            x = x + 1;
        }
        r
    }

    /// The dependency graph of one layer as the lenses read it.
    pub fn lens_layer_graph(&self, layer: DependencyLayer, config: &LensAnalysisConfig) -> (g: LensLayerGraph)
        ensures
            layer_graph_of(self.snapshot_view(), self.edges_view(), lens_filter(*config, layer), lens_path_filter(*config, layer), g),
    {
        proof {
            use_type_invariant(self);
        }
        let ghost s = self.snapshot_view();
        let ghost all = self.edges_view();
        let filter = exact_layer_filter(&config.filter, layer);
        let path_filter = path_layer_filter(&config.filter, layer);
        let ghost pf = lens_path_filter(*config, layer);
        proof {
            assert forall|d: DeclarationSnapshot| filter_matches_declaration(filter, d) == filter_matches_declaration(lens_filter(*config, layer), d) by {}
            assert forall|d: DeclarationSnapshot| filter_matches_declaration(path_filter, d) == filter_matches_declaration(pf, d) by {}
        }
        let active = self.admitted_marks(&filter);
        let path_active = self.admitted_marks(&path_filter);
        let ds = self.declarations();
        let n = ds.len();
        let mut adjacency: Vec<Vec<usize>> = Vec::new();
        let mut reverse: Vec<Vec<usize>> = Vec::new();
        let mut x: usize = 0;
        while x < n
            invariant
                x <= n,
                adjacency@.len() == x,
                reverse@.len() == x,
                forall|y: int| 0 <= y < x ==> (#[trigger] adjacency@[y])@.len() == 0,
                forall|y: int| 0 <= y < x ==> (#[trigger] reverse@[y])@.len() == 0,
            decreases n - x,
        {
            adjacency.push(Vec::new());
            reverse.push(Vec::new());
            x = x + 1;
        }
        let edges = self.edges();
        let mut j: usize = 0;
        while j < edges.len()
            invariant
                s == self.snapshot_view(),
                all == self.edges_view(),
                edges@ == all,
                ds@ == s.declarations@,
                n == ds@.len(),
                crate::analysis::corpus::edges_describe(s, all),
                crate::validation::snapshot_valid(s),
                names_distinct(ds@),
                path_active@.len() == n,
                forall|y: int| 0 <= y < n ==> #[trigger] path_active@[y] == filter_matches_declaration(pf, ds@[y]),
                forall|d: DeclarationSnapshot| filter_matches_declaration(path_filter, d) == filter_matches_declaration(pf, d),
                forall|e: DependencyEdge| edge_selected(s, path_filter, e) == edge_selected(s, pf, e),
                j <= all.len(),
                adjacency@.len() == n,
                reverse@.len() == n,
                forall|y: int| 0 <= y < n ==> by_name(ds@, #[trigger] adjacency@[y]@),
                forall|y: int| 0 <= y < n ==> by_name(ds@, #[trigger] reverse@[y]@),
                forall|a: int, b: usize| 0 <= a < n ==> (#[trigger] adjacency@[a]@.contains(b) <==> lens_arc_upto(s, all, pf, a, b as int, j as int)),
                forall|a: usize, b: int| 0 <= b < n ==> (#[trigger] reverse@[b]@.contains(a) <==> lens_arc_upto(s, all, pf, a as int, b, j as int)),
            decreases all.len() - j,
        {
            let edge = &edges[j];
            proof {
                assert(crate::analysis::corpus::edge_describes(s, all[j as int]));
            }
            let target = self.declaration_id(edge.target.as_str());
            let ghost adj0 = adjacency@;
            let ghost rev0 = reverse@;
            let selected = edge.source < n && self.edge_matches(edge, &path_filter);
            let mut added = false;
            match target {
                Some(t) => {
                    if selected && path_active[edge.source] && path_active[t] {
                        let src = edge.source;
                        let mut row = copy_ids(&adjacency[src]);
                        insert_by_name(&mut row, t, ds);
                        adjacency.set(src, row);
                        let mut back = copy_ids(&reverse[t]);
                        insert_by_name(&mut back, src, ds);
                        reverse.set(t, back);
                        added = true;
                    }
                },
                None => {},
            }
            proof {
                assert forall|a: int, b: usize| 0 <= a < n implies (#[trigger] adjacency@[a]@.contains(b) <==> lens_arc_upto(s, all, pf, a, b as int, j + 1)) by {
                    if lens_arc_upto(s, all, pf, a, b as int, j + 1) && !lens_arc_upto(s, all, pf, a, b as int, j as int) {
                        let k = choose|k: int| 0 <= k < j + 1 && #[trigger] edge_selected(s, pf, all[k]) && all[k].source == a
                            && all[k].target@ == ds@[b as int].name@;
                        assert(k == j);
                    }
                    if lens_arc_upto(s, all, pf, a, b as int, j as int) {
                        let k = choose|k: int| 0 <= k < j && #[trigger] edge_selected(s, pf, all[k]) && all[k].source == a
                            && all[k].target@ == ds@[b as int].name@;
                        assert(0 <= k < j + 1 && edge_selected(s, pf, all[k]));
                    }
                }
                assert forall|a: usize, b: int| 0 <= b < n implies (#[trigger] reverse@[b]@.contains(a) <==> lens_arc_upto(s, all, pf, a as int, b, j + 1)) by {
                    if lens_arc_upto(s, all, pf, a as int, b, j + 1) && !lens_arc_upto(s, all, pf, a as int, b, j as int) {
                        let k = choose|k: int| 0 <= k < j + 1 && #[trigger] edge_selected(s, pf, all[k]) && all[k].source == a
                            && all[k].target@ == ds@[b].name@;
                        assert(k == j);
                    }
                    if lens_arc_upto(s, all, pf, a as int, b, j as int) {
                        let k = choose|k: int| 0 <= k < j && #[trigger] edge_selected(s, pf, all[k]) && all[k].source == a
                            && all[k].target@ == ds@[b].name@;
                        assert(0 <= k < j + 1 && edge_selected(s, pf, all[k]));
                    }
                }
            }
            j = j + 1;
        }
        proof {
            assert forall|a: int, b: usize| 0 <= a < n implies (#[trigger] adjacency@[a]@.contains(b) <==> lens_arc(s, all, pf, a, b as int)) by {
                assert(lens_arc_upto(s, all, pf, a, b as int, all.len() as int) == lens_arc(s, all, pf, a, b as int));
            }
            assert forall|a: usize, b: int| 0 <= b < n implies (#[trigger] reverse@[b]@.contains(a) <==> lens_arc(s, all, pf, a as int, b)) by {
                assert(lens_arc_upto(s, all, pf, a as int, b, all.len() as int) == lens_arc(s, all, pf, a as int, b));
            }
        }
        LensLayerGraph { adjacency, reverse, active, path_active }
    }
}


/// `x` reaches `target` along arcs of `adjacency` in at most `d` steps.
pub open spec fn reaches_within(adjacency: Seq<Vec<usize>>, x: int, target: int, d: nat) -> bool
    decreases d,
{
    x == target || (d > 0 && 0 <= x < adjacency.len() && exists|y: usize| #[trigger] adjacency[x]@.contains(y)
        && reaches_within(adjacency, y as int, target, (d - 1) as nat))
}

/// The search marks: every marked node other than `target` was reached from
/// a marked node one step nearer, over an arc into it.
pub open spec fn search_tree(
    g: LensLayerGraph,
    target: int,
    max_depth: nat,
    seen: Seq<bool>,
    toward: Seq<usize>,
    depth: Seq<usize>,
) -> bool {
    let n = g.reverse@.len();
    &&& seen.len() == n && toward.len() == n && depth.len() == n
    &&& 0 <= target < n && seen[target] && depth[target] == 0
    &&& forall|x: int| 0 <= x < n && #[trigger] seen[x] ==> depth[x] <= max_depth
    &&& forall|x: int| 0 <= x < n && #[trigger] seen[x] && x != target ==> {
        &&& toward[x] < n
        &&& seen[toward[x] as int]
        &&& g.adjacency@[x]@.contains(toward[x])
        &&& depth[x] == depth[toward[x] as int] + 1
    }
}

/// Every marked node reaches the target within its depth.
proof fn lemma_tree_reaches(
    g: LensLayerGraph,
    target: int,
    max_depth: nat,
    seen: Seq<bool>,
    toward: Seq<usize>,
    depth: Seq<usize>,
    x: int,
)
    requires
        search_tree(g, target, max_depth, seen, toward, depth),
        g.adjacency@.len() == g.reverse@.len(),
        0 <= x < seen.len(),
        seen[x],
    ensures
        reaches_within(g.adjacency@, x, target, depth[x] as nat),
    decreases depth[x],
{
    if x != target {
        let y = toward[x] as int;
        lemma_tree_reaches(g, target, max_depth, seen, toward, depth, y);
        assert(g.adjacency@[x]@.contains(toward[x]));
        assert(reaches_within(g.adjacency@, toward[x] as int, target, (depth[x] - 1) as nat));
    }
}

/// Reaching within fewer steps is reaching within more.
proof fn lemma_reaches_monotone(adjacency: Seq<Vec<usize>>, x: int, target: int, d: nat, e: nat)
    requires
        reaches_within(adjacency, x, target, d),
        d <= e,
    ensures
        reaches_within(adjacency, x, target, e),
    decreases d,
{
    if x != target {
        let y = choose|y: usize| #[trigger] adjacency[x]@.contains(y) && reaches_within(adjacency, y as int, target, (d - 1) as nat);
        lemma_reaches_monotone(adjacency, y as int, target, (d - 1) as nat, (e - 1) as nat);
    }
}

/// Every node with an arc into `y` is marked, at most one level deeper.
spec fn arcs_in_marked(g: LensLayerGraph, seen: Seq<bool>, depth: Seq<usize>, y: int) -> bool {
    forall|a: usize| #[trigger] g.reverse@[y]@.contains(a) ==> seen[a as int] && depth[a as int] <= depth[y] + 1
}

/// Queue entries come in order of depth.
spec fn queue_by_depth(queue: Seq<usize>, depth: Seq<usize>) -> bool {
    forall|i: int, j: int| 0 <= i < j < queue.len() ==> depth[#[trigger] queue[i] as int] <= depth[#[trigger] queue[j] as int]
}

/// Once every marked node short of the depth limit has had its arcs in
/// marked, every node that reaches the target within `d <= max_depth`
/// steps is marked at most `d` deep.
proof fn lemma_search_complete(g: LensLayerGraph, target: int, max_depth: nat, seen: Seq<bool>, toward: Seq<usize>, depth: Seq<usize>, x: int, d: nat)
    requires
        seen.len() == g.reverse@.len(),
        depth.len() == g.reverse@.len(),
        0 <= target < seen.len(),
        seen[target],
        depth[target] == 0,
        g.adjacency@.len() == g.reverse@.len(),
        forall|a: int, b: usize| 0 <= a < g.reverse@.len() && #[trigger] g.adjacency@[a]@.contains(b)
            ==> b < g.reverse@.len() && g.reverse@[b as int]@.contains(a as usize),
        forall|y: int| 0 <= y < seen.len() && seen[y] && depth[y] < max_depth ==> #[trigger] arcs_in_marked(g, seen, depth, y),
        0 <= x < seen.len(),
        reaches_within(g.adjacency@, x, target, d),
        d <= max_depth,
    ensures
        seen[x],
        depth[x] <= d,
    decreases d,
{
    if x != target {
        assert(d > 0);
        let y = choose|y: usize| #[trigger] g.adjacency@[x]@.contains(y) && reaches_within(g.adjacency@, y as int, target, (d - 1) as nat);
        assert(y < g.reverse@.len());
        lemma_search_complete(g, target, max_depth, seen, toward, depth, y as int, (d - 1) as nat);
        assert(0 <= y < seen.len() && seen[y as int] && depth[y as int] < max_depth);
        assert(arcs_in_marked(g, seen, depth, y as int));
        assert(g.reverse@[y as int]@.contains(x as usize));
        assert(g.reverse@.len() == g.reverse.len());
        assert((x as usize) as int == x);
        assert(seen[(x as usize) as int] && depth[(x as usize) as int] <= depth[y as int] + 1);
    }
}

/// Breadth-first search from `target` against the arcs, to `max_depth`
/// steps: the marks, the step toward the target and the depth of each
/// marked node, and whether nodes beyond the depth were left out.
fn dependents_search(g: &LensLayerGraph, target: usize, max_depth: usize) -> (r: (Vec<bool>, Vec<usize>, Vec<usize>, bool))
    requires
        target < g.reverse@.len(),
        g.adjacency@.len() == g.reverse@.len(),
        forall|x: int, k: int| 0 <= x < g.reverse@.len() && 0 <= k < g.reverse@[x]@.len() ==> #[trigger] g.reverse@[x]@[k] < g.reverse@.len(),
        forall|a: usize, b: int| 0 <= b < g.reverse@.len() && #[trigger] g.reverse@[b]@.contains(a) ==> g.adjacency@[a as int]@.contains(b as usize),
        forall|a: int, b: usize| 0 <= a < g.reverse@.len() && #[trigger] g.adjacency@[a]@.contains(b)
            ==> b < g.reverse@.len() && g.reverse@[b as int]@.contains(a as usize),
    ensures
        search_tree(*g, target as int, max_depth as nat, r.0@, r.1@, r.2@),
        forall|x: int| 0 <= x < g.reverse@.len() && #[trigger] reaches_within(g.adjacency@, x, target as int, max_depth as nat) ==> r.0@[x],
{
    let n = g.reverse.len();
    let mut seen: Vec<bool> = Vec::new();
    let mut toward: Vec<usize> = Vec::new();
    let mut depth: Vec<usize> = Vec::new();
    let mut i: usize = 0;
    while i < n
        invariant
            i <= n,
            seen@.len() == i && toward@.len() == i && depth@.len() == i,
            forall|x: int| 0 <= x < i ==> !#[trigger] seen@[x],
            forall|x: int| 0 <= x < i ==> #[trigger] depth@[x] == 0,
        decreases n - i,
    {
        seen.push(false);
        toward.push(0);
        depth.push(0);
        i = i + 1;
    }
    proof {
        crate::analysis::proof_steps::lemma_count_true_set(seen@, target as int);
        assert(crate::analysis::proof_steps::count_true(seen@) == 0) by {
            lemma_count_true_zero(seen@);
        }
    }
    seen.set(target, true);
    let mut queue: Vec<usize> = Vec::new();
    queue.push(target);
    let mut head: usize = 0;
    let mut truncated = false;
    while head < queue.len()
        invariant
            n == g.reverse@.len(),
            g.adjacency@.len() == n,
            forall|x: int, k: int| 0 <= x < n && 0 <= k < g.reverse@[x]@.len() ==> #[trigger] g.reverse@[x]@[k] < n,
            forall|a: usize, b: int| 0 <= b < n && #[trigger] g.reverse@[b]@.contains(a) ==> g.adjacency@[a as int]@.contains(b as usize),
            search_tree(*g, target as int, max_depth as nat, seen@, toward@, depth@),
            head <= queue@.len(),
            queue@.len() == crate::analysis::proof_steps::count_true(seen@),
            queue@.len() <= n,
            forall|k: int| 0 <= k < queue@.len() ==> #[trigger] queue@[k] < n && seen@[queue@[k] as int],
            queue@.len() >= 1,
            queue_by_depth(queue@, depth@),
            head == 0 ==> queue@.len() == 1 && queue@[0] == target,
            head >= 1 ==> forall|j: int| 0 <= j < queue@.len() ==> #[trigger] depth@[queue@[j] as int] <= depth@[queue@[head - 1] as int] + 1,
            forall|i: int| 0 <= i < head && depth@[queue@[i] as int] < max_depth ==> #[trigger] arcs_in_marked(*g, seen@, depth@, queue@[i] as int),
            forall|x: int| 0 <= x < n && #[trigger] seen@[x] ==> exists|k: int| 0 <= k < queue@.len() && queue@[k] == x,
        decreases 2 * n - head - queue@.len(),
    {
        let current = queue[head];
        head = head + 1;
        let ghost qlen0 = queue@.len();
        let ghost q0 = queue@;
        let ghost seen0 = seen@;
        let ghost depth0 = depth@;
        proof {
            assert forall|j: int| 0 <= j < queue@.len() implies #[trigger] depth@[queue@[j] as int] <= depth@[current as int] + 1 by {
                if head - 1 >= 1 {
                    assert(depth@[queue@[j] as int] <= depth@[queue@[head - 2] as int] + 1);
                    assert(depth@[queue@[head - 2] as int] <= depth@[queue@[head - 1] as int]);
                }
            }
        }
        if depth[current] >= max_depth {
            let row = &g.reverse[current];
            let mut k: usize = 0;
            while k < row.len()
                invariant
                    n == seen@.len(),
                    queue@.len() == qlen0,
                    current < n,
                    row@ == g.reverse@[current as int]@,
                    forall|j: int| 0 <= j < row@.len() ==> #[trigger] row@[j] < n,
                    k <= row@.len(),
                decreases row.len() - k,
            {
                if !seen[row[k]] {
                    truncated = true;
                }
                k = k + 1;
            }
        } else {
            let row = &g.reverse[current];
            let mut k: usize = 0;
            while k < row.len()
                invariant
                    n == g.reverse@.len(),
                    g.adjacency@.len() == n,
                    current < n,
                    seen@[current as int],
                    depth@[current as int] < max_depth,
                    row@ == g.reverse@[current as int]@,
                    forall|j: int| 0 <= j < row@.len() ==> #[trigger] row@[j] < n,
                    forall|a: usize, b: int| 0 <= b < n && #[trigger] g.reverse@[b]@.contains(a) ==> g.adjacency@[a as int]@.contains(b as usize),
                    search_tree(*g, target as int, max_depth as nat, seen@, toward@, depth@),
                    head <= queue@.len(),
                    queue@.len() >= qlen0,
                    queue@.len() == crate::analysis::proof_steps::count_true(seen@),
                    queue@.len() <= n,
                    forall|j: int| 0 <= j < queue@.len() ==> #[trigger] queue@[j] < n && seen@[queue@[j] as int],
                    k <= row@.len(),
                    current == q0[head - 1],
                    head >= 1,
                    q0.len() == qlen0,
                    forall|j: int| 0 <= j < q0.len() ==> #[trigger] queue@[j] == q0[j],
                    forall|j: int| q0.len() <= j < queue@.len() ==> #[trigger] depth@[queue@[j] as int] == depth@[current as int] + 1,
                    forall|x: int| 0 <= x < n && #[trigger] seen0[x] ==> seen@[x] && depth@[x] == depth0[x],
                    depth@[current as int] == depth0[current as int],
                    seen0.len() == n && depth0.len() == n,
                    forall|j: int| 0 <= j < q0.len() ==> #[trigger] depth0[q0[j] as int] <= depth0[current as int] + 1,
                    queue_by_depth(q0, depth0),
                    forall|j: int| 0 <= j < k ==> seen@[#[trigger] row@[j] as int] && depth@[row@[j] as int] <= depth@[current as int] + 1,
                    forall|x: int| 0 <= x < n && #[trigger] seen@[x] ==> exists|j: int| 0 <= j < queue@.len() && queue@[j] == x,
                    forall|x: int| 0 <= x < n && seen@[x] && !seen0[x] ==> #[trigger] depth@[x] == depth@[current as int] + 1,
                decreases row.len() - k,
            {
                let next = row[k];
                if !seen[next] {
                    proof {
                        crate::analysis::proof_steps::lemma_count_true_set(seen@, next as int);
                        assert(g.reverse@[current as int]@.contains(next)) by {
                            assert(row@[k as int] == next);
                        }
                        assert(next != target);
                    }
                    let d = depth[current] + 1;
                    let ghost qb = queue@;
                    let ghost sb = seen@;
                    seen.set(next, true);
                    toward.set(next, current);
                    depth.set(next, d);
                    queue.push(next);
                    proof {
                        crate::analysis::proof_steps::lemma_count_true_set(seen@, next as int);
                        assert(queue@[queue@.len() - 1] == next);
                        assert forall|x: int| 0 <= x < n && #[trigger] seen@[x] implies exists|j: int| 0 <= j < queue@.len() && queue@[j] == x by {
                            if x != next as int {
                                assert(sb[x]);
                                let j = choose|j: int| 0 <= j < qb.len() && qb[j] == x;
                                assert(queue@[j] == qb[j]);
                            } else {
                                assert(queue@[queue@.len() - 1] == x);
                            }
                        }
                    }
                }
                k = k + 1;
            }
            proof {
                assert forall|j: int| 0 <= j < row@.len() implies seen@[#[trigger] row@[j] as int] && depth@[row@[j] as int] <= depth@[current as int] + 1 by {}
            }
        }
        proof {
            assert(queue@[head - 1] == current);
            assert forall|i: int, j: int| 0 <= i < j < queue@.len() implies depth@[#[trigger] queue@[i] as int] <= depth@[#[trigger] queue@[j] as int] by {
                if j < q0.len() {
                    assert(depth0[q0[i] as int] <= depth0[q0[j] as int]);
                } else if i < q0.len() {
                    assert(depth0[q0[i] as int] <= depth0[current as int] + 1);
                }
            }
            assert forall|j: int| 0 <= j < queue@.len() implies #[trigger] depth@[queue@[j] as int] <= depth@[queue@[head - 1] as int] + 1 by {
                if j < q0.len() {
                    assert(depth0[q0[j] as int] <= depth0[current as int] + 1);
                }
            }
            assert forall|i: int| 0 <= i < head && depth@[queue@[i] as int] < max_depth implies #[trigger] arcs_in_marked(*g, seen@, depth@, queue@[i] as int) by {
                if i < head - 1 {
                    assert(queue@[i] == q0[i]);
                    assert(arcs_in_marked(*g, seen0, depth0, q0[i] as int));
                    assert forall|a: usize| #[trigger] g.reverse@[q0[i] as int]@.contains(a) implies seen@[a as int] && depth@[a as int] <= depth@[q0[i] as int] + 1 by {
                        assert(seen0[a as int]);
                    }
                } else {
                    assert forall|a: usize| #[trigger] g.reverse@[current as int]@.contains(a) implies seen@[a as int] && depth@[a as int] <= depth@[current as int] + 1 by {
                        let j = choose|j: int| 0 <= j < g.reverse@[current as int]@.len() && g.reverse@[current as int]@[j] == a;
                    }
                }
            }
        }
    }
    proof {
        assert forall|y: int| 0 <= y < seen@.len() && seen@[y] && depth@[y] < max_depth implies #[trigger] arcs_in_marked(*g, seen@, depth@, y) by {
            let k = choose|k: int| 0 <= k < queue@.len() && queue@[k] == y;
        }
        assert forall|x: int| 0 <= x < g.reverse@.len() && #[trigger] reaches_within(g.adjacency@, x, target as int, max_depth as nat) implies seen@[x] by {
            lemma_search_complete(*g, target as int, max_depth as nat, seen@, toward@, depth@, x, max_depth as nat);
        }
    }
    (seen, toward, depth, truncated)
}

/// No marks are set in an all-false list.
proof fn lemma_count_true_zero(s: Seq<bool>)
    requires
        forall|x: int| 0 <= x < s.len() ==> !#[trigger] s[x],
    ensures
        crate::analysis::proof_steps::count_true(s) == 0,
    decreases s.len(),
{
    if s.len() > 0 {
        lemma_count_true_zero(s.drop_last());
    }
}


/// A theorem of the layer graph that the lens reports.
pub open spec fn reported_theorem(s: ExtractionSnapshot, g: LensLayerGraph, x: int) -> bool {
    &&& 0 <= x < s.declarations@.len()
    &&& g.active@[x]
    &&& s.declarations@[x].kind@ == "theorem"@
}

/// The region recorded for `name`, the first entry for it.
pub open spec fn region_of(regions: Seq<(String, String)>, name: Seq<char>) -> Option<Seq<char>>
    decreases regions.len(),
{
    if regions.len() == 0 {
        None
    } else if regions[0].0@ == name {
        Some(regions[0].1@)
    } else {
        region_of(regions.drop_first(), name)
    }
}

/// The region recorded for `name`.
pub(crate) fn find_region(regions: &Vec<(String, String)>, name: &str) -> (r: Option<String>)
    ensures
        crate::strings::opt_view(&r) == region_of(regions@, name@),
{
    let mut k: usize = 0;
    proof {
        assert(regions@.skip(0) =~= regions@);
    }
    while k < regions.len()
        invariant
            k <= regions@.len(),
            region_of(regions@, name@) == region_of(regions@.skip(k as int), name@),
        decreases regions.len() - k,
    {
        proof {
            assert(regions@.skip(k as int).drop_first() =~= regions@.skip(k + 1));
        }
        if text_eq(regions[k].0.as_str(), name) {
            return Some(copy_text(&regions[k].1));
        }
        k = k + 1;
    }
    None
}

/// The texts strictly increase.
pub open spec fn strictly_sorted(s: Seq<Seq<char>>) -> bool {
    forall|i: int, j: int| 0 <= i < j < s.len() ==> text_lt(#[trigger] s[i], #[trigger] s[j])
}

impl AnalysisCorpus {
    /// The names of the reported theorems among the direct dependents of
    /// `target`, in name order.
    fn direct_theorem_dependents(&self, g: &LensLayerGraph, target: usize) -> (r: Vec<String>)
        requires
            target < g.reverse@.len(),
            g.active@.len() == self.snapshot_view().declarations@.len(),
            by_name(self.snapshot_view().declarations@, g.reverse@[target as int]@),
        ensures
            strictly_sorted(texts_view(r@)),
            forall|name: Seq<char>| #[trigger] texts_view(r@).contains(name) <==> exists|x: usize|
                #[trigger] g.reverse@[target as int]@.contains(x) && reported_theorem(self.snapshot_view(), *g, x as int)
                    && self.snapshot_view().declarations@[x as int].name@ == name,
    {
        let ghost s = self.snapshot_view();
        let ds = self.declarations();
        let row = &g.reverse[target];
        let ghost kept: Seq<usize> = Seq::empty();
        let mut r: Vec<String> = Vec::new();
        let mut k: usize = 0;
        while k < row.len()
            invariant
                s == self.snapshot_view(),
                ds@ == s.declarations@,
                g.active@.len() == ds@.len(),
                row@ == g.reverse@[target as int]@,
                by_name(ds@, row@),
                k <= row@.len(),
                texts_view(r@) == kept.map_values(|x: usize| ds@[x as int].name@),
                forall|i: int| 0 <= i < kept.len() ==> exists|j: int| 0 <= j < k && row@[j] == #[trigger] kept[i],
                forall|i: int, j: int| 0 <= i < j < kept.len() ==> text_lt(ds@[#[trigger] kept[i] as int].name@, ds@[#[trigger] kept[j] as int].name@),
                forall|i: int| 0 <= i < kept.len() ==> text_lt(ds@[#[trigger] kept[i] as int].name@, ds@[row@[k as int] as int].name@) || k == row@.len(),
                forall|i: int| 0 <= i < kept.len() ==> reported_theorem(s, *g, #[trigger] kept[i] as int),
                forall|j: int| 0 <= j < k && reported_theorem(s, *g, #[trigger] row@[j] as int) ==> kept.contains(row@[j]),
            decreases row.len() - k,
        {
            let x = row[k];
            let ghost kept0 = kept;
            if g.active[x] && text_eq(ds[x].kind.as_str(), "theorem") {
                let ghost r0 = r@;
                r.push(copy_text(&ds[x].name));
                proof {
                    kept = kept.push(x);
                    assert(r@ =~= r0.push(r@[r@.len() - 1]));
                    assert(texts_view(r@) =~= texts_view(r0).push(ds@[x as int].name@));
                    assert(kept.map_values(|x: usize| ds@[x as int].name@) =~= kept0.map_values(|x: usize| ds@[x as int].name@).push(ds@[x as int].name@));
                }
            }
            proof {
                assert forall|j: int| 0 <= j < k + 1 && reported_theorem(s, *g, #[trigger] row@[j] as int) implies kept.contains(row@[j]) by {
                    if j < k {
                        let i = choose|i: int| 0 <= i < kept0.len() && kept0[i] == row@[j];
                        assert(kept[i] == row@[j]);
                    } else {
                        assert(kept[kept.len() - 1] == x);
                    }
                }
            }
            proof {
                if k + 1 < row@.len() {
                    assert(text_lt(ds@[row@[k as int] as int].name@, ds@[row@[k + 1] as int].name@));
                    assert forall|i: int| 0 <= i < kept.len() implies text_lt(ds@[#[trigger] kept[i] as int].name@, ds@[row@[k + 1] as int].name@) by {
                        if kept[i] != x {
                            lemma_text_lt_transitive(ds@[kept[i] as int].name@, ds@[row@[k as int] as int].name@, ds@[row@[k + 1] as int].name@);
                        }
                    }
                }
            }
            k = k + 1;
        }
        proof {
            let t = texts_view(r@);
            assert forall|name: Seq<char>| #[trigger] t.contains(name) <==> exists|x: usize|
                #[trigger] g.reverse@[target as int]@.contains(x) && reported_theorem(s, *g, x as int) && s.declarations@[x as int].name@ == name by {
                if t.contains(name) {
                    let i = choose|i: int| 0 <= i < t.len() && t[i] == name;
                    let j = choose|j: int| 0 <= j < k && row@[j] == kept[i];
                    assert(g.reverse@[target as int]@.contains(kept[i]));
                }
                if exists|x: usize| #[trigger] g.reverse@[target as int]@.contains(x) && reported_theorem(s, *g, x as int) && s.declarations@[x as int].name@ == name {
                    let x = choose|x: usize| #[trigger] g.reverse@[target as int]@.contains(x) && reported_theorem(s, *g, x as int) && s.declarations@[x as int].name@ == name;
                    let j = choose|j: int| 0 <= j < row@.len() && row@[j] == x;
                    assert(kept.contains(row@[j]));
                    let i = choose|i: int| 0 <= i < kept.len() && kept[i] == x;
                    assert(t[i] == name);
                }
            }
        }
        r
    }
}


/// Sorted texts with repeats removed.
pub(crate) fn dedup_sorted(v: Vec<String>) -> (r: Vec<String>)
    requires
        names_sorted(texts_view(v@)),
    ensures
        strictly_sorted(texts_view(r@)),
        forall|x: Seq<char>| #[trigger] texts_view(r@).contains(x) <==> texts_view(v@).contains(x),
{
    let ghost t = texts_view(v@);
    let mut r: Vec<String> = Vec::new();
    let mut k: usize = 0;
    while k < v.len()
        invariant
            t == texts_view(v@),
            names_sorted(t),
            k <= v@.len(),
            strictly_sorted(texts_view(r@)),
            forall|x: Seq<char>| #[trigger] texts_view(r@).contains(x) <==> t.take(k as int).contains(x),
            r@.len() > 0 ==> k > 0 && texts_view(r@).last() == t[k - 1],
        decreases v.len() - k,
    {
        let ghost r0 = texts_view(r@);
        let fresh = r.len() == 0 || !text_eq(r[r.len() - 1].as_str(), v[k].as_str());
        if fresh {
            let ghost rr = r@;
            r.push(copy_text(&v[k]));
            proof {
                assert(r@ =~= rr.push(r@[r@.len() - 1]));
                assert(texts_view(r@) =~= r0.push(t[k as int]));
                if r0.len() > 0 {
                    assert(!text_lt(t[k as int], t[k - 1]));
                    lemma_text_lt_trichotomy(t[k - 1], t[k as int]);
                    assert forall|i: int, j: int| 0 <= i < j < texts_view(r@).len() implies text_lt(#[trigger] texts_view(r@)[i], #[trigger] texts_view(r@)[j]) by {
                        if j == r0.len() && i < r0.len() - 1 {
                            lemma_text_lt_transitive(r0[i], r0.last(), t[k as int]);
                        }
                    }
                }
            }
        }
        proof {
            assert(t.take(k + 1) =~= t.take(k as int).push(t[k as int]));
            assert forall|x: Seq<char>| #[trigger] texts_view(r@).contains(x) <==> t.take(k + 1).contains(x) by {
                let rv = texts_view(r@);
                let tk = t.take(k + 1);
                if rv.contains(x) {
                    let i = choose|i: int| 0 <= i < rv.len() && #[trigger] rv[i] == x;
                    if fresh && i == rv.len() - 1 {
                        assert(tk[k as int] == x);
                    } else {
                        assert(r0[i] == x);
                        assert(r0.contains(x));
                        assert(t.take(k as int).contains(x));
                        let j = choose|j: int| 0 <= j < k && #[trigger] t.take(k as int)[j] == x;
                        assert(tk[j] == x);
                    }
                }
                if tk.contains(x) {
                    let i = choose|i: int| 0 <= i < tk.len() && #[trigger] tk[i] == x;
                    if i < k {
                        assert(t.take(k as int)[i] == x);
                        assert(t.take(k as int).contains(x));
                        assert(r0.contains(x));
                        let j = choose|j: int| 0 <= j < r0.len() && #[trigger] r0[j] == x;
                        assert(rv[j] == x);
                    } else if fresh {
                        assert(rv[rv.len() - 1] == x);
                    } else {
                        assert(r0[r0.len() - 1] == x);
                    }
                }
            }
        }
        k = k + 1;
    }
    proof {
        assert(t.take(v@.len() as int) =~= t);
    }
    r
}

/// A path start: deeper first, then by name.
struct StartKey {
    depth: usize,
    name: String,
    id: usize,
}

impl Ranked for StartKey {
    closed spec fn rank_lt(self, other: Self) -> bool {
        self.depth > other.depth || (self.depth == other.depth && (text_lt(self.name@, other.name@)
            || (self.name@ == other.name@ && self.id < other.id)))
    }

    fn precedes(&self, other: &Self) -> (r: bool) {
        if self.depth != other.depth {
            self.depth > other.depth
        } else {
            match compare_text(self.name.as_str(), other.name.as_str()) {
                Order::Less => true,
                Order::Greater => false,
                Order::Equal => self.id < other.id,
            }
        }
    }

    proof fn lemma_rank_order(a: Self, b: Self, c: Self) {
        lemma_text_lt_trichotomy(a.name@, b.name@);
        lemma_text_lt_trichotomy(b.name@, c.name@);
        lemma_text_lt_trichotomy(a.name@, c.name@);
        if text_lt(a.name@, b.name@) && text_lt(b.name@, c.name@) {
            lemma_text_lt_transitive(a.name@, b.name@, c.name@);
        }
        if text_lt(c.name@, b.name@) && text_lt(b.name@, a.name@) {
            lemma_text_lt_transitive(c.name@, b.name@, a.name@);
        }
    }
}

/// A witness path of the influence lens: from a reported theorem, over arcs
/// of the layer graph, to the target, every step in `layer`.
pub open spec fn witness_walk(s: ExtractionSnapshot, g: LensLayerGraph, target: int, layer: DependencyLayer, p: DependencyWitnessPath) -> bool {
    let names = texts_view(p.nodes@);
    &&& names.len() >= 1
    &&& p.layers@ == Seq::new((names.len() - 1) as nat, |i: int| layer)
    &&& exists|ids: Seq<usize>| {
        &&& ids.len() == names.len()
        &&& ids[0] != target && reported_theorem(s, g, ids[0] as int)
        &&& ids.last() == target
        &&& forall|i: int| 0 <= i < ids.len() ==> #[trigger] ids[i] < s.declarations@.len() && s.declarations@[ids[i] as int].name@ == names[i]
        &&& forall|i: int| 0 <= i < ids.len() - 1 ==> g.adjacency@[#[trigger] ids[i] as int]@.contains(ids[i + 1])
    }
}


/// Start `a` is walked before start `b`: it lies deeper in the search, or
/// as deep with an earlier name, or the same name and an earlier index.
pub open spec fn start_before(s: ExtractionSnapshot, depth: Seq<usize>, a: usize, b: usize) -> bool {
    let (na, nb) = (s.declarations@[a as int].name@, s.declarations@[b as int].name@);
    depth[a as int] > depth[b as int] || (depth[a as int] == depth[b as int]
        && (text_lt(na, nb) || (na == nb && a < b)))
}

/// `starts` are the first of `ids` in walking order, and `paths` begin at
/// them in turn.
pub open spec fn starts_chosen(s: ExtractionSnapshot, depth: Seq<usize>, ids: Seq<usize>, starts: Seq<usize>, paths: Seq<DependencyWitnessPath>) -> bool {
    &&& starts.len() == paths.len()
    &&& forall|i: int| 0 <= i < starts.len() ==> ids.contains(#[trigger] starts[i])
        && texts_view(paths[i].nodes@)[0] == s.declarations@[starts[i] as int].name@
    &&& forall|i: int, j: int| 0 <= i < j < starts.len() ==> !start_before(s, depth, #[trigger] starts[j], #[trigger] starts[i])
    &&& forall|x: usize, i: int| #[trigger] ids.contains(x) && !starts.contains(x) && 0 <= i < starts.len()
        ==> !start_before(s, depth, x, #[trigger] starts[i])
}

/// The first `n` sorted keys name starts in walking order.
proof fn lemma_start_order(s: ExtractionSnapshot, depth: Seq<usize>, ids: Seq<usize>, unsorted: Seq<StartKey>, sorted: Seq<StartKey>, n: int)
    requires
        unsorted.len() == ids.len(),
        forall|i: int| 0 <= i < unsorted.len() ==> (#[trigger] unsorted[i]).id == ids[i] && unsorted[i].depth == depth[ids[i] as int]
            && unsorted[i].name@ == s.declarations@[ids[i] as int].name@,
        sorted.to_multiset() == unsorted.to_multiset(),
        ranked_sorted(sorted),
        0 <= n <= sorted.len(),
    ensures
        sorted.len() == ids.len(),
        forall|i: int| 0 <= i < n ==> ids.contains(#[trigger] sorted[i].id),
        forall|i: int, j: int| 0 <= i < j < n ==> !start_before(s, depth, #[trigger] sorted[j].id, #[trigger] sorted[i].id),
        forall|x: usize, i: int| #[trigger] ids.contains(x) && !Seq::new(n as nat, |k: int| sorted[k].id).contains(x) && 0 <= i < n
            ==> !start_before(s, depth, x, #[trigger] sorted[i].id),
{
    broadcast use vstd::seq_lib::group_to_multiset_ensures;
    assert(sorted.len() == unsorted.len()) by {
        vstd::seq_lib::to_multiset_len(sorted);
        vstd::seq_lib::to_multiset_len(unsorted);
    }
    assert forall|i: int| 0 <= i < sorted.len() implies exists|m: int| 0 <= m < unsorted.len() && #[trigger] unsorted[m] == #[trigger] sorted[i] by {
        assert(sorted.to_multiset().count(sorted[i]) > 0);
        assert(unsorted.contains(sorted[i]));
    }
    assert forall|i: int| 0 <= i < n implies ids.contains(#[trigger] sorted[i].id) by {
        assert(sorted[i] == sorted[i]);
        let m = choose|m: int| 0 <= m < unsorted.len() && #[trigger] unsorted[m] == sorted[i];
        assert(ids[m] == sorted[i].id);
    }
    assert forall|i: int, j: int| 0 <= i < j < n implies !start_before(s, depth, #[trigger] sorted[j].id, #[trigger] sorted[i].id) by {
        let a = choose|m: int| 0 <= m < unsorted.len() && #[trigger] unsorted[m] == sorted[i];
        let b = choose|m: int| 0 <= m < unsorted.len() && #[trigger] unsorted[m] == sorted[j];
        assert(!sorted[j].rank_lt(sorted[i]));
    }
    let starts = Seq::new(n as nat, |k: int| sorted[k].id);
    assert forall|x: usize, i: int| #[trigger] ids.contains(x) && !starts.contains(x) && 0 <= i < n
        implies !start_before(s, depth, x, #[trigger] sorted[i].id) by {
        let m = choose|m: int| 0 <= m < ids.len() && ids[m] == x;
        assert(unsorted.to_multiset().count(unsorted[m]) > 0);
        assert(sorted.contains(unsorted[m]));
        let p = choose|p: int| 0 <= p < sorted.len() && sorted[p] == unsorted[m];
        if p < n {
            assert(starts[p] == x);
        }
        let a = choose|k: int| 0 <= k < unsorted.len() && #[trigger] unsorted[k] == sorted[i];
        assert(!sorted[p].rank_lt(sorted[i]));
    }
}

impl AnalysisCorpus {
    /// The witness path from `start` to `target` along the search tree.
    fn walk_to_target(
        &self,
        g: &LensLayerGraph,
        seen: Ghost<Seq<bool>>,
        toward: &Vec<usize>,
        depth: &Vec<usize>,
        max_depth: Ghost<nat>,
        start: usize,
        target: usize,
        layer: DependencyLayer,
    ) -> (p: DependencyWitnessPath)
        requires
            search_tree(*g, target as int, max_depth@, seen@, toward@, depth@),
            g.reverse@.len() == self.snapshot_view().declarations@.len(),
            start < seen@.len(),
            seen@[start as int],
            start != target,
            reported_theorem(self.snapshot_view(), *g, start as int),
        ensures
            witness_walk(self.snapshot_view(), *g, target as int, layer, p),
            texts_view(p.nodes@)[0] == self.snapshot_view().declarations@[start as int].name@,
    {
        let ghost s = self.snapshot_view();
        let ds = self.declarations();
        let mut nodes: Vec<String> = Vec::new();
        let mut layers: Vec<DependencyLayer> = Vec::new();
        nodes.push(copy_text(&ds[start].name));
        let ghost mut ids: Seq<usize> = seq![start];
        let mut current = start;
        proof {
            assert(texts_view(nodes@) =~= seq![ds@[start as int].name@]);
        }
        while current != target
            invariant
                s == self.snapshot_view(),
                ds@ == s.declarations@,
                search_tree(*g, target as int, max_depth@, seen@, toward@, depth@),
                g.reverse@.len() == ds@.len(),
                current < ds@.len(),
                seen@[current as int],
                ids.len() == nodes@.len(),
                ids.len() >= 1,
                ids[0] == start,
                start != target,
                reported_theorem(s, *g, start as int),
                ids.last() == current,
                layers@ == Seq::new((ids.len() - 1) as nat, |i: int| layer),
                forall|i: int| 0 <= i < ids.len() ==> #[trigger] ids[i] < ds@.len() && ds@[ids[i] as int].name@ == texts_view(nodes@)[i],
                forall|i: int| 0 <= i < ids.len() - 1 ==> g.adjacency@[#[trigger] ids[i] as int]@.contains(ids[i + 1]),
            decreases depth@[current as int],
        {
            let next = toward[current];
            let ghost n0 = nodes@;
            let ghost i0 = ids;
            nodes.push(copy_text(&ds[next].name));
            layers.push(layer);
            proof {
                ids = ids.push(next);
                assert(texts_view(nodes@) =~= texts_view(n0).push(ds@[next as int].name@));
                assert(layers@ =~= Seq::new((ids.len() - 1) as nat, |i: int| layer));
                assert forall|i: int| 0 <= i < ids.len() - 1 implies g.adjacency@[#[trigger] ids[i] as int]@.contains(ids[i + 1]) by {
                    if i < i0.len() - 1 {
                        assert(ids[i] == i0[i] && ids[i + 1] == i0[i + 1]);
                    } else {
                        assert(ids[i] == current && ids[i + 1] == next);
                    }
                }
            }
            current = next;
        }
        let p = DependencyWitnessPath { nodes, layers };
        proof {
            assert(witness_walk(s, *g, target as int, layer, p)) by {
                assert(ids.len() == texts_view(p.nodes@).len());
            }
        }
        p
    }
}


/// The sentence that sums up influence evidence.
pub open spec fn influence_reason(reachable: nat, direct: nat, regions: nat) -> Seq<char> {
    "reachable from "@ + decimal(reachable) + " theorem(s), including "@ + decimal(direct) + " direct dependent(s), across "@
        + decimal(regions) + " graph region(s)"@
}

/// What the influence lens reports of the theorem `target` on `layer`: its
/// direct theorem dependents exactly, theorems that reach it within the
/// depth limit, the regions of those, witness paths, and the summary.
pub open spec fn influence_reports(
    s: ExtractionSnapshot,
    g: LensLayerGraph,
    target: int,
    layer: DependencyLayer,
    config: LensAnalysisConfig,
    regions: Seq<(String, String)>,
    include_all: bool,
    e: InfluenceEvidence,
) -> bool {
    let d = s.declarations@[target];
    let direct = texts_view(e.direct_dependents@);
    let reachable = texts_view(e.reachable_dependents@);
    let covered = texts_view(e.graph_regions@);
    &&& e.name@ == d.name@
    &&& e.statement@ == d.type_@
    &&& e.layer == layer
    &&& strictly_sorted(direct)
    &&& forall|name: Seq<char>| #[trigger] direct.contains(name) <==> exists|x: usize|
        #[trigger] g.reverse@[target]@.contains(x) && reported_theorem(s, g, x as int) && s.declarations@[x as int].name@ == name
    &&& e.direct_dependent_count == direct.len()
    &&& names_sorted(reachable)
    &&& forall|name: Seq<char>| #[trigger] reachable.contains(name) ==> exists|x: usize|
        #[trigger] reported_theorem(s, g, x as int) && x != target && s.declarations@[x as int].name@ == name
            && reaches_within(g.adjacency@, x as int, target, config.max_depth as nat)
    &&& forall|x: usize| #[trigger] reported_theorem(s, g, x as int) && x != target
        && reaches_within(g.adjacency@, x as int, target, config.max_depth as nat)
        ==> reachable.contains(s.declarations@[x as int].name@)
    &&& e.reachable_dependent_count == reachable.len()
    &&& (!include_all ==> reachable.len() > 0)
    &&& strictly_sorted(covered)
    &&& forall|r: Seq<char>| #[trigger] covered.contains(r) <==> exists|name: Seq<char>|
        #[trigger] reachable.contains(name) && region_of(regions, name) == Some(r)
    &&& e.graph_region_coverage == covered.len()
    &&& e.representative_paths@.len() <= config.representative_path_limit
    &&& forall|i: int| 0 <= i < e.representative_paths@.len()
        ==> witness_walk(s, g, target, layer, #[trigger] e.representative_paths@[i])
    &&& e.reason@ == influence_reason(reachable.len(), direct.len(), covered.len())
}

impl AnalysisCorpus {
    /// The influence evidence of the theorem `target` on `layer`, given the
    /// layer graph and the region of each name: none where the declaration
    /// has no expression for that layer, or, unless `include_all`, where no
    /// theorem depends on it.
    #[verifier::spinoff_prover]
    #[verifier::rlimit(80)]
    pub fn influence_evidence(
        &self,
        g: &LensLayerGraph,
        target: usize,
        layer: DependencyLayer,
        config: &LensAnalysisConfig,
        regions: &Vec<(String, String)>,
        include_all: bool,
    ) -> (r: Option<InfluenceEvidence>)
        requires
            layer_graph_of(self.snapshot_view(), self.edges_view(), lens_filter(*config, layer), lens_path_filter(*config, layer), *g),
            target < self.snapshot_view().declarations@.len(),
        ensures
            layer_graph(self.snapshot_view().declarations@[target as int], layer) is None ==> r is None,
            r is Some <==> layer_graph(self.snapshot_view().declarations@[target as int], layer) is Some && (include_all
                || exists|x: usize| #[trigger] reported_theorem(self.snapshot_view(), *g, x as int) && x != target
                    && reaches_within(g.adjacency@, x as int, target as int, config.max_depth as nat)),
            r matches Some(e) ==> influence_reports(self.snapshot_view(), *g, target as int, layer, *config, regions@, include_all, e),
    {
        let ghost s = self.snapshot_view();
        if self.graph(target, layer).is_none() {
            return None;
        }
        let ds = self.declarations();
        let n = ds.len();
        let direct = self.direct_theorem_dependents(g, target);
        proof {
            assert forall|x: int, k: int| 0 <= x < g.reverse@.len() && 0 <= k < g.reverse@[x]@.len() implies #[trigger] g.reverse@[x]@[k] < g.reverse@.len() by {
                assert(by_name(s.declarations@, g.reverse@[x]@));
            }
        }
        let search = dependents_search(g, target, config.max_depth);
        let seen = search.0;
        let toward = search.1;
        let depth = search.2;
        let truncated = search.3;
        let ghost max = config.max_depth as nat;
        let mut names: Vec<String> = Vec::new();
        let mut ids: Vec<usize> = Vec::new();
        let mut x: usize = 0;
        while x < n
            invariant
                s == self.snapshot_view(),
                ds@ == s.declarations@,
                n == ds@.len(),
                g.reverse@.len() == n,
                g.adjacency@.len() == n,
                g.active@.len() == n,
                search_tree(*g, target as int, max, seen@, toward@, depth@),
                x <= n,
                names@.len() == ids@.len(),
                forall|i: int| 0 <= i < ids@.len() ==> {
                    &&& #[trigger] ids@[i] < n
                    &&& seen@[ids@[i] as int]
                    &&& ids@[i] != target
                    &&& reported_theorem(s, *g, ids@[i] as int)
                    &&& reaches_within(g.adjacency@, ids@[i] as int, target as int, max)
                    &&& names@[i]@ == ds@[ids@[i] as int].name@
                },
                forall|y: int| 0 <= y < x && seen@[y] && y != target && #[trigger] reported_theorem(s, *g, y)
                    ==> exists|i: int| 0 <= i < ids@.len() && ids@[i] == y,
            decreases n - x,
        {
            let ghost ids0 = ids@;
            if seen[x] && x != target && g.active[x] && text_eq(ds[x].kind.as_str(), "theorem") {
                proof {
                    lemma_tree_reaches(*g, target as int, max, seen@, toward@, depth@, x as int);
                    lemma_reaches_monotone(g.adjacency@, x as int, target as int, depth@[x as int] as nat, max);
                }
                names.push(copy_text(&ds[x].name));
                ids.push(x);
            }
            proof {
                assert forall|y: int| 0 <= y < x + 1 && seen@[y] && y != target && #[trigger] reported_theorem(s, *g, y)
                    implies exists|i: int| 0 <= i < ids@.len() && ids@[i] == y by {
                    if y < x {
                        let i = choose|i: int| 0 <= i < ids0.len() && ids0[i] == y;
                        assert(ids@[i] == ids0[i]);
                    } else {
                        assert(ids@[ids@.len() - 1] == y);
                    }
                }
            }
            x = x + 1;
        }
        proof {
            assert forall|y: usize| #[trigger] reported_theorem(s, *g, y as int) && y != target
                && reaches_within(g.adjacency@, y as int, target as int, max)
                implies exists|i: int| 0 <= i < ids@.len() && ids@[i] == y by {
                assert(reaches_within(g.adjacency@, y as int, target as int, config.max_depth as nat));
                assert(seen@[y as int]);
                assert(reported_theorem(s, *g, y as int));
            }
        }
        if !include_all && ids.len() == 0 {
            proof {
                if exists|y: usize| #[trigger] reported_theorem(s, *g, y as int) && y != target
                    && reaches_within(g.adjacency@, y as int, target as int, max) {
                    let y = choose|y: usize| #[trigger] reported_theorem(s, *g, y as int) && y != target
                        && reaches_within(g.adjacency@, y as int, target as int, max);
                    let i = choose|i: int| 0 <= i < ids@.len() && ids@[i] == y;
                }
            }
            return None;
        }
        let ghost unsorted = texts_view(names@);
        let reachable = sort_names(names);
        proof {
            assert forall|y: usize| #[trigger] reported_theorem(s, *g, y as int) && y != target
                && reaches_within(g.adjacency@, y as int, target as int, max)
                implies texts_view(reachable@).contains(s.declarations@[y as int].name@) by {
                let i = choose|i: int| 0 <= i < ids@.len() && ids@[i] == y;
                assert(unsorted[i] == s.declarations@[y as int].name@);
                assert(unsorted.contains(s.declarations@[y as int].name@));
            }
            assert forall|name: Seq<char>| #[trigger] texts_view(reachable@).contains(name) implies exists|x: usize|
                #[trigger] reported_theorem(s, *g, x as int) && x != target && s.declarations@[x as int].name@ == name
                    && reaches_within(g.adjacency@, x as int, target as int, max) by {
                assert(unsorted.contains(name));
                let i = choose|i: int| 0 <= i < unsorted.len() && unsorted[i] == name;
                assert(reported_theorem(s, *g, ids@[i] as int));
            }
        }
        let mut found: Vec<String> = Vec::new();
        let mut k: usize = 0;
        while k < reachable.len()
            invariant
                k <= reachable@.len(),
                forall|r: Seq<char>| #[trigger] texts_view(found@).contains(r) <==> exists|j: int|
                    0 <= j < k && region_of(regions@, #[trigger] texts_view(reachable@)[j]) == Some(r),
            decreases reachable.len() - k,
        {
            let ghost f0 = texts_view(found@);
            match find_region(regions, reachable[k].as_str()) {
                Some(region) => {
                    let ghost fr = found@;
                    found.push(region);
                    proof {
                        assert(found@ =~= fr.push(found@[found@.len() - 1]));
                        assert(texts_view(found@) =~= f0.push(region_of(regions@, texts_view(reachable@)[k as int])->0));
                    }
                },
                None => {},
            }
            proof {
                assert forall|r: Seq<char>| #[trigger] texts_view(found@).contains(r) <==> exists|j: int|
                    0 <= j < k + 1 && region_of(regions@, #[trigger] texts_view(reachable@)[j]) == Some(r) by {
                    let fv = texts_view(found@);
                    if fv.contains(r) {
                        let i = choose|i: int| 0 <= i < fv.len() && fv[i] == r;
                        if i < f0.len() {
                            assert(f0[i] == r);
                            assert(f0.contains(r));
                        } else {
                            assert(region_of(regions@, texts_view(reachable@)[k as int]) == Some(r));
                        }
                    }
                    if exists|j: int| 0 <= j < k + 1 && region_of(regions@, #[trigger] texts_view(reachable@)[j]) == Some(r) {
                        let j = choose|j: int| 0 <= j < k + 1 && region_of(regions@, #[trigger] texts_view(reachable@)[j]) == Some(r);
                        if j < k {
                            assert(f0.contains(r));
                            let i = choose|i: int| 0 <= i < f0.len() && f0[i] == r;
                            assert(fv[i] == r);
                        } else {
                            assert(fv[fv.len() - 1] == r);
                        }
                    }
                }
            }
            k = k + 1;
        }
        let ghost found_view = texts_view(found@);
        let covered = dedup_sorted(sort_names(found));
        proof {
            let rv = texts_view(reachable@);
            assert forall|r: Seq<char>| #[trigger] texts_view(covered@).contains(r) <==> exists|name: Seq<char>|
                #[trigger] rv.contains(name) && region_of(regions@, name) == Some(r) by {
                if texts_view(covered@).contains(r) {
                    assert(found_view.contains(r));
                    let j = choose|j: int| 0 <= j < rv.len() && region_of(regions@, #[trigger] rv[j]) == Some(r);
                    assert(rv.contains(rv[j]));
                }
                if exists|name: Seq<char>| #[trigger] rv.contains(name) && region_of(regions@, name) == Some(r) {
                    let name = choose|name: Seq<char>| #[trigger] rv.contains(name) && region_of(regions@, name) == Some(r);
                    let j = choose|j: int| 0 <= j < rv.len() && rv[j] == name;
                    assert(region_of(regions@, rv[j]) == Some(r));
                    assert(found_view.contains(r));
                }
            }
        }
        let paths = self.representative_paths(g, Ghost(seen@), &toward, &depth, Ghost(max), &ids, target, layer, config.representative_path_limit);
        let mut reason = text_from("reachable from ");
        append_text(&mut reason, decimal_text(reachable.len()).as_str());
        append_text(&mut reason, " theorem(s), including ");
        append_text(&mut reason, decimal_text(direct.len()).as_str());
        append_text(&mut reason, " direct dependent(s), across ");
        append_text(&mut reason, decimal_text(covered.len()).as_str());
        append_text(&mut reason, " graph region(s)");
        let reachable_count = reachable.len();
        let direct_count = direct.len();
        let coverage = covered.len();
        proof {
            if !include_all {
                assert(ids@.len() > 0);
                assert(reported_theorem(s, *g, ids@[0] as int));
                assert(reaches_within(g.adjacency@, ids@[0] as int, target as int, config.max_depth as nat));
            }
        }
        Some(InfluenceEvidence {
            name: copy_text(&ds[target].name),
            statement: copy_text(&ds[target].type_),
            reason,
            layer,
            direct_dependent_count: direct_count,
            direct_dependents: direct,
            reachable_dependent_count: reachable_count,
            reachable_dependents: reachable,
            graph_region_coverage: coverage,
            graph_regions: covered,
            representative_paths: paths,
            traversal_truncated: truncated,
        })
    }

    /// Witness paths from the deepest reachable theorems (then by name), at
    /// most `limit` of them.
    fn representative_paths(
        &self,
        g: &LensLayerGraph,
        seen: Ghost<Seq<bool>>,
        toward: &Vec<usize>,
        depth: &Vec<usize>,
        max: Ghost<nat>,
        ids: &Vec<usize>,
        target: usize,
        layer: DependencyLayer,
        limit: usize,
    ) -> (r: Vec<DependencyWitnessPath>)
        requires
            search_tree(*g, target as int, max@, seen@, toward@, depth@),
            g.reverse@.len() == self.snapshot_view().declarations@.len(),
            forall|i: int| 0 <= i < ids@.len() ==> {
                &&& #[trigger] ids@[i] < seen@.len()
                &&& seen@[ids@[i] as int]
                &&& ids@[i] != target
                &&& reported_theorem(self.snapshot_view(), *g, ids@[i] as int)
            },
        ensures
            r@.len() <= limit,
            forall|i: int| 0 <= i < r@.len() ==> witness_walk(self.snapshot_view(), *g, target as int, layer, #[trigger] r@[i]),
            r@.len() == if ids@.len() < limit { ids@.len() } else { limit as nat },
            exists|starts: Seq<usize>| #[trigger] starts_chosen(self.snapshot_view(), depth@, ids@, starts, r@),
    {
        let ds = self.declarations();
        let mut keys: Vec<StartKey> = Vec::new();
        let mut k: usize = 0;
        while k < ids.len()
            invariant
                ds@ == self.snapshot_view().declarations@,
                depth@.len() == seen@.len(),
                forall|i: int| 0 <= i < ids@.len() ==> #[trigger] ids@[i] < seen@.len(),
                search_tree(*g, target as int, max@, seen@, toward@, depth@),
                g.reverse@.len() == ds@.len(),
                k <= ids@.len(),
                keys@.len() == k,
                forall|i: int| 0 <= i < k ==> (#[trigger] keys@[i]).id == ids@[i] && keys@[i].depth == depth@[ids@[i] as int]
                    && keys@[i].name@ == ds@[ids@[i] as int].name@,
            decreases ids.len() - k,
        {
            let id = ids[k];
            keys.push(StartKey { depth: depth[id], name: copy_text(&ds[id].name), id });
            k = k + 1;
        }
        let ghost unsorted = keys@;
        let sorted = sort_ranked(keys);
        proof {
            lemma_start_order(self.snapshot_view(), depth@, ids@, unsorted, sorted@, 0);
        }
        let mut r: Vec<DependencyWitnessPath> = Vec::new();
        let mut j: usize = 0;
        while j < sorted.len() && j < limit
            invariant
                sorted@.to_multiset() == unsorted.to_multiset(),
                unsorted.len() == ids@.len(),
                forall|i: int| 0 <= i < unsorted.len() ==> (#[trigger] unsorted[i]).id == ids@[i],
                forall|i: int| 0 <= i < ids@.len() ==> {
                    &&& #[trigger] ids@[i] < seen@.len()
                    &&& seen@[ids@[i] as int]
                    &&& ids@[i] != target
                    &&& reported_theorem(self.snapshot_view(), *g, ids@[i] as int)
                },
                search_tree(*g, target as int, max@, seen@, toward@, depth@),
                g.reverse@.len() == self.snapshot_view().declarations@.len(),
                j <= limit,
                r@.len() == j,
                forall|i: int| 0 <= i < r@.len() ==> witness_walk(self.snapshot_view(), *g, target as int, layer, #[trigger] r@[i]),
                sorted@.len() == ids@.len(),
                j <= sorted@.len(),
                ranked_sorted(sorted@),
                forall|i: int| 0 <= i < unsorted.len() ==> (#[trigger] unsorted[i]).depth == depth@[ids@[i] as int]
                    && unsorted[i].name@ == self.snapshot_view().declarations@[ids@[i] as int].name@,
                forall|i: int| 0 <= i < j ==> texts_view((#[trigger] r@[i]).nodes@)[0] == self.snapshot_view().declarations@[sorted@[i].id as int].name@,
            decreases sorted.len() - j,
        {
            let start = sorted[j].id;
            proof {
                broadcast use vstd::seq_lib::group_to_multiset_ensures;
                let item = sorted@[j as int];
                assert(sorted@.contains(item));
                vstd::seq_lib::to_multiset_contains(sorted@, item);
                vstd::seq_lib::to_multiset_contains(unsorted, item);
                assert(unsorted.contains(item));
                let i = choose|i: int| 0 <= i < unsorted.len() && unsorted[i] == sorted@[j as int];
                assert(unsorted[i].id == ids@[i]);
            }
            let p = self.walk_to_target(g, seen, toward, depth, max, start, target, layer);
            let ghost r0 = r@;
            r.push(p);
            proof {
                assert forall|i: int| 0 <= i < j + 1 implies texts_view((#[trigger] r@[i]).nodes@)[0]
                    == self.snapshot_view().declarations@[sorted@[i].id as int].name@ by {
                    if i < j {
                        assert(r@[i] == r0[i]);
                    }
                }
            }
            j = j + 1;
        }
        proof {
            let n = r@.len() as int;
            lemma_start_order(self.snapshot_view(), depth@, ids@, unsorted, sorted@, n);
            let starts = Seq::new(n as nat, |k: int| sorted@[k].id);
            assert forall|i: int| 0 <= i < starts.len() implies ids@.contains(#[trigger] starts[i])
                && texts_view(r@[i].nodes@)[0] == self.snapshot_view().declarations@[starts[i] as int].name@ by {
                assert(ids@.contains(sorted@[i].id));
                assert(texts_view(r@[i].nodes@)[0] == self.snapshot_view().declarations@[sorted@[i].id as int].name@);
            }
            assert forall|a: int, b: int| 0 <= a < b < starts.len() implies
                !start_before(self.snapshot_view(), depth@, #[trigger] starts[b], #[trigger] starts[a]) by {
                assert(!start_before(self.snapshot_view(), depth@, sorted@[b].id, sorted@[a].id));
            }
            assert forall|x: usize, i: int| #[trigger] ids@.contains(x) && !starts.contains(x) && 0 <= i < starts.len()
                implies !start_before(self.snapshot_view(), depth@, x, #[trigger] starts[i]) by {
                assert(!start_before(self.snapshot_view(), depth@, x, sorted@[i].id));
            }
            assert(starts_chosen(self.snapshot_view(), depth@, ids@, starts, r@));
        }
        r
    }
}

} // verus!
