//! In and out degrees of the filtered dependency graph.
use vstd::prelude::*;
use crate::analysis::corpus::{edge_describes, edge_selected, edges_describe, matching_declaration_ids, AnalysisCorpus, DependencyEdge};
use crate::analysis::dependency::{adjacency_row, DependencyConfig};
use crate::analysis::filters::{filter_matches_declaration, AnalysisFilter};
use crate::model::ExtractionSnapshot;
use crate::validation::symbol_known;

verus! {

/// Edge `k` enters declaration `x` from an admitted declaration and the
/// filter keeps it.
pub open spec fn enters(s: ExtractionSnapshot, edges: Seq<DependencyEdge>, f: AnalysisFilter, x: int, k: int) -> bool {
    &&& edges[k].target@ == s.declarations@[x].name@
    &&& edge_selected(s, f, edges[k])
    &&& filter_matches_declaration(f, s.declarations@[edges[k].source as int])
}

/// How many of the first `n` edges enter `x`, and their occurrences.
pub open spec fn entering(s: ExtractionSnapshot, edges: Seq<DependencyEdge>, f: AnalysisFilter, x: int, n: int) -> (nat, nat)
    decreases n,
{
    if n <= 0 {
        (0, 0)
    } else {
        let (c, w) = entering(s, edges, f, x, n - 1);
        if enters(s, edges, f, x, n - 1) { (c + 1, w + edges[n - 1].occurrences as nat) } else { (c, w) }
    }
}

/// How many of the first `n` entries of an adjacency row lead to admitted
/// declarations, and their weights.
pub open spec fn leaving(s: ExtractionSnapshot, f: AnalysisFilter, row: Seq<(usize, usize)>, n: int) -> (nat, nat)
    decreases n,
{
    if n <= 0 {
        (0, 0)
    } else {
        let (c, w) = leaving(s, f, row, n - 1);
        if filter_matches_declaration(f, s.declarations@[row[n - 1].0 as int]) { (c + 1, w + row[n - 1].1 as nat) } else { (c, w) }
    }
}

/// The degrees of one admitted declaration.
#[derive(Clone, Copy, Debug, PartialEq, Eq, Structural)]
pub struct DegreeCounts {
    pub id: usize,
    pub in_degree: usize,
    pub out_degree: usize,
    pub weighted_in_degree: usize,
    pub weighted_out_degree: usize,
}

/// A sum held in a machine word, stopping at its largest value.
pub open spec fn capped(n: nat) -> usize {
    if n > usize::MAX { usize::MAX } else { n as usize }
}

/// `c` gives the degrees of declaration `x`: the filtered edges that enter it
/// from admitted declarations, with their occurrences, and the entries of its
/// adjacency row that lead to admitted declarations, with their weights.
pub open spec fn degrees_describe(s: ExtractionSnapshot, edges: Seq<DependencyEdge>, f: AnalysisFilter, x: int, c: DegreeCounts) -> bool {
    &&& c.id == x
    &&& c.in_degree == entering(s, edges, f, x, edges.len() as int).0
    &&& c.weighted_in_degree == capped(entering(s, edges, f, x, edges.len() as int).1)
    &&& exists|row: Seq<(usize, usize)>| #[trigger] adjacency_row(s, edges, f, x, row)
        && c.out_degree == leaving(s, f, row, row.len() as int).0
        && c.weighted_out_degree == capped(leaving(s, f, row, row.len() as int).1)
}

proof fn lemma_entering_bounded(s: ExtractionSnapshot, edges: Seq<DependencyEdge>, f: AnalysisFilter, x: int, n: int)
    requires
        0 <= n,
    ensures
        entering(s, edges, f, x, n).0 <= n,
    decreases n,
{
    if n > 0 {
        lemma_entering_bounded(s, edges, f, x, n - 1);
    }
}

proof fn lemma_leaving_bounded(s: ExtractionSnapshot, f: AnalysisFilter, row: Seq<(usize, usize)>, n: int)
    requires
        0 <= n,
    ensures
        leaving(s, f, row, n).0 <= n,
    decreases n,
{
    if n > 0 {
        lemma_leaving_bounded(s, f, row, n - 1);
    }
}

proof fn lemma_entering_step(s: ExtractionSnapshot, edges: Seq<DependencyEdge>, f: AnalysisFilter, n: int, k: int,
    c0: Seq<usize>, w0: Seq<usize>, c1: Seq<usize>, w1: Seq<usize>, target: Option<usize>, y: int)
    requires
        0 <= k < edges.len(),
        edges.len() <= usize::MAX,
        n <= usize::MAX,
        c0.len() == n && w0.len() == n && c1.len() == n && w1.len() == n,
        forall|y: int| 0 <= y < n ==> #[trigger] c0[y] == entering(s, edges, f, y, k).0 && w0[y] == capped(entering(s, edges, f, y, k).1),
        forall|y: int| 0 <= y < n && #[trigger] enters(s, edges, f, y, k) ==> target == Some(y as usize),
        match target {
            Some(t) => 0 <= t < n && enters(s, edges, f, t as int, k) && c1 == c0.update(t as int, (c0[t as int] + 1) as usize)
                && w1 == w0.update(t as int, capped(w0[t as int] as nat + edges[k].occurrences as nat)),
            None => c1 == c0 && w1 == w0,
        },
        0 <= y < n,
    ensures
        c1[y] == entering(s, edges, f, y, k + 1).0 && w1[y] == capped(entering(s, edges, f, y, k + 1).1),
{
    {
        assert(c0[y] == entering(s, edges, f, y, k).0);
        lemma_entering_bounded(s, edges, f, y, k);
        let e0 = entering(s, edges, f, y, k);
        assert(entering(s, edges, f, y, k + 1) == (if enters(s, edges, f, y, k) {
            (e0.0 + 1, e0.1 + edges[k].occurrences as nat)
        } else {
            e0
        }));
        match target {
            Some(t) => {
                if t == y {
                    assert(c1[y] == e0.0 + 1);
                    assert(w1[y] == capped(w0[y] as nat + edges[k].occurrences as nat));
                    assert(w0[y] == capped(e0.1));
                } else {
                    assert(!enters(s, edges, f, y, k));
                    assert(c1[y] == c0[y]);
                    assert(w1[y] == w0[y]);
                }
            },
            None => {
                assert(!enters(s, edges, f, y, k));
            },
        }
    }
}

fn add_capped(a: usize, b: usize) -> (r: usize)
    ensures
        r == capped(a as nat + b as nat),
{
    a.saturating_add(b)
}

impl AnalysisCorpus {
    /// The degrees of every admitted declaration, in order.
    pub fn degree_counts(&self, config: &DependencyConfig) -> (r: Vec<DegreeCounts>)
        ensures
            ({
                let s = self.snapshot_view();
                let ids = matching_declaration_ids(s, config.filter, s.declarations@.len() as int);
                &&& r@.len() == ids.len()
                &&& forall|i: int| 0 <= i < r@.len() ==> degrees_describe(s, self.edges_view(), config.filter, ids[i] as int, #[trigger] r@[i])
            }),
    {
        let ghost s = self.snapshot_view();
        let ghost f = config.filter;
        let edges = self.edges();
        let n = self.declarations().len();
        let mut counts: Vec<usize> = Vec::new();
        let mut weights: Vec<usize> = Vec::new();
        let mut x: usize = 0;
        while x < n
            invariant
                n == s.declarations@.len(),
                x <= n,
                counts@.len() == x,
                weights@.len() == x,
                forall|y: int| 0 <= y < x ==> #[trigger] counts@[y] == 0 && weights@[y] == 0,
            decreases n - x,
        {
            counts.push(0);
            weights.push(0);
            x = x + 1;
        }
        proof {
            use_type_invariant(self);
            assert forall|y: int| 0 <= y < n implies #[trigger] counts@[y] == entering(s, edges@, f, y, 0).0
                && weights@[y] == capped(entering(s, edges@, f, y, 0).1) by {
                assert(counts@[y] == 0);
            }
        }
        let mut k: usize = 0;
        while k < edges.len()
            invariant
                s == self.snapshot_view(),
                f == config.filter,
                edges@ == self.edges_view(),
                edges_describe(s, edges@),
                crate::validation::snapshot_valid(s),
                n == s.declarations@.len(),
                k <= edges@.len(),
                counts@.len() == n,
                weights@.len() == n,
                forall|y: int| 0 <= y < n ==> #[trigger] counts@[y] == entering(s, edges@, f, y, k as int).0
                    && weights@[y] == capped(entering(s, edges@, f, y, k as int).1),
            decreases edges@.len() - k,
        {
            let edge = &edges[k];
            proof {
                assert(edge_describes(s, edges@[k as int]));
                let y = choose|y: int| 0 <= y < s.symbols@.len()
                    && crate::analysis::corpus::edge_matches_symbol_metadata(edges@[k as int], #[trigger] s.symbols@[y]);
                assert(symbol_known(s, edge.target@));
            }
            let selected = self.edge_matches(edge, &config.filter) && config.filter.matches_declaration(&self.declarations()[edge.source]);
            let target = if selected { self.declaration_id(edge.target.as_str()) } else { None };
            proof {
                assert forall|y: int| 0 <= y < n && #[trigger] enters(s, edges@, f, y, k as int) implies target == Some(y as usize) by {
                }
            }
            let ghost c0 = counts@;
            let ghost w0 = weights@;
            match target {
                Some(t) => {
                    proof {
                        lemma_entering_bounded(s, edges@, f, t as int, k as int);
                        assert(enters(s, edges@, f, t as int, k as int));
                    }
                    let c = counts[t] + 1;
                    let w = add_capped(weights[t], edge.occurrences);
                    counts.set(t, c);
                    weights.set(t, w);
                },
                None => {},
            }
            proof {
                assert forall|y: int| 0 <= y < n implies #[trigger] counts@[y] == entering(s, edges@, f, y, k + 1).0
                    && weights@[y] == capped(entering(s, edges@, f, y, k + 1).1) by {
                    lemma_entering_step(s, edges@, f, n as int, k as int, c0, w0, counts@, weights@, target, y);
                }
            }
            k = k + 1;
        }
        assert(k == edges@.len());
        let adjacency = self.graph_adjacency(config);
        let mask = self.declaration_mask(&config.filter);
        let ids = self.filtered_declaration_ids(&config.filter);
        proof {
            crate::analysis::dependency::lemma_matching_ids(s, f, n as int);
        }
        let mut r: Vec<DegreeCounts> = Vec::new();
        let mut i: usize = 0;
        while i < ids.len()
            invariant
                s == self.snapshot_view(),
                f == config.filter,
                edges@ == self.edges_view(),
                n == s.declarations@.len(),
                adjacency@.len() == n,
                forall|z: int| 0 <= z < n ==> adjacency_row(s, edges@, f, z, #[trigger] adjacency@[z]@),
                mask@.len() == n,
                forall|z: int| 0 <= z < n ==> #[trigger] mask@[z] == filter_matches_declaration(f, s.declarations@[z]),
                ids@ == matching_declaration_ids(s, f, n as int),
                forall|j: int| 0 <= j < ids@.len() ==> #[trigger] ids@[j] < n,
                counts@.len() == n,
                weights@.len() == n,
                forall|y: int| 0 <= y < n ==> #[trigger] counts@[y] == entering(s, edges@, f, y, edges@.len() as int).0
                    && weights@[y] == capped(entering(s, edges@, f, y, edges@.len() as int).1),
                i <= ids@.len(),
                r@.len() == i,
                forall|j: int| 0 <= j < i ==> degrees_describe(s, edges@, f, ids@[j] as int, #[trigger] r@[j]),
            decreases ids@.len() - i,
        {
            let id = ids[i];
            let row = &adjacency[id];
            proof {
                assert(adjacency_row(s, edges@, f, id as int, adjacency@[id as int]@));
                assert forall|q: int| 0 <= q < row@.len() implies (#[trigger] row@[q]).0 < n by {
                    assert(crate::analysis::dependency::entry_witnessed(s, edges@, f, id as int, row@[q]));
                }
            }
            let mut out: usize = 0;
            let mut weight: usize = 0;
            let mut j: usize = 0;
            while j < row.len()
                invariant
                    f == config.filter,
                    row@ == adjacency@[id as int]@,
                    adjacency_row(s, edges@, f, id as int, row@),
                    n == s.declarations@.len(),
                    mask@.len() == n,
                    forall|z: int| 0 <= z < n ==> #[trigger] mask@[z] == filter_matches_declaration(f, s.declarations@[z]),
                    forall|q: int| 0 <= q < row@.len() ==> (#[trigger] row@[q]).0 < n,
                    j <= row@.len(),
                    out == leaving(s, f, row@, j as int).0,
                    weight == capped(leaving(s, f, row@, j as int).1),
                decreases row@.len() - j,
            {
                let (t, w) = row[j];
                proof {
                    lemma_leaving_bounded(s, f, row@, j as int);
                }
                if mask[t] {
                    out = out + 1;
                    weight = add_capped(weight, w);
                }
                j = j + 1;
            }
            r.push(DegreeCounts {
                id,
                in_degree: counts[id],
                out_degree: out,
                weighted_in_degree: weights[id],
                weighted_out_degree: weight,
            });
            i = i + 1;
        }
        r
    }
}

} // verus!
