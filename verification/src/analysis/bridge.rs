//! The bridge lens: theorems through which direct dependency witnesses pass
//! from one graph region into another.
use vstd::prelude::*;
use crate::analysis::corpus::{declaration_known, layer_graph, AnalysisCorpus};
use crate::error::SieveError;
use crate::analysis::filters::{layer_rank, DependencyLayer};
use crate::analysis::influence::{find_region, layer_graph_of, lens_filter, lens_path_filter, region_of, reported_theorem, LensLayerGraph};
use crate::analysis::lenses::{DependencyWitnessPath, DirectedRegionPair, InfluenceEvidence, LensAnalysisConfig};
use crate::model::ExtractionSnapshot;
use crate::sorting::{ranked_sorted, sort_ranked, Ranked};
use crate::strings::{append_text, compare_text, copy_text, decimal, decimal_text, text_eq, text_from, text_lt, texts_view, Order};
use crate::validation::texts_contain;

verus! {

/// What the bridge lens reports of a theorem.
pub struct BridgeEvidence {
    pub name: String,
    pub statement: String,
    pub reason: String,
    pub layer: DependencyLayer,
    pub articulation_point: bool,
    pub distinct_directed_region_pair_count: usize,
    pub directed_region_pairs: Vec<DirectedRegionPair>,
    pub incoming_theorems: Vec<String>,
    pub outgoing_theorems: Vec<String>,
    pub witness_paths: Vec<DependencyWitnessPath>,
}

/// The reported theorems of a row, in row order.
pub open spec fn reported_in(s: ExtractionSnapshot, g: LensLayerGraph, row: Seq<usize>) -> Seq<usize>
    decreases row.len(),
{
    if row.len() == 0 {
        Seq::empty()
    } else {
        let earlier = reported_in(s, g, row.drop_last());
        if reported_theorem(s, g, row.last() as int) {
            earlier.push(row.last())
        } else {
            earlier
        }
    }
}

/// The regions of `a` and `b`, where both have one and they differ.
pub open spec fn crossing(s: ExtractionSnapshot, regions: Seq<(String, String)>, a: usize, b: usize) -> Option<(Seq<char>, Seq<char>)> {
    match (region_of(regions, s.declarations@[a as int].name@), region_of(regions, s.declarations@[b as int].name@)) {
        (Some(x), Some(y)) => if x != y { Some((x, y)) } else { None },
        _ => None,
    }
}

/// The crossings from `a` through the theorem to each of `outgoing`, in
/// order: the two regions, then `a` and the dependency.
pub open spec fn row_crossings(s: ExtractionSnapshot, regions: Seq<(String, String)>, a: usize, outgoing: Seq<usize>)
    -> Seq<(Seq<char>, Seq<char>, usize, usize)>
    decreases outgoing.len(),
{
    if outgoing.len() == 0 {
        Seq::empty()
    } else {
        let earlier = row_crossings(s, regions, a, outgoing.drop_last());
        match crossing(s, regions, a, outgoing.last()) {
            Some(c) => earlier.push((c.0, c.1, a, outgoing.last())),
            None => earlier,
        }
    }
}

/// The crossings of every dependent with every dependency, dependents in
/// order.
pub open spec fn crossings(s: ExtractionSnapshot, regions: Seq<(String, String)>, incoming: Seq<usize>, outgoing: Seq<usize>)
    -> Seq<(Seq<char>, Seq<char>, usize, usize)>
    decreases incoming.len(),
{
    if incoming.len() == 0 {
        Seq::empty()
    } else {
        crossings(s, regions, incoming.drop_last(), outgoing) + row_crossings(s, regions, incoming.last(), outgoing)
    }
}

/// Some crossing joins the regions `x` and `y`.
pub open spec fn has_pair(p: Seq<(Seq<char>, Seq<char>, usize, usize)>, x: Seq<char>, y: Seq<char>) -> bool {
    exists|k: int| 0 <= k < p.len() && (#[trigger] p[k]).0 == x && p[k].1 == y
}

/// The first crossing of each region pair, in order.
pub open spec fn first_crossings(h: Seq<(Seq<char>, Seq<char>, usize, usize)>) -> Seq<(Seq<char>, Seq<char>, usize, usize)>
    decreases h.len(),
{
    if h.len() == 0 {
        Seq::empty()
    } else {
        let earlier = first_crossings(h.drop_last());
        if has_pair(earlier, h.last().0, h.last().1) {
            earlier
        } else {
            earlier.push(h.last())
        }
    }
}

/// The witness of a crossing: dependent, theorem, dependency.
pub open spec fn crossing_witness(s: ExtractionSnapshot, target: int, layer: DependencyLayer, c: (Seq<char>, Seq<char>, usize, usize),
    p: DependencyWitnessPath) -> bool {
    &&& texts_view(p.nodes@) == seq![s.declarations@[c.2 as int].name@, s.declarations@[target].name@, s.declarations@[c.3 as int].name@]
    &&& p.layers@ == seq![layer, layer]
}

/// Region pairs in order: by incoming region, then outgoing region.
pub open spec fn pair_lt(a: DirectedRegionPair, b: DirectedRegionPair) -> bool {
    text_lt(a.incoming_region@, b.incoming_region@) || (a.incoming_region@ == b.incoming_region@ && text_lt(a.outgoing_region@, b.outgoing_region@))
}

/// Some pair joins the regions `x` and `y`.
pub open spec fn pair_present(pairs: Seq<DirectedRegionPair>, x: Seq<char>, y: Seq<char>) -> bool {
    exists|m: int| 0 <= m < pairs.len() && (#[trigger] pairs[m]).incoming_region@ == x && pairs[m].outgoing_region@ == y
}

/// The sentence that sums up bridge evidence.
pub open spec fn bridge_reason(count: nat) -> Seq<char> {
    if count == 0 {
        "no direct dependency witness connects distinct graph regions"@
    } else {
        "lies on direct dependency witnesses for "@ + decimal(count) + " distinct directed graph-region pair(s)"@
    }
}

/// What the bridge lens reports of the theorem `target` on `layer`: the
/// reported theorems that use it and that it uses, the distinct directed
/// pairs of differing regions that a dependent, the theorem and a
/// dependency join, sorted, the first witness of each pair up to the limit,
/// and whether the theorem is an articulation point.
pub open spec fn bridge_reports(s: ExtractionSnapshot, g: LensLayerGraph, target: int, layer: DependencyLayer, config: LensAnalysisConfig,
    regions: Seq<(String, String)>, articulation: Seq<Seq<char>>, b: BridgeEvidence) -> bool {
    let incoming = reported_in(s, g, g.reverse@[target]@);
    let outgoing = reported_in(s, g, g.adjacency@[target]@);
    let f = first_crossings(crossings(s, regions, incoming, outgoing));
    let pairs = b.directed_region_pairs@;
    &&& b.name@ == s.declarations@[target].name@
    &&& b.statement@ == s.declarations@[target].type_@
    &&& b.layer == layer
    &&& b.articulation_point == articulation.contains(s.declarations@[target].name@)
    &&& b.distinct_directed_region_pair_count == f.len()
    &&& pairs.len() == f.len()
    &&& forall|k: int| 0 <= k < pairs.len() ==> has_pair(f, (#[trigger] pairs[k]).incoming_region@, pairs[k].outgoing_region@)
    &&& forall|k: int| 0 <= k < f.len() ==> #[trigger] pair_present(pairs, f[k].0, f[k].1)
    &&& forall|i: int, j: int| 0 <= i < j < pairs.len() ==> !pair_lt(#[trigger] pairs[j], #[trigger] pairs[i])
    &&& b.witness_paths@.len() == if f.len() < config.representative_path_limit { f.len() } else { config.representative_path_limit as nat }
    &&& forall|k: int| 0 <= k < b.witness_paths@.len() ==> crossing_witness(s, target, layer, f[k], #[trigger] b.witness_paths@[k])
    &&& texts_view(b.incoming_theorems@) == incoming.map_values(|x: usize| s.declarations@[x as int].name@)
    &&& texts_view(b.outgoing_theorems@) == outgoing.map_values(|x: usize| s.declarations@[x as int].name@)
    &&& b.reason@ == bridge_reason(f.len())
}

/// The reported theorems of a row lie in it.
proof fn lemma_reported_in_range(s: ExtractionSnapshot, g: LensLayerGraph, row: Seq<usize>)
    ensures
        forall|k: int| 0 <= k < reported_in(s, g, row).len() ==> row.contains(#[trigger] reported_in(s, g, row)[k]),
    decreases row.len(),
{
    if row.len() > 0 {
        lemma_reported_in_range(s, g, row.drop_last());
        let e = reported_in(s, g, row.drop_last());
        assert forall|k: int| 0 <= k < reported_in(s, g, row).len() implies row.contains(#[trigger] reported_in(s, g, row)[k]) by {
            if k < e.len() {
                assert(reported_in(s, g, row)[k] == e[k]);
                let m = choose|m: int| 0 <= m < row.drop_last().len() && row.drop_last()[m] == e[k];
                assert(row[m] == e[k]);
            } else {
                assert(row[row.len() - 1] == row.last());
            }
        }
    }
}

/// A region pair with the order it is sorted by.
struct PairKey {
    pair: DirectedRegionPair,
}

impl Ranked for PairKey {
    closed spec fn rank_lt(self, other: Self) -> bool {
        pair_lt(self.pair, other.pair)
    }

    fn precedes(&self, other: &Self) -> (r: bool) {
        match compare_text(self.pair.incoming_region.as_str(), other.pair.incoming_region.as_str()) {
            Order::Less => true,
            Order::Greater => false,
            Order::Equal => match compare_text(self.pair.outgoing_region.as_str(), other.pair.outgoing_region.as_str()) {
                Order::Less => true,
                _ => false,
            },
        }
    }

    proof fn lemma_rank_order(a: Self, b: Self, c: Self) {
        crate::strings::lemma_text_lt_trichotomy(a.pair.incoming_region@, b.pair.incoming_region@);
        crate::strings::lemma_text_lt_trichotomy(b.pair.incoming_region@, c.pair.incoming_region@);
        crate::strings::lemma_text_lt_trichotomy(a.pair.incoming_region@, c.pair.incoming_region@);
        crate::strings::lemma_text_lt_trichotomy(a.pair.outgoing_region@, b.pair.outgoing_region@);
        crate::strings::lemma_text_lt_trichotomy(b.pair.outgoing_region@, c.pair.outgoing_region@);
        crate::strings::lemma_text_lt_trichotomy(a.pair.outgoing_region@, c.pair.outgoing_region@);
        if text_lt(a.pair.incoming_region@, b.pair.incoming_region@) && text_lt(b.pair.incoming_region@, c.pair.incoming_region@) {
            crate::strings::lemma_text_lt_transitive(a.pair.incoming_region@, b.pair.incoming_region@, c.pair.incoming_region@);
        }
        if text_lt(c.pair.incoming_region@, b.pair.incoming_region@) && text_lt(b.pair.incoming_region@, a.pair.incoming_region@) {
            crate::strings::lemma_text_lt_transitive(c.pair.incoming_region@, b.pair.incoming_region@, a.pair.incoming_region@);
        }
        if text_lt(a.pair.outgoing_region@, b.pair.outgoing_region@) && text_lt(b.pair.outgoing_region@, c.pair.outgoing_region@) {
            crate::strings::lemma_text_lt_transitive(a.pair.outgoing_region@, b.pair.outgoing_region@, c.pair.outgoing_region@);
        }
        if text_lt(c.pair.outgoing_region@, b.pair.outgoing_region@) && text_lt(b.pair.outgoing_region@, a.pair.outgoing_region@) {
            crate::strings::lemma_text_lt_transitive(c.pair.outgoing_region@, b.pair.outgoing_region@, a.pair.outgoing_region@);
        }
    }
}

/// Whether some found pair joins `x` and `y`.
fn pair_listed(found: &Vec<DirectedRegionPair>, x: &str, y: &str) -> (r: bool)
    ensures
        r == pair_present(found@, x@, y@),
{
    let mut k: usize = 0;
    while k < found.len()
        invariant
            k <= found@.len(),
            forall|j: int| 0 <= j < k ==> !((#[trigger] found@[j]).incoming_region@ == x@ && found@[j].outgoing_region@ == y@),
        decreases found@.len() - k,
    {
        if text_eq(found[k].incoming_region.as_str(), x) && text_eq(found[k].outgoing_region.as_str(), y) {
            return true;
        }
        k = k + 1;
    }
    false
}

/// The found pairs and witnesses are those of the first crossings, in order.
spec fn found_matches(s: ExtractionSnapshot, target: int, layer: DependencyLayer, found: Seq<DirectedRegionPair>,
    witnesses: Seq<DependencyWitnessPath>, f: Seq<(Seq<char>, Seq<char>, usize, usize)>) -> bool {
    &&& found.len() == f.len()
    &&& witnesses.len() == f.len()
    &&& forall|k: int| 0 <= k < f.len() ==> (#[trigger] found[k]).incoming_region@ == f[k].0 && found[k].outgoing_region@ == f[k].1
        && crossing_witness(s, target, layer, f[k], witnesses[k])
}

/// Adding one crossing to the found pairs, when its pair is new.
proof fn lemma_first_step(h: Seq<(Seq<char>, Seq<char>, usize, usize)>, c: (Seq<char>, Seq<char>, usize, usize))
    ensures
        first_crossings(h.push(c)) == if has_pair(first_crossings(h), c.0, c.1) { first_crossings(h) } else { first_crossings(h).push(c) },
{
    assert(h.push(c).drop_last() == h);
    assert(h.push(c).last() == c);
}

impl AnalysisCorpus {
    /// What the bridge lens reports of the theorem `target` on `layer`,
    /// given the layer graph, the region of each name and the articulation
    /// points: none where the declaration has no expression for that layer,
    /// or, unless `include_all`, where no region pair is crossed.
    #[verifier::spinoff_prover]
    #[verifier::rlimit(60)]
    pub fn bridge_evidence(
        &self,
        g: &LensLayerGraph,
        target: usize,
        layer: DependencyLayer,
        config: &LensAnalysisConfig,
        regions: &Vec<(String, String)>,
        articulation: &Vec<String>,
        include_all: bool,
    ) -> (r: Option<BridgeEvidence>)
        requires
            layer_graph_of(self.snapshot_view(), self.edges_view(), lens_filter(*config, layer), lens_path_filter(*config, layer), *g),
            target < self.snapshot_view().declarations@.len(),
        ensures
            r is Some <==> layer_graph(self.snapshot_view().declarations@[target as int], layer) is Some && (include_all
                || first_crossings(crossings(self.snapshot_view(), regions@, reported_in(self.snapshot_view(), *g, g.reverse@[target as int]@),
                    reported_in(self.snapshot_view(), *g, g.adjacency@[target as int]@))).len() > 0),
            r matches Some(b) ==> bridge_reports(self.snapshot_view(), *g, target as int, layer, *config, regions@, texts_view(articulation@), b),
    {
        let ghost s = self.snapshot_view();
        if self.graph(target, layer).is_none() {
            return None;
        }
        let ds = self.declarations();
        proof {
            assert(crate::analysis::influence::by_name(s.declarations@, g.reverse@[target as int]@));
            assert(crate::analysis::influence::by_name(s.declarations@, g.adjacency@[target as int]@));
        }
        let incoming = self.reported_row(g, &g.reverse[target]);
        let outgoing = self.reported_row(g, &g.adjacency[target]);
        proof {
            lemma_reported_in_range(s, *g, g.reverse@[target as int]@);
            lemma_reported_in_range(s, *g, g.adjacency@[target as int]@);
        }
        let ghost out = outgoing@;
        let mut found: Vec<DirectedRegionPair> = Vec::new();
        let mut witnesses: Vec<DependencyWitnessPath> = Vec::new();
        let ghost mut hits: Seq<(Seq<char>, Seq<char>, usize, usize)> = Seq::empty();
        let mut i: usize = 0;
        while i < incoming.len()
            invariant
                s == self.snapshot_view(),
                ds@ == s.declarations@,
                target < ds@.len(),
                out == outgoing@,
                forall|k: int| 0 <= k < incoming@.len() ==> #[trigger] incoming@[k] < ds@.len(),
                forall|k: int| 0 <= k < outgoing@.len() ==> #[trigger] outgoing@[k] < ds@.len(),
                i <= incoming@.len(),
                hits == crossings(s, regions@, incoming@.take(i as int), out),
                found_matches(s, target as int, layer, found@, witnesses@, first_crossings(hits)),
            decreases incoming@.len() - i,
        {
            let a = incoming[i];
            let ra = find_region(regions, ds[a].name.as_str());
            let ghost row_start = hits;
            let mut j: usize = 0;
            while j < outgoing.len()
                invariant
                    s == self.snapshot_view(),
                    ds@ == s.declarations@,
                    target < ds@.len(),
                    out == outgoing@,
                    a < ds@.len(),
                    crate::strings::opt_view(&ra) == region_of(regions@, ds@[a as int].name@),
                    forall|k: int| 0 <= k < outgoing@.len() ==> #[trigger] outgoing@[k] < ds@.len(),
                    j <= outgoing@.len(),
                    hits == row_start + row_crossings(s, regions@, a, out.take(j as int)),
                    found_matches(s, target as int, layer, found@, witnesses@, first_crossings(hits)),
                decreases outgoing@.len() - j,
            {
                let b = outgoing[j];
                let rb = find_region(regions, ds[b].name.as_str());
                proof {
                    assert(out.take(j + 1).drop_last() == out.take(j as int));
                    assert(out.take(j + 1).last() == b);
                }
                match (&ra, &rb) {
                    (Some(x), Some(y)) => {
                        if !text_eq(x.as_str(), y.as_str()) {
                            let ghost c = (x@, y@, a, b);
                            let ghost f0 = first_crossings(hits);
                            proof {
                                assert(crossing(s, regions@, a, b) == Some((x@, y@)));
                                assert(row_crossings(s, regions@, a, out.take(j + 1)) == row_crossings(s, regions@, a, out.take(j as int)).push(c));
                                lemma_first_step(hits, c);
                                assert(pair_present(found@, x@, y@) == has_pair(f0, x@, y@)) by {
                                    if pair_present(found@, x@, y@) {
                                        let m = choose|m: int| 0 <= m < found@.len() && (#[trigger] found@[m]).incoming_region@ == x@ && found@[m].outgoing_region@ == y@;
                                        assert(f0[m].0 == x@ && f0[m].1 == y@);
                                    }
                                    if has_pair(f0, x@, y@) {
                                        let m = choose|m: int| 0 <= m < f0.len() && (#[trigger] f0[m]).0 == x@ && f0[m].1 == y@;
                                        assert(found@[m].incoming_region@ == x@);
                                    }
                                }
                            }
                            if !pair_listed(&found, x.as_str(), y.as_str()) {
                                let mut nodes: Vec<String> = Vec::new();
                                nodes.push(copy_text(&ds[a].name));
                                nodes.push(copy_text(&ds[target].name));
                                nodes.push(copy_text(&ds[b].name));
                                let mut layers: Vec<DependencyLayer> = Vec::new();
                                layers.push(layer);
                                layers.push(layer);
                                let ghost fw = found@;
                                let ghost ww = witnesses@;
                                found.push(DirectedRegionPair { incoming_region: copy_text(x), outgoing_region: copy_text(y) });
                                witnesses.push(DependencyWitnessPath { nodes, layers });
                                proof {
                                    let w = witnesses@[witnesses@.len() - 1];
                                    assert(texts_view(w.nodes@) =~= seq![ds@[a as int].name@, ds@[target as int].name@, ds@[b as int].name@]);
                                    assert(w.layers@ =~= seq![layer, layer]);
                                    let f1 = f0.push(c);
                                    assert forall|k: int| 0 <= k < f1.len() implies (#[trigger] found@[k]).incoming_region@ == f1[k].0 && found@[k].outgoing_region@ == f1[k].1
                                        && crossing_witness(s, target as int, layer, f1[k], witnesses@[k]) by {
                                        if k < f0.len() {
                                            assert(found@[k] == fw[k]);
                                            assert(witnesses@[k] == ww[k]);
                                        }
                                    }
                                }
                            }
                            proof {
                                let h0 = hits;
                                hits = hits.push(c);
                                assert(row_start + row_crossings(s, regions@, a, out.take(j + 1)) =~= hits);
                                if has_pair(f0, x@, y@) {
                                    assert(first_crossings(hits) == f0);
                                } else {
                                    assert(first_crossings(hits) == f0.push(c));
                                }
                                assert(found_matches(s, target as int, layer, found@, witnesses@, first_crossings(hits)));
                            }
                        } else {
                            proof {
                                assert(crossing(s, regions@, a, b) is None);
                                assert(row_crossings(s, regions@, a, out.take(j + 1)) == row_crossings(s, regions@, a, out.take(j as int)));
                            }
                        }
                    },
                    _ => {
                        proof {
                            assert(crossing(s, regions@, a, b) is None);
                            assert(row_crossings(s, regions@, a, out.take(j + 1)) == row_crossings(s, regions@, a, out.take(j as int)));
                        }
                    },
                }
                j = j + 1;
            }
            proof {
                assert(out.take(j as int) == out);
                assert(incoming@.take(i + 1).drop_last() == incoming@.take(i as int));
                assert(incoming@.take(i + 1).last() == a);
            }
            i = i + 1;
        }
        proof {
            assert(incoming@.take(i as int) == incoming@);
        }
        let ghost f = first_crossings(hits);
        if !include_all && found.len() == 0 {
            return None;
        }
        let count = found.len();
        let ghost fv = found@;
        let mut keys: Vec<PairKey> = Vec::new();
        let mut k: usize = 0;
        while k < found.len()
            invariant
                k <= fv.len(),
                fv == found@,
                keys@.len() == k,
                forall|m: int| 0 <= m < k ==> (#[trigger] keys@[m]).pair.incoming_region@ == fv[m].incoming_region@
                    && keys@[m].pair.outgoing_region@ == fv[m].outgoing_region@,
            decreases fv.len() - k,
        {
            keys.push(PairKey { pair: DirectedRegionPair {
                incoming_region: copy_text(&found[k].incoming_region),
                outgoing_region: copy_text(&found[k].outgoing_region),
            } });
            k = k + 1;
        }
        let ghost unsorted = keys@;
        let sorted = sort_ranked(keys);
        let ghost sv = sorted@;
        proof {
            broadcast use vstd::seq_lib::group_to_multiset_ensures;
            vstd::seq_lib::to_multiset_len(sv);
            vstd::seq_lib::to_multiset_len(unsorted);
        }
        let mut pairs: Vec<DirectedRegionPair> = Vec::new();
        let mut sorted = sorted;
        let mut reversed: Vec<DirectedRegionPair> = Vec::new();
        while sorted.len() > 0
            invariant
                reversed@.len() + sorted@.len() == sv.len(),
                sorted@ == sv.take(sorted@.len() as int),
                forall|m: int| 0 <= m < reversed@.len() ==> #[trigger] reversed@[m] == sv[sv.len() - 1 - m].pair,
            decreases sorted@.len(),
        {
            let key = sorted.pop().unwrap();
            reversed.push(key.pair);
        }
        while reversed.len() > 0
            invariant
                pairs@.len() + reversed@.len() == sv.len(),
                forall|m: int| 0 <= m < reversed@.len() ==> #[trigger] reversed@[m] == sv[sv.len() - 1 - m].pair,
                forall|m: int| 0 <= m < pairs@.len() ==> #[trigger] pairs@[m] == sv[m].pair,
            decreases reversed@.len(),
        {
            let p = reversed.pop().unwrap();
            pairs.push(p);
        }
        proof {
            broadcast use vstd::seq_lib::group_to_multiset_ensures;
            let pv = pairs@;
            assert forall|m: int| 0 <= m < pv.len() implies has_pair(f, (#[trigger] pv[m]).incoming_region@, pv[m].outgoing_region@) by {
                assert(sv.to_multiset().count(sv[m]) > 0);
                assert(unsorted.contains(sv[m]));
                let a = choose|a: int| 0 <= a < unsorted.len() && unsorted[a] == sv[m];
                assert(f[a].0 == fv[a].incoming_region@);
            }
            assert forall|m: int| 0 <= m < f.len() implies #[trigger] pair_present(pv, f[m].0, f[m].1) by {
                assert(unsorted.to_multiset().count(unsorted[m]) > 0);
                assert(sv.contains(unsorted[m]));
                let a = choose|a: int| 0 <= a < sv.len() && sv[a] == unsorted[m];
                assert(pv[a] == sv[a].pair);
            }
            assert forall|a: int, b: int| 0 <= a < b < pv.len() implies !pair_lt(#[trigger] pv[b], #[trigger] pv[a]) by {
                assert(!sv[b].rank_lt(sv[a]));
            }
        }
        let limit = config.representative_path_limit;
        let keep = if witnesses.len() < limit { witnesses.len() } else { limit };
        let ghost ws = witnesses@;
        let mut paths = witnesses;
        paths.truncate(keep);
        proof {
            assert forall|q: int| 0 <= q < paths@.len() implies crossing_witness(s, target as int, layer, f[q], #[trigger] paths@[q]) by {
                assert(paths@[q] == ws[q]);
                assert(found_matches(s, target as int, layer, fv, ws, f));
                assert(fv[q].incoming_region@ == f[q].0);
            }
        }
        let reason = if count == 0 {
            text_from("no direct dependency witness connects distinct graph regions")
        } else {
            let mut t = text_from("lies on direct dependency witnesses for ");
            append_text(&mut t, decimal_text(count).as_str());
            append_text(&mut t, " distinct directed graph-region pair(s)");
            t
        };
        let name = copy_text(&ds[target].name);
        let articulation_point = texts_contain(articulation, name.as_str());
        Some(BridgeEvidence {
            name,
            statement: copy_text(&ds[target].type_),
            reason,
            layer,
            articulation_point,
            distinct_directed_region_pair_count: count,
            directed_region_pairs: pairs,
            incoming_theorems: self.names_of(&incoming),
            outgoing_theorems: self.names_of(&outgoing),
            witness_paths: paths,
        })
    }

    /// The reported theorems of a row of the layer graph, in row order.
    fn reported_row(&self, g: &LensLayerGraph, row: &Vec<usize>) -> (r: Vec<usize>)
        requires
            g.active@.len() == self.snapshot_view().declarations@.len(),
            forall|k: int| 0 <= k < row@.len() ==> #[trigger] row@[k] < self.snapshot_view().declarations@.len(),
        ensures
            r@ == reported_in(self.snapshot_view(), *g, row@),
    {
        let ghost s = self.snapshot_view();
        let ds = self.declarations();
        let mut r: Vec<usize> = Vec::new();
        let mut k: usize = 0;
        while k < row.len()
            invariant
                s == self.snapshot_view(),
                ds@ == s.declarations@,
                g.active@.len() == ds@.len(),
                forall|j: int| 0 <= j < row@.len() ==> #[trigger] row@[j] < ds@.len(),
                k <= row@.len(),
                r@ == reported_in(s, *g, row@.take(k as int)),
            decreases row@.len() - k,
        {
            let x = row[k];
            proof {
                assert(row@.take(k + 1).drop_last() == row@.take(k as int));
                assert(row@.take(k + 1).last() == x);
            }
            if g.active[x] && text_eq(ds[x].kind.as_str(), "theorem") {
                r.push(x);
            }
            k = k + 1;
        }
        proof {
            assert(row@.take(k as int) == row@);
        }
        r
    }

    /// The names of the given declarations, in order.
    fn names_of(&self, ids: &Vec<usize>) -> (r: Vec<String>)
        requires
            forall|k: int| 0 <= k < ids@.len() ==> #[trigger] ids@[k] < self.snapshot_view().declarations@.len(),
        ensures
            texts_view(r@) == ids@.map_values(|x: usize| self.snapshot_view().declarations@[x as int].name@),
    {
        let ds = self.declarations();
        let mut r: Vec<String> = Vec::new();
        let mut k: usize = 0;
        while k < ids.len()
            invariant
                ds@ == self.snapshot_view().declarations@,
                forall|j: int| 0 <= j < ids@.len() ==> #[trigger] ids@[j] < ds@.len(),
                k <= ids@.len(),
                texts_view(r@) == ids@.take(k as int).map_values(|x: usize| ds@[x as int].name@),
            decreases ids@.len() - k,
        {
            r.push(copy_text(&ds[ids[k]].name));
            proof {
                assert(ids@.take(k + 1).map_values(|x: usize| ds@[x as int].name@)
                    =~= ids@.take(k as int).map_values(|x: usize| ds@[x as int].name@).push(ds@[ids@[k as int] as int].name@));
                assert(texts_view(r@) =~= ids@.take(k as int).map_values(|x: usize| ds@[x as int].name@).push(ds@[ids@[k as int] as int].name@));
            }
            k = k + 1;
        }
        proof {
            assert(ids@.take(k as int) == ids@);
        }
        r
    }
}

} // verus!

verus! {

/// Influence evidence comes first with more reachable dependents, then more
/// direct dependents, then by name, then statement layer before proof layer.
pub open spec fn influence_before(a: InfluenceEvidence, b: InfluenceEvidence) -> bool {
    a.reachable_dependent_count > b.reachable_dependent_count
        || (a.reachable_dependent_count == b.reachable_dependent_count && (a.direct_dependent_count > b.direct_dependent_count
        || (a.direct_dependent_count == b.direct_dependent_count && (text_lt(a.name@, b.name@)
        || (a.name@ == b.name@ && layer_rank(a.layer) < layer_rank(b.layer))))))
}

/// A piece of influence evidence with the order it is ranked by.
struct InfluenceKey {
    evidence: InfluenceEvidence,
}

impl Ranked for InfluenceKey {
    closed spec fn rank_lt(self, other: Self) -> bool {
        influence_before(self.evidence, other.evidence)
    }

    fn precedes(&self, other: &Self) -> (r: bool) {
        let (a, b) = (&self.evidence, &other.evidence);
        if a.reachable_dependent_count != b.reachable_dependent_count {
            a.reachable_dependent_count > b.reachable_dependent_count
        } else if a.direct_dependent_count != b.direct_dependent_count {
            a.direct_dependent_count > b.direct_dependent_count
        } else {
            match compare_text(a.name.as_str(), b.name.as_str()) {
                Order::Less => true,
                Order::Greater => false,
                Order::Equal => match (a.layer, b.layer) {
                    (DependencyLayer::Statement, DependencyLayer::Proof) => true,
                    _ => false,
                },
            }
        }
    }

    proof fn lemma_rank_order(a: Self, b: Self, c: Self) {
        crate::strings::lemma_text_lt_trichotomy(a.evidence.name@, b.evidence.name@);
        crate::strings::lemma_text_lt_trichotomy(b.evidence.name@, c.evidence.name@);
        crate::strings::lemma_text_lt_trichotomy(a.evidence.name@, c.evidence.name@);
        if text_lt(a.evidence.name@, b.evidence.name@) && text_lt(b.evidence.name@, c.evidence.name@) {
            crate::strings::lemma_text_lt_transitive(a.evidence.name@, b.evidence.name@, c.evidence.name@);
        }
        if text_lt(c.evidence.name@, b.evidence.name@) && text_lt(b.evidence.name@, a.evidence.name@) {
            crate::strings::lemma_text_lt_transitive(c.evidence.name@, b.evidence.name@, a.evidence.name@);
        }
    }
}

/// Unwrapping keys keeps how often each piece of evidence occurs.
proof fn lemma_unwrap_count(a: Seq<InfluenceKey>, e: InfluenceEvidence)
    ensures
        a.map_values(|k: InfluenceKey| k.evidence).to_multiset().count(e) == a.to_multiset().count(InfluenceKey { evidence: e }),
    decreases a.len(),
{
    broadcast use vstd::seq_lib::group_to_multiset_ensures;
    broadcast use vstd::multiset::group_multiset_axioms;
    if a.len() == 0 {
        assert(a.map_values(|k: InfluenceKey| k.evidence) =~= Seq::<InfluenceEvidence>::empty());
        assert(a =~= Seq::<InfluenceKey>::empty());
    } else {
        let p = a.drop_last();
        lemma_unwrap_count(p, e);
        assert(a.map_values(|k: InfluenceKey| k.evidence) =~= p.map_values(|k: InfluenceKey| k.evidence).push(a.last().evidence));
        assert(a =~= p.push(a.last()));
        assert(a.last() == InfluenceKey { evidence: a.last().evidence });
    }
}

/// The influence evidence ranked, the first `limit` kept: the result is the
/// start of an ordering of `v` in which no entry comes before an earlier
/// one.
pub fn rank_influence(v: Vec<InfluenceEvidence>, limit: usize) -> (r: Vec<InfluenceEvidence>)
    ensures
        r@.len() == if v@.len() < limit { v@.len() } else { limit as nat },
        exists|w: Seq<InfluenceEvidence>| #![trigger w.to_multiset()]
            w.to_multiset() == v@.to_multiset()
            && (forall|i: int, j: int| 0 <= i < j < w.len() ==> !influence_before(#[trigger] w[j], #[trigger] w[i]))
            && r@ == w.take(r@.len() as int),
{
    broadcast use vstd::seq_lib::group_to_multiset_ensures;
    broadcast use vstd::multiset::group_multiset_axioms;
    let ghost original = v@;
    let mut v = v;
    let mut keys: Vec<InfluenceKey> = Vec::new();
    let ghost mut moved: Seq<InfluenceEvidence> = Seq::empty();
    while v.len() > 0
        invariant
            original.to_multiset() == v@.to_multiset().add(moved.to_multiset()),
            keys@.len() == moved.len(),
            forall|i: int| 0 <= i < keys@.len() ==> (#[trigger] keys@[i]).evidence == moved[i],
        decreases v@.len(),
    {
        let ghost before = v@;
        let e = v.pop().unwrap();
        proof {
            assert(before == v@.push(e));
            let m0 = moved;
            moved = moved.push(e);
            vstd::seq_lib::to_multiset_build(v@, e);
            vstd::seq_lib::to_multiset_build(m0, e);
            assert(before.to_multiset() =~= v@.to_multiset().insert(e));
            assert(moved.to_multiset() =~= m0.to_multiset().insert(e));
            assert(original.to_multiset() =~= v@.to_multiset().add(moved.to_multiset()));
        }
        keys.push(InfluenceKey { evidence: e });
    }
    let ghost ks = keys@;
    let sorted = sort_ranked(keys);
    let ghost sv = sorted@;
    let ghost w = sv.map_values(|k: InfluenceKey| k.evidence);
    proof {
        assert(original.to_multiset() =~= moved.to_multiset());
        assert(moved == ks.map_values(|k: InfluenceKey| k.evidence));
        assert forall|e: InfluenceEvidence| #[trigger] w.to_multiset().count(e) == moved.to_multiset().count(e) by {
            lemma_unwrap_count(ks, e);
            lemma_unwrap_count(sv, e);
        }
        assert(w.to_multiset() =~= moved.to_multiset());
        vstd::seq_lib::to_multiset_len(sv);
        vstd::seq_lib::to_multiset_len(ks);
        vstd::seq_lib::to_multiset_len(original);
        vstd::seq_lib::to_multiset_len(moved);
        assert(sv.len() == original.len());
    }
    let keep = if sorted.len() < limit { sorted.len() } else { limit };
    let mut sorted = sorted;
    sorted.truncate(keep);
    let mut reversed: Vec<InfluenceEvidence> = Vec::new();
    while sorted.len() > 0
        invariant
            reversed@.len() + sorted@.len() == keep,
            keep <= sv.len(),
            sorted@ == sv.take(sorted@.len() as int),
            forall|m: int| 0 <= m < reversed@.len() ==> #[trigger] reversed@[m] == sv[keep - 1 - m].evidence,
        decreases sorted@.len(),
    {
        let key = sorted.pop().unwrap();
        reversed.push(key.evidence);
    }
    let mut out: Vec<InfluenceEvidence> = Vec::new();
    while reversed.len() > 0
        invariant
            out@.len() + reversed@.len() == keep,
            keep <= sv.len(),
            forall|m: int| 0 <= m < reversed@.len() ==> #[trigger] reversed@[m] == sv[keep - 1 - m].evidence,
            forall|m: int| 0 <= m < out@.len() ==> #[trigger] out@[m] == sv[m].evidence,
        decreases reversed@.len(),
    {
        let e = reversed.pop().unwrap();
        out.push(e);
    }
    proof {
        assert forall|i: int, j: int| 0 <= i < j < w.len() implies !influence_before(#[trigger] w[j], #[trigger] w[i]) by {
            assert(!sv[j].rank_lt(sv[i]));
        }
        assert(out@ =~= w.take(out@.len() as int));
        assert(w.to_multiset() == original.to_multiset());
    }
    out
}

} // verus!

verus! {

impl AnalysisCorpus {
    /// The declaration that a theorem inspection is about: refused where no
    /// declaration has the name, where it is no theorem, or, when the proof
    /// lens is asked for, where it has no proof-step extraction.
    pub fn lens_subject(&self, theorem: &str, proof_lens: bool) -> (r: Result<usize, SieveError>)
        ensures
            match r {
                Ok(id) => id < self.snapshot_view().declarations@.len() && self.snapshot_view().declarations@[id as int].name@ == theorem@
                    && self.snapshot_view().declarations@[id as int].kind@ == "theorem"@
                    && (proof_lens ==> self.snapshot_view().declarations@[id as int].proof_steps is Some),
                Err(e) => !declaration_known(self.snapshot_view(), theorem@) && e.message@ == "unknown theorem "@ + theorem@
                    || exists|i: int| 0 <= i < self.snapshot_view().declarations@.len()
                        && #[trigger] self.snapshot_view().declarations@[i].name@ == theorem@ && {
                        let d = self.snapshot_view().declarations@[i];
                        ||| d.kind@ != "theorem"@ && e.message@ == theorem@ + " is a "@ + d.kind@ + ", not a theorem"@
                        ||| d.kind@ == "theorem"@ && proof_lens && d.proof_steps is None
                            && e.message@ == "proof-step extraction is absent for "@ + theorem@
                    },
            },
            r is Err <==> !declaration_known(self.snapshot_view(), theorem@) || exists|i: int| 0 <= i < self.snapshot_view().declarations@.len()
                && #[trigger] self.snapshot_view().declarations@[i].name@ == theorem@
                && (self.snapshot_view().declarations@[i].kind@ != "theorem"@ || (proof_lens && self.snapshot_view().declarations@[i].proof_steps is None)),
    {
        proof {
            use_type_invariant(self);
        }
        let ghost s = self.snapshot_view();
        let id = match self.declaration_id(theorem) {
            Some(id) => id,
            None => {
                return Err(SieveError::about("unknown theorem ", theorem));
            },
        };
        proof {
            assert forall|i: int| 0 <= i < s.declarations@.len() && #[trigger] s.declarations@[i].name@ == theorem@ implies i == id by {
                if i != id as int {
                    if i < id {
                        assert(s.declarations@[i].name@ != s.declarations@[id as int].name@);
                    } else {
                        assert(s.declarations@[id as int].name@ != s.declarations@[i].name@);
                    }
                }
            }
        }
        let d = &self.declarations()[id];
        if !text_eq(d.kind.as_str(), "theorem") {
            let mut message = text_from(theorem);
            append_text(&mut message, " is a ");
            append_text(&mut message, d.kind.as_str());
            append_text(&mut message, ", not a theorem");
            return Err(SieveError { message });
        }
        if proof_lens && d.proof_steps.is_none() {
            return Err(SieveError::about("proof-step extraction is absent for ", theorem));
        }
        Ok(id)
    }
}

} // verus!
