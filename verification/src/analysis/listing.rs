//! The per-theorem lenses of a layer, listed theorem by theorem in name order.
use vstd::prelude::*;
use crate::analysis::corpus::{layer_graph, AnalysisCorpus};
use crate::analysis::filters::DependencyLayer;
use crate::analysis::influence::{
    influence_reports, layer_graph_of, lens_filter, lens_path_filter, reaches_within, reported_theorem, LensLayerGraph,
};
use crate::analysis::bridge::{bridge_reports, crossings, first_crossings, reported_in, BridgeEvidence};
use crate::analysis::lenses::{InfluenceEvidence, LensAnalysisConfig};
use crate::analysis::regions::ids_by_name;
use crate::model::ExtractionSnapshot;
use crate::strings::{text_lt, texts_view};

verus! {

/// `order` lists the reported theorems of the layer graph once each, in
/// strictly increasing name order.
pub open spec fn theorem_order(s: ExtractionSnapshot, g: LensLayerGraph, order: Seq<usize>) -> bool {
    &&& forall|x: usize| #[trigger] order.contains(x) <==> reported_theorem(s, g, x as int)
    &&& forall|j: int| 0 <= j < order.len() ==> #[trigger] order[j] < s.declarations@.len()
    &&& forall|i: int, j: int| 0 <= i < j < order.len() ==> text_lt(s.declarations@[#[trigger] order[i] as int].name@,
        s.declarations@[#[trigger] order[j] as int].name@)
}

/// Theorem `x` gets influence evidence.
pub open spec fn influence_due(s: ExtractionSnapshot, g: LensLayerGraph, x: int, layer: DependencyLayer, config: LensAnalysisConfig,
    include_all: bool) -> bool {
    layer_graph(s.declarations@[x], layer) is Some && (include_all
        || exists|y: usize| #[trigger] reported_theorem(s, g, y as int) && y != x
            && reaches_within(g.adjacency@, y as int, x, config.max_depth as nat))
}

/// `r` holds, in the order of `order`, the influence evidence of each
/// theorem that gets some.
pub open spec fn influence_listing(s: ExtractionSnapshot, g: LensLayerGraph, layer: DependencyLayer, config: LensAnalysisConfig,
    regions: Seq<(String, String)>, include_all: bool, order: Seq<usize>, r: Seq<InfluenceEvidence>) -> bool
    decreases order.len(),
{
    if order.len() == 0 {
        r.len() == 0
    } else {
        let x = order.last() as int;
        if influence_due(s, g, x, layer, config, include_all) {
            r.len() > 0 && influence_reports(s, g, x, layer, config, regions, include_all, r.last())
                && influence_listing(s, g, layer, config, regions, include_all, order.drop_last(), r.drop_last())
        } else {
            influence_listing(s, g, layer, config, regions, include_all, order.drop_last(), r)
        }
    }
}

/// Theorem `x` gets bridge evidence.
pub open spec fn bridge_due(s: ExtractionSnapshot, g: LensLayerGraph, x: int, layer: DependencyLayer, regions: Seq<(String, String)>,
    include_all: bool) -> bool {
    layer_graph(s.declarations@[x], layer) is Some && (include_all
        || first_crossings(crossings(s, regions, reported_in(s, g, g.reverse@[x]@), reported_in(s, g, g.adjacency@[x]@))).len() > 0)
}

/// `r` holds, in the order of `order`, the bridge evidence of each theorem
/// that gets some.
pub open spec fn bridge_listing(s: ExtractionSnapshot, g: LensLayerGraph, layer: DependencyLayer, config: LensAnalysisConfig,
    regions: Seq<(String, String)>, articulation: Seq<Seq<char>>, include_all: bool, order: Seq<usize>, r: Seq<BridgeEvidence>) -> bool
    decreases order.len(),
{
    if order.len() == 0 {
        r.len() == 0
    } else {
        let x = order.last() as int;
        if bridge_due(s, g, x, layer, regions, include_all) {
            r.len() > 0 && bridge_reports(s, g, x, layer, config, regions, articulation, r.last())
                && bridge_listing(s, g, layer, config, regions, articulation, include_all, order.drop_last(), r.drop_last())
        } else {
            bridge_listing(s, g, layer, config, regions, articulation, include_all, order.drop_last(), r)
        }
    }
}

impl AnalysisCorpus {
    /// The reported theorems of a layer graph, in name order.
    pub fn reported_theorems(&self, g: &LensLayerGraph, layer: DependencyLayer, config: &LensAnalysisConfig) -> (r: Vec<usize>)
        requires
            layer_graph_of(self.snapshot_view(), self.edges_view(), lens_filter(*config, layer), lens_path_filter(*config, layer), *g),
        ensures
            theorem_order(self.snapshot_view(), *g, r@),
    {
        proof {
            use_type_invariant(self);
        }
        let ghost s = self.snapshot_view();
        let ds = self.declarations();
        let n = ds.len();
        let mut ids: Vec<usize> = Vec::new();
        let mut x: usize = 0;
        while x < n
            invariant
                ds@ == s.declarations@,
                n == s.declarations@.len(),
                g.active@.len() == n,
                x <= n,
                crate::analysis::corpus::increasing(ids@),
                forall|i: int| 0 <= i < ids@.len() ==> #[trigger] ids@[i] < x,
                forall|y: usize| #[trigger] ids@.contains(y) <==> (y < x && reported_theorem(s, *g, y as int)),
            decreases n - x,
        {
            if g.active[x] && crate::strings::text_eq(ds[x].kind.as_str(), "theorem") {
                let ghost old_ids = ids@;
                ids.push(x);
                proof {
                    assert forall|y: usize| #[trigger] ids@.contains(y) <==> (y < x + 1 && reported_theorem(s, *g, y as int)) by {
                        if ids@.contains(y) && y != x {
                            let i = choose|i: int| 0 <= i < ids@.len() && ids@[i] == y;
                            assert(i < old_ids.len());
                            assert(old_ids[i] == y);
                            assert(old_ids.contains(y));
                        }
                        if y < x && reported_theorem(s, *g, y as int) {
                            assert(old_ids.contains(y));
                            let i = choose|i: int| 0 <= i < old_ids.len() && old_ids[i] == y;
                            assert(ids@[i] == y);
                        }
                        if y == x {
                            assert(ids@[ids@.len() - 1] == x);
                        }
                    }
                }
            }
            x = x + 1;
        }
        ids_by_name(ds, &ids, Ghost(s))
    }

    /// The influence evidence of every reported theorem of a layer that
    /// gets some, theorems in name order.
    pub fn layer_influence(&self, g: &LensLayerGraph, layer: DependencyLayer, config: &LensAnalysisConfig,
        regions: &Vec<(String, String)>, include_all: bool) -> (r: Vec<InfluenceEvidence>)
        requires
            layer_graph_of(self.snapshot_view(), self.edges_view(), lens_filter(*config, layer), lens_path_filter(*config, layer), *g),
        ensures
            exists|order: Seq<usize>| #[trigger] theorem_order(self.snapshot_view(), *g, order)
                && influence_listing(self.snapshot_view(), *g, layer, *config, regions@, include_all, order, r@),
    {
        let order = self.reported_theorems(g, layer, config);
        let mut r: Vec<InfluenceEvidence> = Vec::new();
        let mut i: usize = 0;
        while i < order.len()
            invariant
                layer_graph_of(self.snapshot_view(), self.edges_view(), lens_filter(*config, layer), lens_path_filter(*config, layer), *g),
                theorem_order(self.snapshot_view(), *g, order@),
                i <= order@.len(),
                influence_listing(self.snapshot_view(), *g, layer, *config, regions@, include_all, order@.take(i as int), r@),
            decreases order@.len() - i,
        {
            let found = self.influence_evidence(g, order[i], layer, config, regions, include_all);
            proof {
                assert(order@.take(i + 1).drop_last() == order@.take(i as int));
                assert(order@.take(i + 1).last() == order@[i as int]);
            }
            match found {
                Some(e) => {
                    let ghost before = r@;
                    r.push(e);
                    proof {
                        assert(r@.drop_last() == before);
                    }
                },
                None => {},
            }
            i = i + 1;
        }
        proof {
            assert(order@.take(i as int) == order@);
        }
        r
    }

    /// The bridge evidence of every reported theorem of a layer that gets
    /// some, theorems in name order.
    pub fn layer_bridges(&self, g: &LensLayerGraph, layer: DependencyLayer, config: &LensAnalysisConfig,
        regions: &Vec<(String, String)>, articulation: &Vec<String>, include_all: bool) -> (r: Vec<BridgeEvidence>)
        requires
            layer_graph_of(self.snapshot_view(), self.edges_view(), lens_filter(*config, layer), lens_path_filter(*config, layer), *g),
        ensures
            exists|order: Seq<usize>| #[trigger] theorem_order(self.snapshot_view(), *g, order)
                && bridge_listing(self.snapshot_view(), *g, layer, *config, regions@, texts_view(articulation@), include_all, order, r@),
    {
        let order = self.reported_theorems(g, layer, config);
        let mut r: Vec<BridgeEvidence> = Vec::new();
        let mut i: usize = 0;
        while i < order.len()
            invariant
                layer_graph_of(self.snapshot_view(), self.edges_view(), lens_filter(*config, layer), lens_path_filter(*config, layer), *g),
                theorem_order(self.snapshot_view(), *g, order@),
                i <= order@.len(),
                bridge_listing(self.snapshot_view(), *g, layer, *config, regions@, texts_view(articulation@), include_all,
                    order@.take(i as int), r@),
            decreases order@.len() - i,
        {
            let found = self.bridge_evidence(g, order[i], layer, config, regions, articulation, include_all);
            proof {
                assert(order@.take(i + 1).drop_last() == order@.take(i as int));
                assert(order@.take(i + 1).last() == order@[i as int]);
            }
            match found {
                Some(e) => {
                    let ghost before = r@;
                    r.push(e);
                    proof {
                        assert(r@.drop_last() == before);
                    }
                },
                None => {},
            }
            i = i + 1;
        }
        proof {
            assert(order@.take(i as int) == order@);
        }
        r
    }
}

} // verus!
