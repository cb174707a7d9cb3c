//! Theorem lenses: the kinds of evidence the lens reports gather, their
//! settings, and the evidence records.
use vstd::prelude::*;
use crate::analysis::filters::{copy_filter, default_filter_spec, same_filter, AnalysisFilter, DependencyLayer, LayerSelection};
use crate::error::SieveError;
use crate::model::{DeclarationSnapshot, SourcePosition, SourceRange};
use crate::strings::{copy_opt_text, copy_texts, opt_view, text_eq, text_from, texts_view};

verus! {

/// The lenses a report can be asked for.
#[derive(Clone, Copy, Debug, PartialEq, Eq, Structural)]
pub enum LensKind {
    Influence,
    Bridge,
    Neighbors,
    Proof,
    Trust,
    All,
}

/// The lens a command-line name selects, if any.
pub open spec fn lens_named(value: Seq<char>) -> Option<LensKind> {
    if value == "influence"@ {
        Some(LensKind::Influence)
    } else if value == "bridge"@ {
        Some(LensKind::Bridge)
    } else if value == "neighbors"@ || value == "neighbours"@ {
        Some(LensKind::Neighbors)
    } else if value == "proof"@ {
        Some(LensKind::Proof)
    } else if value == "trust"@ {
        Some(LensKind::Trust)
    } else if value == "all"@ {
        Some(LensKind::All)
    } else {
        None
    }
}

/// The lenses one requested lens stands for: `all` is the three discovery
/// lenses in discovery, all five lenses otherwise.
pub open spec fn expanded(lens: LensKind, discovery: bool) -> Seq<LensKind> {
    match lens {
        LensKind::All => if discovery {
            seq![LensKind::Influence, LensKind::Bridge, LensKind::Neighbors]
        } else {
            seq![LensKind::Influence, LensKind::Bridge, LensKind::Neighbors, LensKind::Proof, LensKind::Trust]
        },
        _ => seq![lens],
    }
}

/// The position of the lens in declaration order.
pub open spec fn lens_rank(lens: LensKind) -> int {
    match lens {
        LensKind::Influence => 0,
        LensKind::Bridge => 1,
        LensKind::Neighbors => 2,
        LensKind::Proof => 3,
        LensKind::Trust => 4,
        LensKind::All => 5,
    }
}

impl LensKind {
    /// The lens called `value`; an error naming it where there is none.
    pub fn parse(value: &str) -> (r: Result<LensKind, SieveError>)
        ensures
            match r {
                Ok(lens) => lens_named(value@) == Some(lens),
                Err(e) => lens_named(value@) is None && e.message@ == "unknown lens "@ + value@,
            },
    {
        if text_eq(value, "influence") {
            Ok(LensKind::Influence)
        } else if text_eq(value, "bridge") {
            Ok(LensKind::Bridge)
        } else if text_eq(value, "neighbors") || text_eq(value, "neighbours") {
            Ok(LensKind::Neighbors)
        } else if text_eq(value, "proof") {
            Ok(LensKind::Proof)
        } else if text_eq(value, "trust") {
            Ok(LensKind::Trust)
        } else if text_eq(value, "all") {
            Ok(LensKind::All)
        } else {
            Err(SieveError::about("unknown lens ", value))
        }
    }

    /// The lenses this one stands for.
    pub fn expand_for_discovery(self, discovery: bool) -> (r: Vec<LensKind>)
        ensures
            r@ == expanded(self, discovery),
    {
        let mut r: Vec<LensKind> = Vec::new();
        match self {
            LensKind::All => {
                r.push(LensKind::Influence);
                r.push(LensKind::Bridge);
                r.push(LensKind::Neighbors);
                if !discovery {
                    r.push(LensKind::Proof);
                    r.push(LensKind::Trust);
                }
            },
            _ => r.push(self),
        }
        proof {
            assert(r@ =~= expanded(self, discovery));
        }
        r
    }
}

/// The requested lenses expanded, without repeats, in declaration order.
pub open spec fn normalized(requested: Seq<LensKind>, discovery: bool, r: Seq<LensKind>) -> bool {
    &&& forall|i: int, j: int| 0 <= i < j < r.len() ==> lens_rank(#[trigger] r[i]) < lens_rank(#[trigger] r[j])
    &&& forall|l: LensKind| #[trigger] r.contains(l) <==> exists|k: int| 0 <= k < requested.len()
        && expanded(#[trigger] requested[k], discovery).contains(l)
}

/// The requested lenses expanded, without repeats, in declaration order.
pub fn normalize_lenses(requested: &Vec<LensKind>, discovery: bool) -> (r: Vec<LensKind>)
    ensures
        normalized(requested@, discovery, r@),
{
    let mut wanted: Vec<bool> = vec![false, false, false, false, false, false];
    let mut k: usize = 0;
    while k < requested.len()
        invariant
            k <= requested@.len(),
            wanted@.len() == 6,
            forall|l: LensKind| #[trigger] wanted@[lens_rank(l)] <==> exists|j: int| 0 <= j < k
                && expanded(#[trigger] requested@[j], discovery).contains(l),
        decreases requested@.len() - k,
    {
        let ghost before = wanted@;
        let expansion = requested[k].expand_for_discovery(discovery);
        let mut i: usize = 0;
        while i < expansion.len()
            invariant
                wanted@.len() == 6,
                i <= expansion@.len(),
                expansion@ == expanded(requested@[k as int], discovery),
                forall|l: LensKind| #[trigger] wanted@[lens_rank(l)] <==> (before[lens_rank(l)] || expansion@.take(i as int).contains(l)),
            decreases expansion@.len() - i,
        {
            let l = expansion[i];
            let slot: usize = match l {
                LensKind::Influence => 0,
                LensKind::Bridge => 1,
                LensKind::Neighbors => 2,
                LensKind::Proof => 3,
                LensKind::Trust => 4,
                LensKind::All => 5,
            };
            wanted.set(slot, true);
            proof {
                assert(expansion@.take(i + 1) == expansion@.take(i as int).push(l));
                assert forall|m: LensKind| #[trigger] wanted@[lens_rank(m)] <==> (before[lens_rank(m)] || expansion@.take(i + 1).contains(m)) by {
                    let t0 = expansion@.take(i as int);
                    let t1 = expansion@.take(i + 1);
                    if t0.contains(m) {
                        let q = choose|q: int| 0 <= q < t0.len() && #[trigger] t0[q] == m;
                        assert(t1[q] == m);
                    }
                    if t1.contains(m) && m != l {
                        let q = choose|q: int| 0 <= q < t1.len() && #[trigger] t1[q] == m;
                        assert(t0[q] == m);
                    }
                    if m == l {
                        assert(expansion@.take(i + 1)[i as int] == m);
                    }
                }
            }
            i = i + 1;
        }
        proof {
            assert(expansion@.take(i as int) == expansion@);
            assert forall|l: LensKind| #[trigger] wanted@[lens_rank(l)] <==> exists|j: int| 0 <= j < k + 1
                && expanded(#[trigger] requested@[j], discovery).contains(l) by {
                if expansion@.contains(l) {
                    assert(expanded(requested@[k as int], discovery).contains(l));
                }
                if exists|j: int| 0 <= j < k + 1 && expanded(#[trigger] requested@[j], discovery).contains(l) {
                    let j = choose|j: int| 0 <= j < k + 1 && expanded(#[trigger] requested@[j], discovery).contains(l);
                    if j == k {
                        assert(expansion@.contains(l));
                    }
                }
            }
        }
        k = k + 1;
    }
    let all = [LensKind::Influence, LensKind::Bridge, LensKind::Neighbors, LensKind::Proof, LensKind::Trust, LensKind::All];
    let mut r: Vec<LensKind> = Vec::new();
    let mut i: usize = 0;
    while i < 6
        invariant
            i <= 6,
            wanted@.len() == 6,
            all@ == seq![LensKind::Influence, LensKind::Bridge, LensKind::Neighbors, LensKind::Proof, LensKind::Trust, LensKind::All],
            forall|q: int| 0 <= q < 6 ==> lens_rank(#[trigger] all@[q]) == q,
            forall|a: int, b: int| 0 <= a < b < r@.len() ==> lens_rank(#[trigger] r@[a]) < lens_rank(#[trigger] r@[b]),
            forall|a: int| 0 <= a < r@.len() ==> lens_rank(#[trigger] r@[a]) < i,
            forall|l: LensKind| #[trigger] r@.contains(l) <==> (lens_rank(l) < i && wanted@[lens_rank(l)]),
        decreases 6 - i,
    {
        let ghost before = r@;
        if wanted[i] {
            r.push(all[i]);
            proof {
                assert forall|l: LensKind| #[trigger] r@.contains(l) <==> (lens_rank(l) < i + 1 && wanted@[lens_rank(l)]) by {
                    if before.contains(l) {
                        let q = choose|q: int| 0 <= q < before.len() && before[q] == l;
                        assert(r@[q] == l);
                    }
                    if r@.contains(l) && l != all@[i as int] {
                        let q = choose|q: int| 0 <= q < r@.len() && r@[q] == l;
                        assert(before[q] == l);
                    }
                    if lens_rank(l) == i {
                        assert(l == all@[i as int]);
                        assert(r@[before.len() as int] == l);
                    }
                }
            }
        } else {
            proof {
                assert forall|l: LensKind| #[trigger] r@.contains(l) <==> (lens_rank(l) < i + 1 && wanted@[lens_rank(l)]) by {
                    if lens_rank(l) == i {
                        assert(l == all@[i as int]);
                    }
                }
            }
        }
        i = i + 1;
    }
    r
}

/// The settings of a lens analysis.
#[derive(Clone, Debug)]
pub struct LensAnalysisConfig {
    pub filter: AnalysisFilter,
    pub layer_explicit: bool,
    pub max_depth: usize,
    pub limit: usize,
    pub representative_path_limit: usize,
}

impl Default for LensAnalysisConfig {
    fn default() -> (r: Self)
        ensures
            default_filter_spec(r.filter),
            !r.layer_explicit,
            r.max_depth == 32,
            r.limit == 100,
            r.representative_path_limit == 3,
    {
        LensAnalysisConfig {
            filter: AnalysisFilter::default(),
            layer_explicit: false,
            max_depth: 32,
            limit: 100,
            representative_path_limit: 3,
        }
    }
}

/// A dependency path that witnesses a lens claim.
#[derive(Clone, Debug)]
pub struct DependencyWitnessPath {
    pub nodes: Vec<String>,
    pub layers: Vec<DependencyLayer>,
}

/// A region of the dependency graph.
#[derive(Clone, Debug)]
pub struct GraphRegion {
    pub id: String,
    pub layer: DependencyLayer,
    pub members: Vec<String>,
}

/// What the influence lens reports of a theorem.
#[derive(Clone, Debug)]
pub struct InfluenceEvidence {
    pub name: String,
    pub statement: String,
    pub reason: String,
    pub layer: DependencyLayer,
    pub direct_dependent_count: usize,
    pub direct_dependents: Vec<String>,
    pub reachable_dependent_count: usize,
    pub reachable_dependents: Vec<String>,
    pub graph_region_coverage: usize,
    pub graph_regions: Vec<String>,
    pub representative_paths: Vec<DependencyWitnessPath>,
    pub traversal_truncated: bool,
}

/// Two regions a bridge joins, in direction.
#[derive(Clone, Debug)]
pub struct DirectedRegionPair {
    pub incoming_region: String,
    pub outgoing_region: String,
}

/// Whether proof steps were extracted for a declaration, and how far.
#[derive(Clone, Debug)]
pub struct ProofExtractionStatus {
    pub available: bool,
    pub complete: Option<bool>,
    pub truncation_reason: Option<String>,
    pub visited_terms: Option<usize>,
    pub step_count: Option<usize>,
}

/// What the trust lens reports of a declaration.
#[derive(Clone, Debug)]
pub struct TrustEvidence {
    pub axioms: Vec<String>,
    pub is_internal: bool,
    pub is_private: bool,
    pub is_generated: bool,
    pub is_unsafe: bool,
    pub is_partial: bool,
    pub has_value: bool,
    pub source_available: bool,
    pub source_range: Option<SourceRange>,
    pub documentation_available: bool,
    pub documentation: Option<String>,
    pub proof_extraction: ProofExtractionStatus,
}

/// How a discovery lens ranks its results.
#[derive(Clone, Debug)]
pub struct LensRankingRule {
    pub lens: LensKind,
    pub ordering: String,
}

/// The positions of a source range.
pub open spec fn range_parts(r: Option<SourceRange>) -> Option<(usize, usize, usize, usize)> {
    match r {
        Some(x) => Some((x.start.line, x.start.column, x.end.line, x.end.column)),
        None => None,
    }
}

/// The trust evidence describes the declaration: its axioms and flags (with
/// "generated" meaning generated provenance, internal or private), its source range and
/// documentation, and the status of its proof-step extraction.
pub open spec fn trust_describes(d: DeclarationSnapshot, t: TrustEvidence) -> bool {
    &&& texts_view(t.axioms@) == texts_view(d.axioms@)
    &&& t.is_internal == d.is_internal
    &&& t.is_private == d.is_private
    &&& t.is_generated == crate::model::declaration_hidden(d)
    &&& t.is_unsafe == d.is_unsafe
    &&& t.is_partial == d.is_partial
    &&& t.has_value == d.has_value
    &&& t.source_available == d.source_range.is_some()
    &&& range_parts(t.source_range) == range_parts(d.source_range)
    &&& t.documentation_available == d.doc_string.is_some()
    &&& opt_view(&t.documentation) == opt_view(&d.doc_string)
    &&& t.proof_extraction.available == d.proof_steps.is_some()
    &&& match d.proof_steps {
        Some(p) => {
            &&& t.proof_extraction.complete == Some(p.complete)
            &&& opt_view(&t.proof_extraction.truncation_reason) == opt_view(&p.truncation_reason)
            &&& t.proof_extraction.visited_terms == Some(p.visited_terms)
            &&& t.proof_extraction.step_count == Some(p.steps@.len() as usize)
        },
        None => {
            &&& t.proof_extraction.complete is None
            &&& t.proof_extraction.truncation_reason is None
            &&& t.proof_extraction.visited_terms is None
            &&& t.proof_extraction.step_count is None
        },
    }
}

/// The trust evidence of a declaration.
pub fn trust_evidence(declaration: &DeclarationSnapshot) -> (r: TrustEvidence)
    ensures
        trust_describes(*declaration, r),
{
    let source_range = match &declaration.source_range {
        Some(x) => Some(SourceRange {
            start: SourcePosition { line: x.start.line, column: x.start.column },
            end: SourcePosition { line: x.end.line, column: x.end.column },
        }),
        None => None,
    };
    let proof_extraction = match &declaration.proof_steps {
        Some(p) => ProofExtractionStatus {
            available: true,
            complete: Some(p.complete),
            truncation_reason: copy_opt_text(&p.truncation_reason),
            visited_terms: Some(p.visited_terms),
            step_count: Some(p.steps.len()),
        },
        None => ProofExtractionStatus {
            available: false,
            complete: None,
            truncation_reason: None,
            visited_terms: None,
            step_count: None,
        },
    };
    TrustEvidence {
        axioms: copy_texts(&declaration.axioms),
        is_internal: declaration.is_internal,
        is_private: declaration.is_private,
        is_generated: declaration.is_hidden_by_default(),
        is_unsafe: declaration.is_unsafe,
        is_partial: declaration.is_partial,
        has_value: declaration.has_value,
        source_available: declaration.source_range.is_some(),
        source_range,
        documentation_available: declaration.doc_string.is_some(),
        documentation: copy_opt_text(&declaration.doc_string),
        proof_extraction,
    }
}

/// The selection that reads exactly one layer.
pub open spec fn layer_selection(layer: DependencyLayer) -> LayerSelection {
    match layer {
        DependencyLayer::Statement => LayerSelection::Statement,
        DependencyLayer::Proof => LayerSelection::Proof,
    }
}

/// The filter narrowed to one layer.
pub fn exact_layer_filter(filter: &AnalysisFilter, layer: DependencyLayer) -> (r: AnalysisFilter)
    ensures
        same_filter(r, AnalysisFilter { layer: layer_selection(layer), ..*filter }),
{
    let mut r = copy_filter(filter);
    r.layer = match layer {
        DependencyLayer::Statement => LayerSelection::Statement,
        DependencyLayer::Proof => LayerSelection::Proof,
    };
    r
}

/// The filter narrowed to one layer that lets hidden declarations connect
/// paths.
pub fn path_layer_filter(filter: &AnalysisFilter, layer: DependencyLayer) -> (r: AnalysisFilter)
    ensures
        same_filter(r, AnalysisFilter { layer: layer_selection(layer), include_generated: true, include_infrastructure: true, ..*filter }),
{
    let mut r = exact_layer_filter(filter, layer);
    r.include_generated = true;
    r.include_infrastructure = true;
    r
}

/// The layers a lens reads: those the filter names where the layer was
/// asked for explicitly, else the proof layer for influence and bridges,
/// the statement layer for neighbours, and none for the others.
pub open spec fn lens_layers(kind: LensKind, config: LensAnalysisConfig) -> Seq<DependencyLayer> {
    if config.layer_explicit {
        match config.filter.layer {
            LayerSelection::Statement => seq![DependencyLayer::Statement],
            LayerSelection::Proof => seq![DependencyLayer::Proof],
            LayerSelection::Both => seq![DependencyLayer::Statement, DependencyLayer::Proof],
        }
    } else {
        match kind {
            LensKind::Influence | LensKind::Bridge => seq![DependencyLayer::Proof],
            LensKind::Neighbors => seq![DependencyLayer::Statement],
            _ => Seq::empty(),
        }
    }
}

/// The layers a lens reads.
pub fn layers_for(kind: LensKind, config: &LensAnalysisConfig) -> (r: Vec<DependencyLayer>)
    ensures
        r@ == lens_layers(kind, *config),
{
    let mut r: Vec<DependencyLayer> = Vec::new();
    if config.layer_explicit {
        match config.filter.layer {
            LayerSelection::Statement => r.push(DependencyLayer::Statement),
            LayerSelection::Proof => r.push(DependencyLayer::Proof),
            LayerSelection::Both => {
                r.push(DependencyLayer::Statement);
                r.push(DependencyLayer::Proof);
            },
        }
    } else {
        match kind {
            LensKind::Influence | LensKind::Bridge => r.push(DependencyLayer::Proof),
            LensKind::Neighbors => r.push(DependencyLayer::Statement),
            _ => {},
        }
    }
    proof {
        assert(r@ =~= lens_layers(kind, *config));
    }
    r
}

/// The lower-case name of a layer.
pub fn layer_name(layer: DependencyLayer) -> (r: &'static str)
    ensures
        r@ == match layer {
            DependencyLayer::Statement => "statement"@,
            DependencyLayer::Proof => "proof"@,
        },
{
    match layer {
        DependencyLayer::Statement => "statement",
        DependencyLayer::Proof => "proof",
    }
}

/// The ranking rule of a discovery lens, none for the others.
pub open spec fn ranking_ordering(lens: LensKind) -> Option<Seq<char>> {
    match lens {
        LensKind::Influence => Some("transitive reach descending, direct dependents descending, name ascending"@),
        LensKind::Bridge => Some("articulation status descending, distinct directed region pairs descending, betweenness descending, name ascending"@),
        LensKind::Neighbors => Some("existing combined similarity descending, name ascending"@),
        _ => None,
    }
}

/// The ranking rules of the requested discovery lenses, in order.
pub fn discovery_ranking_rules(requested: &Vec<LensKind>) -> (r: Vec<LensRankingRule>)
    ensures
        r@.len() <= requested@.len(),
        exists|picked: Seq<int>| #![trigger picked.len()] picked.len() == r@.len()
            && (forall|a: int, b: int| 0 <= a < b < picked.len() ==> #[trigger] picked[a] < #[trigger] picked[b])
            && (forall|i: int| 0 <= i < r@.len() ==> 0 <= #[trigger] picked[i] < requested@.len()
                && r@[i].lens == requested@[picked[i]] && ranking_ordering(r@[i].lens) == Some(r@[i].ordering@))
            && (forall|k: int| 0 <= k < requested@.len() && (#[trigger] ranking_ordering(requested@[k])) is Some
                ==> picked.contains(k)),
{
    let mut r: Vec<LensRankingRule> = Vec::new();
    let ghost mut picked: Seq<int> = Seq::empty();
    let mut k: usize = 0;
    while k < requested.len()
        invariant
            k <= requested@.len(),
            r@.len() <= k,
            picked.len() == r@.len(),
            forall|a: int, b: int| 0 <= a < b < picked.len() ==> #[trigger] picked[a] < #[trigger] picked[b],
            forall|i: int| 0 <= i < r@.len() ==> 0 <= #[trigger] picked[i] < k
                && r@[i].lens == requested@[picked[i]] && ranking_ordering(r@[i].lens) == Some(r@[i].ordering@),
            forall|j: int| 0 <= j < k && (#[trigger] ranking_ordering(requested@[j])) is Some ==> picked.contains(j),
        decreases requested@.len() - k,
    {
        let lens = requested[k];
        let ordering = match lens {
            LensKind::Influence => Some(text_from("transitive reach descending, direct dependents descending, name ascending")),
            LensKind::Bridge => Some(text_from("articulation status descending, distinct directed region pairs descending, betweenness descending, name ascending")),
            LensKind::Neighbors => Some(text_from("existing combined similarity descending, name ascending")),
            _ => None,
        };
        match ordering {
            Some(o) => {
                r.push(LensRankingRule { lens, ordering: o });
                proof {
                    let p0 = picked;
                    picked = picked.push(k as int);
                    assert forall|j: int| 0 <= j < k + 1 && (#[trigger] ranking_ordering(requested@[j])) is Some implies picked.contains(j) by {
                        if j < k {
                            let q = choose|q: int| 0 <= q < p0.len() && p0[q] == j;
                            assert(picked[q] == j);
                        } else {
                            assert(picked[p0.len() as int] == j);
                        }
                    }
                }
            },
            None => {},
        }
        k = k + 1;
    }
    r
}

/// How graph regions are found and named.
pub fn graph_region_algorithm() -> (r: &'static str)
    ensures
        r@ == "deterministic synchronous label propagation; region ids are assigned by sorted complete member lists"@,
{
    "deterministic synchronous label propagation; region ids are assigned by sorted complete member lists"
}


/// Discovery never runs the proof or trust lens; an inspection with every
/// lens runs all five.
pub proof fn lemma_discovery_leaves_out_targeted_lenses(lens: LensKind)
    requires
        lens != LensKind::Proof,
        lens != LensKind::Trust,
    ensures
        !expanded(lens, true).contains(LensKind::Proof),
        !expanded(lens, true).contains(LensKind::Trust),
        expanded(LensKind::All, false)
            == seq![LensKind::Influence, LensKind::Bridge, LensKind::Neighbors, LensKind::Proof, LensKind::Trust],
{
    assert(expanded(LensKind::All, true) =~= seq![LensKind::Influence, LensKind::Bridge, LensKind::Neighbors]);
}

} // verus!
