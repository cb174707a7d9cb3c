//! Dependency analyses over the corpus: direct dependencies and dependents,
//! traversals, shortest paths, shared dependencies and graph structure.
use vstd::prelude::*;
use crate::analysis::corpus::{
    declaration_known, edge_describes, edge_matches_symbol_metadata, edge_selected, edges_describe,
    increasing, AnalysisCorpus, DependencyEdge,
};
use crate::validation::symbol_known;
use crate::analysis::filters::{
    copy_filter, default_filter_spec, layer_rank, same_filter, AnalysisFilter, DependencyLayer,
};
use crate::model::ExtractionSnapshot;
use crate::analysis::proof_steps::{count_true, lemma_count_true_set};
use crate::sorting::{sort_ranked, ranked_sorted, Ranked};
use crate::strings::{
    compare_text, copy_opt_text, copy_text, lemma_text_lt_transitive, lemma_text_lt_trichotomy,
    opt_view, text_eq, text_from, text_lt, texts_view, Order,
};
use crate::tally::{count_of, tally_add, tally_count, tally_has, tally_sorted};
use crate::analysis::corpus::matching_declaration_ids;
use crate::analysis::filters::filter_matches_declaration;
use crate::analysis::graph::{
    arc, articulation_and_bridges, component_ids, components_disjoint, components_cover, in_some_component, rooted, components_of, tarjan_components, insert_unique, linked, rows_in_range, rows_within,
    symmetric, undirected_graph,
};
use crate::ordering::{
    components_sorted, names_sorted, pair_view, pairs_sorted, pairs_view, sort_components, sort_names, sort_pairs,
};
use crate::strings::text_less;
use crate::tally::{lemma_count_of_absent, lemma_count_of_entry};

verus! {


/// The settings of a dependency analysis.
#[derive(Clone, Debug)]
pub struct DependencyConfig {
    pub filter: AnalysisFilter,
    pub weighted: bool,
    pub max_depth: usize,
    pub limit: usize,
}

impl Default for DependencyConfig {
    fn default() -> (r: Self)
        ensures
            default_filter_spec(r.filter),
            !r.weighted,
            r.max_depth == 32,
            r.limit == 1000,
    {
        DependencyConfig { filter: AnalysisFilter::default(), weighted: false, max_depth: 32, limit: 1000 }
    }
}

/// Two configurations ask for the same analysis.
pub open spec fn same_config(a: DependencyConfig, b: DependencyConfig) -> bool {
    &&& same_filter(a.filter, b.filter)
    &&& a.weighted == b.weighted
    &&& a.max_depth == b.max_depth
    &&& a.limit == b.limit
}

/// A copy of the configuration.
pub fn copy_config(c: &DependencyConfig) -> (r: DependencyConfig)
    ensures
        same_config(r, *c),
{
    DependencyConfig { filter: copy_filter(&c.filter), weighted: c.weighted, max_depth: c.max_depth, limit: c.limit }
}

/// One dependency edge with the names and metadata of both ends.
#[derive(Clone, Debug)]
pub struct DependencyRecord {
    pub source: String,
    pub target: String,
    pub layer: DependencyLayer,
    pub occurrences: usize,
    pub target_in_corpus: bool,
    pub source_module: Option<String>,
    pub source_kind: String,
    pub target_module: Option<String>,
    pub target_kind: String,
    pub target_is_class: bool,
    pub target_is_instance: bool,
    pub target_is_projection: bool,
}

/// The record describes the edge of the snapshot.
pub open spec fn record_describes(s: ExtractionSnapshot, e: DependencyEdge, r: DependencyRecord) -> bool {
    let d = s.declarations@[e.source as int];
    &&& r.source@ == d.name@
    &&& r.target@ == e.target@
    &&& r.layer == e.layer
    &&& r.occurrences == e.occurrences
    &&& r.target_in_corpus == e.target_in_corpus
    &&& opt_view(&r.source_module) == opt_view(&e.source_module)
    &&& r.source_kind@ == d.kind@
    &&& opt_view(&r.target_module) == opt_view(&e.target_module)
    &&& r.target_kind@ == e.target_kind@
    &&& r.target_is_class == e.target_is_class
    &&& r.target_is_instance == e.target_is_instance
    &&& r.target_is_projection == e.target_is_projection
}

/// The record of an edge.
fn record(corpus: &AnalysisCorpus, edge: &DependencyEdge) -> (r: DependencyRecord)
    requires
        edge.source < corpus.snapshot_view().declarations@.len(),
    ensures
        record_describes(corpus.snapshot_view(), *edge, r),
{
    let declaration = &corpus.declarations()[edge.source];
    DependencyRecord {
        source: copy_text(&declaration.name),
        target: copy_text(&edge.target),
        layer: edge.layer,
        occurrences: edge.occurrences,
        target_in_corpus: edge.target_in_corpus,
        source_module: copy_opt_text(&edge.source_module),
        source_kind: copy_text(&declaration.kind),
        target_module: copy_opt_text(&edge.target_module),
        target_kind: copy_text(&edge.target_kind),
        target_is_class: edge.target_is_class,
        target_is_instance: edge.target_is_instance,
        target_is_projection: edge.target_is_projection,
    }
}

/// The dependencies of one declaration (forward) or the dependents of one
/// symbol (reverse), with occurrence totals by module and by kind.
#[derive(Clone, Debug)]
pub struct DependencySummary {
    pub declaration: String,
    pub direction: String,
    pub config: DependencyConfig,
    pub truncated: bool,
    pub occurrences_by_module: Vec<(String, usize)>,
    pub occurrences_by_kind: Vec<(String, usize)>,
    pub edges: Vec<DependencyRecord>,
}

/// The module a summary files the record under: its target's for a forward
/// summary, its source's for a reverse one; `<unknown>` where there is none.
pub open spec fn summary_module(r: DependencyRecord, reverse: bool) -> Seq<char> {
    let m = if reverse { opt_view(&r.source_module) } else { opt_view(&r.target_module) };
    match m {
        Some(v) => v,
        None => "<unknown>"@,
    }
}

/// The kind a summary files the record under.
pub open spec fn summary_kind(r: DependencyRecord, reverse: bool) -> Seq<char> {
    if reverse { r.source_kind@ } else { r.target_kind@ }
}

/// The occurrences of the records filed under module `name`.
pub open spec fn module_total(records: Seq<DependencyRecord>, reverse: bool, name: Seq<char>) -> nat
    decreases records.len(),
{
    if records.len() == 0 {
        0
    } else {
        module_total(records.drop_last(), reverse, name) + if summary_module(records.last(), reverse) == name {
            records.last().occurrences as nat
        } else {
            0nat
        }
    }
}

/// The occurrences of the records filed under kind `name`.
pub open spec fn kind_total(records: Seq<DependencyRecord>, reverse: bool, name: Seq<char>) -> nat
    decreases records.len(),
{
    if records.len() == 0 {
        0
    } else {
        kind_total(records.drop_last(), reverse, name) + if summary_kind(records.last(), reverse) == name {
            records.last().occurrences as nat
        } else {
            0nat
        }
    }
}

/// `n`, or the largest machine word where `n` exceeds it.
pub open spec fn capped(n: nat) -> nat {
    if n > usize::MAX { usize::MAX as nat } else { n }
}

/// The summary reports the records: the first `limit` of them, whether more
/// were left out, and (saturating) occurrence totals over all of them.
pub open spec fn summarizes(
    sm: DependencySummary,
    declaration: Seq<char>,
    reverse: bool,
    config: DependencyConfig,
    records: Seq<DependencyRecord>,
) -> bool {
    &&& sm.declaration@ == declaration
    &&& sm.direction@ == if reverse { "reverse"@ } else { "forward"@ }
    &&& same_config(sm.config, config)
    &&& sm.truncated == (records.len() > config.limit)
    &&& sm.edges@ == if records.len() > config.limit { records.take(config.limit as int) } else { records }
    &&& tally_sorted(sm.occurrences_by_module@)
    &&& tally_sorted(sm.occurrences_by_kind@)
    &&& forall|name: Seq<char>| #[trigger] tally_has(sm.occurrences_by_module@, name)
        <==> exists|k: int| 0 <= k < records.len() && summary_module(#[trigger] records[k], reverse) == name
    &&& forall|name: Seq<char>| #[trigger] tally_has(sm.occurrences_by_kind@, name)
        <==> exists|k: int| 0 <= k < records.len() && summary_kind(#[trigger] records[k], reverse) == name
    &&& forall|name: Seq<char>| #[trigger] count_of(sm.occurrences_by_module@, name) == capped(module_total(records, reverse, name))
    &&& forall|name: Seq<char>| #[trigger] count_of(sm.occurrences_by_kind@, name) == capped(kind_total(records, reverse, name))
}

/// The occurrences of the records whose source declaration has kind `name`.
pub open spec fn source_kind_occurrences(records: Seq<DependencyRecord>, name: Seq<char>) -> nat
    decreases records.len(),
{
    if records.len() == 0 {
        0
    } else {
        source_kind_occurrences(records.drop_last(), name)
            + if records.last().source_kind@ == name { records.last().occurrences as nat } else { 0nat }
    }
}

/// The occurrences of the records whose target symbol has kind `name`.
pub open spec fn target_kind_occurrences(records: Seq<DependencyRecord>, name: Seq<char>) -> nat
    decreases records.len(),
{
    if records.len() == 0 {
        0
    } else {
        target_kind_occurrences(records.drop_last(), name)
            + if records.last().target_kind@ == name { records.last().occurrences as nat } else { 0nat }
    }
}

/// The occurrences of the records whose source declaration lies in module
/// `name` (`<unknown>` for none).
pub open spec fn source_module_occurrences(records: Seq<DependencyRecord>, name: Seq<char>) -> nat
    decreases records.len(),
{
    if records.len() == 0 {
        0
    } else {
        source_module_occurrences(records.drop_last(), name) + if (match opt_view(&records.last().source_module) {
            Some(m) => m,
            None => "<unknown>"@,
        }) == name { records.last().occurrences as nat } else { 0nat }
    }
}

/// The occurrences of the records whose target symbol lies in module `name`
/// (`<unknown>` for none).
pub open spec fn target_module_occurrences(records: Seq<DependencyRecord>, name: Seq<char>) -> nat
    decreases records.len(),
{
    if records.len() == 0 {
        0
    } else {
        target_module_occurrences(records.drop_last(), name) + if (match opt_view(&records.last().target_module) {
            Some(m) => m,
            None => "<unknown>"@,
        }) == name { records.last().occurrences as nat } else { 0nat }
    }
}

proof fn lemma_totals_by_side(records: Seq<DependencyRecord>, name: Seq<char>)
    ensures
        kind_total(records, true, name) == source_kind_occurrences(records, name),
        kind_total(records, false, name) == target_kind_occurrences(records, name),
        module_total(records, true, name) == source_module_occurrences(records, name),
        module_total(records, false, name) == target_module_occurrences(records, name),
    decreases records.len(),
{
    if records.len() > 0 {
        lemma_totals_by_side(records.drop_last(), name);
    }
}

/// A summary of dependents (reverse) totals the occurrences of its records
/// by the kind and module of each source, the declaration that depends; a
/// summary of dependencies (forward) by the kind and module of each target.
/// Each total saturates at the largest machine word, and a kind or module is
/// listed exactly when some record falls under it.
pub proof fn lemma_summary_sides(sm: DependencySummary, declaration: Seq<char>, reverse: bool, config: DependencyConfig,
    records: Seq<DependencyRecord>)
    requires
        summarizes(sm, declaration, reverse, config, records),
    ensures
        reverse ==> forall|name: Seq<char>| #[trigger] count_of(sm.occurrences_by_kind@, name) == capped(source_kind_occurrences(records, name)),
        !reverse ==> forall|name: Seq<char>| #[trigger] count_of(sm.occurrences_by_kind@, name) == capped(target_kind_occurrences(records, name)),
        reverse ==> forall|name: Seq<char>| #[trigger] count_of(sm.occurrences_by_module@, name) == capped(source_module_occurrences(records, name)),
        !reverse ==> forall|name: Seq<char>| #[trigger] count_of(sm.occurrences_by_module@, name) == capped(target_module_occurrences(records, name)),
        reverse ==> forall|name: Seq<char>| #[trigger] tally_has(sm.occurrences_by_kind@, name)
            <==> exists|k: int| 0 <= k < records.len() && (#[trigger] records[k]).source_kind@ == name,
        !reverse ==> forall|name: Seq<char>| #[trigger] tally_has(sm.occurrences_by_kind@, name)
            <==> exists|k: int| 0 <= k < records.len() && (#[trigger] records[k]).target_kind@ == name,
{
    assert forall|name: Seq<char>| #[trigger] count_of(sm.occurrences_by_kind@, name)
        == capped(if reverse { source_kind_occurrences(records, name) } else { target_kind_occurrences(records, name) }) by {
        lemma_totals_by_side(records, name);
    }
    assert forall|name: Seq<char>| #[trigger] count_of(sm.occurrences_by_module@, name)
        == capped(if reverse { source_module_occurrences(records, name) } else { target_module_occurrences(records, name) }) by {
        lemma_totals_by_side(records, name);
    }
    assert forall|name: Seq<char>| #[trigger] tally_has(sm.occurrences_by_kind@, name)
        <==> exists|k: int| 0 <= k < records.len() && (if reverse { (#[trigger] records[k]).source_kind@ } else { records[k].target_kind@ }) == name by {
        if tally_has(sm.occurrences_by_kind@, name) {
            let k = choose|k: int| 0 <= k < records.len() && summary_kind(#[trigger] records[k], reverse) == name;
        }
        if exists|k: int| 0 <= k < records.len() && (if reverse { (#[trigger] records[k]).source_kind@ } else { records[k].target_kind@ }) == name {
            let k = choose|k: int| 0 <= k < records.len() && (if reverse { (#[trigger] records[k]).source_kind@ } else { records[k].target_kind@ }) == name;
            assert(summary_kind(records[k], reverse) == name);
        }
    }
}

/// Adds `amount` to the count of `name`, saturating at the largest word.
fn tally_add_capped(r: &mut Vec<(String, usize)>, name: &str, amount: usize)
    requires
        tally_sorted(old(r)@),
    ensures
        tally_sorted(final(r)@),
        forall|n: Seq<char>| #[trigger] tally_has(final(r)@, n) <==> (tally_has(old(r)@, n) || n == name@),
        forall|n: Seq<char>| #[trigger] count_of(final(r)@, n) == if n == name@ {
            capped(count_of(old(r)@, n) + amount as nat)
        } else {
            count_of(old(r)@, n)
        },
{
    let current = tally_count(r, name);
    let add = if amount <= usize::MAX - current { amount } else { usize::MAX - current };
    tally_add(r, name, add);
}

/// Summarizes records in the given direction.
fn dependency_summary(
    declaration: &str,
    reverse: bool,
    config: &DependencyConfig,
    edges: Vec<DependencyRecord>,
) -> (r: DependencySummary)
    ensures
        summarizes(r, declaration@, reverse, *config, edges@),
{
    let ghost records = edges@;
    let mut by_module: Vec<(String, usize)> = Vec::new();
    let mut by_kind: Vec<(String, usize)> = Vec::new();
    let mut i: usize = 0;
    while i < edges.len()
        invariant
            records == edges@,
            i <= records.len(),
            tally_sorted(by_module@),
            tally_sorted(by_kind@),
            forall|name: Seq<char>| #[trigger] tally_has(by_module@, name)
                <==> exists|k: int| 0 <= k < i && summary_module(#[trigger] records[k], reverse) == name,
            forall|name: Seq<char>| #[trigger] tally_has(by_kind@, name)
                <==> exists|k: int| 0 <= k < i && summary_kind(#[trigger] records[k], reverse) == name,
            forall|name: Seq<char>| #[trigger] count_of(by_module@, name) == capped(module_total(records.take(i as int), reverse, name)),
            forall|name: Seq<char>| #[trigger] count_of(by_kind@, name) == capped(kind_total(records.take(i as int), reverse, name)),
        decreases records.len() - i,
    {
        let edge = &edges[i];
        let module = if reverse { &edge.source_module } else { &edge.target_module };
        let module_name = match module {
            Some(m) => m.as_str(),
            None => "<unknown>",
        };
        let kind_name = if reverse { edge.source_kind.as_str() } else { edge.target_kind.as_str() };
        proof {
            assert(module_name@ == summary_module(records[i as int], reverse));
            assert(records.take(i + 1).drop_last() == records.take(i as int));
            assert(records.take(i + 1).last() == records[i as int]);
        }
        tally_add_capped(&mut by_module, module_name, edge.occurrences);
        tally_add_capped(&mut by_kind, kind_name, edge.occurrences);
        proof {
            assert forall|name: Seq<char>| #[trigger] tally_has(by_module@, name)
                <==> exists|k: int| 0 <= k < i + 1 && summary_module(#[trigger] records[k], reverse) == name by {
                if name == module_name@ {
                    assert(summary_module(records[i as int], reverse) == name);
                }
            }
            assert forall|name: Seq<char>| #[trigger] tally_has(by_kind@, name)
                <==> exists|k: int| 0 <= k < i + 1 && summary_kind(#[trigger] records[k], reverse) == name by {
                if name == kind_name@ {
                    assert(summary_kind(records[i as int], reverse) == name);
                }
            }
        }
        i = i + 1;
    }
    proof {
        assert(records.take(i as int) == records);
    }
    let truncated = edges.len() > config.limit;
    let mut edges = edges;
    edges.truncate(config.limit);
    DependencySummary {
        declaration: text_from(declaration),
        direction: if reverse { text_from("reverse") } else { text_from("forward") },
        config: copy_config(config),
        truncated,
        occurrences_by_module: by_module,
        occurrences_by_kind: by_kind,
        edges,
    }
}


/// The name an edge is listed by: its target forward, its source's name in reverse.
pub open spec fn listing_name(s: ExtractionSnapshot, e: DependencyEdge, reverse: bool) -> Seq<char> {
    if reverse { s.declarations@[e.source as int].name@ } else { e.target@ }
}

/// Edge `a` is listed before edge `b`: by name, then statement before proof.
pub open spec fn listed_before(s: ExtractionSnapshot, a: DependencyEdge, b: DependencyEdge, reverse: bool) -> bool {
    text_lt(listing_name(s, a, reverse), listing_name(s, b, reverse)) || (listing_name(s, a, reverse)
        == listing_name(s, b, reverse) && layer_rank(a.layer) < layer_rank(b.layer))
}

/// An edge id with the name and layer it is listed by.
struct KeyedEdge {
    name: String,
    rank: u8,
    id: usize,
}

impl Ranked for KeyedEdge {
    closed spec fn rank_lt(self, other: Self) -> bool {
        text_lt(self.name@, other.name@) || (self.name@ == other.name@ && self.rank < other.rank)
    }

    fn precedes(&self, other: &Self) -> (r: bool) {
        match compare_text(self.name.as_str(), other.name.as_str()) {
            Order::Less => true,
            Order::Equal => self.rank < other.rank,
            Order::Greater => false,
        }
    }

    proof fn lemma_rank_order(a: Self, b: Self, c: Self) {
        lemma_text_lt_trichotomy(a.name@, b.name@);
        lemma_text_lt_trichotomy(b.name@, c.name@);
        lemma_text_lt_trichotomy(a.name@, c.name@);
        if text_lt(a.name@, b.name@) && text_lt(b.name@, c.name@) {
            lemma_text_lt_transitive(a.name@, b.name@, c.name@);
        }
        if text_lt(c.name@, b.name@) && text_lt(b.name@, a.name@) {
            lemma_text_lt_transitive(c.name@, b.name@, a.name@);
        }
    }
}

/// The layer's position in listing order.
fn layer_position(layer: DependencyLayer) -> (r: u8)
    ensures
        r == layer_rank(layer),
{
    match layer {
        DependencyLayer::Statement => 0,
        DependencyLayer::Proof => 1,
    }
}

/// The edge ids, in listing order.
fn sort_edge_ids(corpus: &AnalysisCorpus, ids: &Vec<usize>, reverse: bool) -> (r: Vec<usize>)
    requires
        forall|k: int| 0 <= k < ids@.len() ==> #[trigger] ids@[k] < corpus.edges_view().len(),
        ids@.no_duplicates(),
    ensures
        r@.len() == ids@.len(),
        r@.no_duplicates(),
        forall|k: int| 0 <= k < r@.len() ==> ids@.contains(#[trigger] r@[k]),
        forall|k: int| 0 <= k < ids@.len() ==> r@.contains(#[trigger] ids@[k]),
        forall|i: int, j: int| 0 <= i < j < r@.len() ==> !listed_before(
            corpus.snapshot_view(),
            corpus.edges_view()[#[trigger] r@[j] as int],
            corpus.edges_view()[#[trigger] r@[i] as int],
            reverse,
        ),
{
    let edges = corpus.edges();
    let declarations = corpus.declarations();
    let ghost s = corpus.snapshot_view();
    proof {
        assert(edges_describe(s, edges@));
    }
    let mut keyed: Vec<KeyedEdge> = Vec::new();
    let mut k: usize = 0;
    while k < ids.len()
        invariant
            edges@ == corpus.edges_view(),
            declarations@ == s.declarations@,
            edges_describe(s, edges@),
            forall|j: int| 0 <= j < ids@.len() ==> #[trigger] ids@[j] < edges@.len(),
            k <= ids@.len(),
            keyed@.len() == k,
            forall|j: int| 0 <= j < k ==> {
                let x = #[trigger] keyed@[j];
                &&& x.id == ids@[j]
                &&& x.name@ == listing_name(s, edges@[ids@[j] as int], reverse)
                &&& x.rank == layer_rank(edges@[ids@[j] as int].layer)
            },
        decreases ids@.len() - k,
    {
        let edge = &edges[ids[k]];
        let name = if reverse {
            proof {
                assert(edge_describes_source(s, edges@, ids@[k as int] as int));
            }
            copy_text(&declarations[edge.source].name)
        } else {
            copy_text(&edge.target)
        };
        keyed.push(KeyedEdge { name, rank: layer_position(edge.layer), id: ids[k] });
        k = k + 1;
    }
    let ghost before = keyed@;
    proof {
        assert(before.no_duplicates()) by {
            assert forall|i: int, j: int| 0 <= i < before.len() && 0 <= j < before.len() && i != j implies before[i] != before[j] by {
                assert(before[i].id == ids@[i] && before[j].id == ids@[j]);
            }
        }
        before.lemma_multiset_has_no_duplicates();
    }
    let sorted = sort_ranked(keyed);
    proof {
        broadcast use vstd::seq_lib::group_to_multiset_ensures;
        sorted@.lemma_multiset_has_no_duplicates_conv();
        assert(sorted@.len() == before.len()) by {
            assert(sorted@.to_multiset().len() == before.to_multiset().len());
        }
    }
    let mut r: Vec<usize> = Vec::new();
    let mut k: usize = 0;
    while k < sorted.len()
        invariant
            k <= sorted@.len(),
            r@.len() == k,
            forall|j: int| 0 <= j < k ==> #[trigger] r@[j] == sorted@[j].id,
        decreases sorted@.len() - k,
    {
        r.push(sorted[k].id);
        k = k + 1;
    }
    proof {
        broadcast use vstd::seq_lib::group_to_multiset_ensures;
        assert forall|j: int| 0 <= j < sorted@.len() implies exists|a: int| 0 <= a < before.len() && before[a] == #[trigger] sorted@[j] by {
            assert(sorted@.to_multiset().count(sorted@[j]) > 0);
            assert(before.contains(sorted@[j]));
        }
        assert forall|k: int| 0 <= k < r@.len() implies ids@.contains(#[trigger] r@[k]) by {
            let a = choose|a: int| 0 <= a < before.len() && before[a] == sorted@[k];
            assert(ids@[a] == r@[k]);
        }
        assert forall|k: int| 0 <= k < ids@.len() implies r@.contains(#[trigger] ids@[k]) by {
            assert(before.to_multiset().count(before[k]) > 0);
            assert(sorted@.contains(before[k]));
            let b = choose|b: int| 0 <= b < sorted@.len() && sorted@[b] == before[k];
            assert(r@[b] == ids@[k]);
        }
        assert forall|i: int, j: int| 0 <= i < r@.len() && 0 <= j < r@.len() && i != j implies r@[i] != r@[j] by {
            let a = choose|a: int| 0 <= a < before.len() && before[a] == sorted@[i];
            let b = choose|b: int| 0 <= b < before.len() && before[b] == sorted@[j];
            if r@[i] == r@[j] {
                assert(ids@[a] == ids@[b]);
                assert(a == b);
                assert(sorted@[i] == sorted@[j]);
            }
        }
        assert forall|i: int, j: int| 0 <= i < j < r@.len() implies !listed_before(s, edges@[#[trigger] r@[j] as int], edges@[#[trigger] r@[i] as int], reverse) by {
            let a = choose|a: int| 0 <= a < before.len() && before[a] == sorted@[i];
            let b = choose|b: int| 0 <= b < before.len() && before[b] == sorted@[j];
            assert(!sorted@[j].rank_lt(sorted@[i]));
        }
    }
    r
}

/// The edge's source is a declaration of the snapshot.
pub open spec fn edge_describes_source(s: ExtractionSnapshot, edges: Seq<DependencyEdge>, k: int) -> bool {
    edges[k].source < s.declarations@.len()
}


/// Edge `k` is listed directly for `anchor`: it passes the filter and it
/// leaves the declaration called `anchor` (forward) or points at the symbol
/// `anchor` (reverse).
pub open spec fn direct_edge(
    s: ExtractionSnapshot,
    edges: Seq<DependencyEdge>,
    f: AnalysisFilter,
    reverse: bool,
    anchor: Seq<char>,
    k: int,
) -> bool {
    &&& 0 <= k < edges.len()
    &&& edge_selected(s, f, edges[k])
    &&& if reverse {
        edges[k].target@ == anchor
    } else {
        s.declarations@[edges[k].source as int].name@ == anchor
    }
}

/// `records` describe the edges `ids`: each direct edge for `anchor` once,
/// in listing order.
pub open spec fn direct_listing(
    s: ExtractionSnapshot,
    edges: Seq<DependencyEdge>,
    f: AnalysisFilter,
    reverse: bool,
    anchor: Seq<char>,
    ids: Seq<usize>,
    records: Seq<DependencyRecord>,
) -> bool {
    &&& ids.len() == records.len()
    &&& ids.no_duplicates()
    &&& forall|k: int| 0 <= k < ids.len() ==> direct_edge(s, edges, f, reverse, anchor, #[trigger] ids[k] as int)
        && record_describes(s, edges[ids[k] as int], records[k])
    &&& forall|k: int| #[trigger] direct_edge(s, edges, f, reverse, anchor, k) ==> ids.contains(k as usize)
    &&& forall|i: int, j: int| 0 <= i < j < ids.len() ==> !listed_before(s, edges[#[trigger] ids[j] as int], edges[#[trigger] ids[i] as int], reverse)
}

/// `records` list each direct edge for `anchor` once, in listing order.
pub open spec fn lists_direct(
    s: ExtractionSnapshot,
    edges: Seq<DependencyEdge>,
    f: AnalysisFilter,
    reverse: bool,
    anchor: Seq<char>,
    records: Seq<DependencyRecord>,
) -> bool {
    exists|ids: Seq<usize>| #[trigger] direct_listing(s, edges, f, reverse, anchor, ids, records)
}

impl AnalysisCorpus {
    /// Keeps the ids of the edges the filter admits, in order.
    fn select_edge_ids(&self, ids: &[usize], filter: &AnalysisFilter) -> (r: Vec<usize>)
        requires
            forall|k: int| 0 <= k < ids@.len() ==> #[trigger] ids@[k] < self.edges_view().len(),
            increasing(ids@),
        ensures
            increasing(r@),
            forall|k: int| 0 <= k < r@.len() ==> ids@.contains(#[trigger] r@[k])
                && edge_selected(self.snapshot_view(), *filter, self.edges_view()[r@[k] as int]),
            forall|k: int| 0 <= k < ids@.len() && edge_selected(self.snapshot_view(), *filter, self.edges_view()[#[trigger] ids@[k] as int])
                ==> r@.contains(ids@[k]),
    {
        proof {
            use_type_invariant(self);
        }
        let edges = self.edges();
        let mut r: Vec<usize> = Vec::new();
        let mut k: usize = 0;
        while k < ids.len()
            invariant
                edges@ == self.edges_view(),
                edges_describe(self.snapshot_view(), edges@),
                forall|j: int| 0 <= j < ids@.len() ==> #[trigger] ids@[j] < edges@.len(),
                increasing(ids@),
                k <= ids@.len(),
                increasing(r@),
                forall|j: int| 0 <= j < r@.len() ==> exists|a: int| 0 <= a < k && ids@[a] == #[trigger] r@[j],
                forall|j: int| 0 <= j < r@.len() ==> edge_selected(self.snapshot_view(), *filter, edges@[#[trigger] r@[j] as int]),
                forall|j: int| 0 <= j < k && edge_selected(self.snapshot_view(), *filter, edges@[#[trigger] ids@[j] as int])
                    ==> r@.contains(ids@[j]),
            decreases ids@.len() - k,
        {
            let edge = &edges[ids[k]];
            proof {
                assert(edge_describes(self.snapshot_view(), *edge));
                let y = choose|y: int| 0 <= y < self.snapshot_view().symbols@.len()
                    && edge_matches_symbol_metadata(*edge, #[trigger] self.snapshot_view().symbols@[y]);
                assert(self.snapshot_view().symbols@[y].name@ == edge.target@);
            }
            if self.edge_matches(edge, filter) {
                let ghost before = r@;
                r.push(ids[k]);
                proof {
                    assert forall|i: int, j: int| 0 <= i < j < r@.len() implies #[trigger] r@[i] < #[trigger] r@[j] by {
                        if j == r@.len() - 1 {
                            let a = choose|a: int| 0 <= a < k && ids@[a] == before[i];
                            assert(ids@[a] < ids@[k as int]);
                        }
                    }
                    assert forall|j: int| 0 <= j < k + 1 && edge_selected(self.snapshot_view(), *filter, edges@[#[trigger] ids@[j] as int])
                        implies r@.contains(ids@[j]) by {
                        if j < k {
                            let b = choose|b: int| 0 <= b < before.len() && before[b] == ids@[j];
                            assert(r@[b] == ids@[j]);
                        } else {
                            assert(r@[before.len() as int] == ids@[j]);
                        }
                    }
                    assert forall|j: int| 0 <= j < r@.len() implies exists|a: int| 0 <= a < k + 1 && ids@[a] == #[trigger] r@[j] by {
                        if j == r@.len() - 1 {
                            assert(ids@[k as int] == r@[j]);
                        } else {
                            assert(r@[j] == before[j]);
                        }
                    }
                }
            }
            k = k + 1;
        }
        proof {
            assert forall|j: int| 0 <= j < r@.len() implies ids@.contains(#[trigger] r@[j]) by {
                let a = choose|a: int| 0 <= a < k && ids@[a] == r@[j];
            }
        }
        r
    }

    /// The records of the edges, in the given order.
    fn records_of(&self, ids: &Vec<usize>) -> (r: Vec<DependencyRecord>)
        requires
            forall|k: int| 0 <= k < ids@.len() ==> #[trigger] ids@[k] < self.edges_view().len(),
        ensures
            r@.len() == ids@.len(),
            forall|k: int| 0 <= k < ids@.len() ==> record_describes(self.snapshot_view(), self.edges_view()[#[trigger] ids@[k] as int], r@[k]),
    {
        proof {
            use_type_invariant(self);
        }
        let edges = self.edges();
        let mut r: Vec<DependencyRecord> = Vec::new();
        let mut k: usize = 0;
        while k < ids.len()
            invariant
                edges@ == self.edges_view(),
                edges_describe(self.snapshot_view(), edges@),
                forall|j: int| 0 <= j < ids@.len() ==> #[trigger] ids@[j] < edges@.len(),
                k <= ids@.len(),
                r@.len() == k,
                forall|j: int| 0 <= j < k ==> record_describes(self.snapshot_view(), edges@[#[trigger] ids@[j] as int], r@[j]),
            decreases ids@.len() - k,
        {
            let edge = &edges[ids[k]];
            proof {
                assert(edge_describes(self.snapshot_view(), *edge));
            }
            r.push(record(self, edge));
            k = k + 1;
        }
        r
    }

    /// The records of the direct edges for `anchor` among `pool`, in listing order.
    fn direct_records(
        &self,
        pool: &[usize],
        filter: &AnalysisFilter,
        reverse: bool,
        anchor: Ghost<Seq<char>>,
    ) -> (r: Vec<DependencyRecord>)
        requires
            forall|k: int| 0 <= k < pool@.len() ==> #[trigger] pool@[k] < self.edges_view().len(),
            increasing(pool@),
            forall|k: int| 0 <= k < pool@.len() ==> if reverse {
                self.edges_view()[#[trigger] pool@[k] as int].target@ == anchor@
            } else {
                self.snapshot_view().declarations@[self.edges_view()[#[trigger] pool@[k] as int].source as int].name@ == anchor@
            },
            forall|k: int| #[trigger] direct_edge(self.snapshot_view(), self.edges_view(), *filter, reverse, anchor@, k)
                ==> pool@.contains(k as usize),
        ensures
            lists_direct(self.snapshot_view(), self.edges_view(), *filter, reverse, anchor@, r@),
    {
        let ghost s = self.snapshot_view();
        let ghost edges = self.edges_view();
        let total = self.edges().len();
        let selected = self.select_edge_ids(pool, filter);
        proof {
            assert(selected@.no_duplicates()) by {
                assert forall|i: int, j: int| 0 <= i < selected@.len() && 0 <= j < selected@.len() && i != j
                    implies selected@[i] != selected@[j] by {
                    if i < j {
                        assert(selected@[i] < selected@[j]);
                    } else {
                        assert(selected@[j] < selected@[i]);
                    }
                }
            }
            assert forall|k: int| 0 <= k < selected@.len() implies #[trigger] selected@[k] < edges.len() by {
                assert(pool@.contains(selected@[k]));
            }
        }
        let ordered = sort_edge_ids(self, &selected, reverse);
        let records = self.records_of(&ordered);
        proof {
            assert forall|k: int| #[trigger] direct_edge(s, edges, *filter, reverse, anchor@, k) implies ordered@.contains(k as usize) by {
                assert(pool@.contains(k as usize));
                let a = choose|a: int| 0 <= a < pool@.len() && pool@[a] == k as usize;
                assert(k < total);
                assert(pool@[a] as int == k);
                assert(edge_selected(s, *filter, edges[pool@[a] as int]));
                assert(selected@.contains(pool@[a]));
                let b = choose|b: int| 0 <= b < selected@.len() && selected@[b] == k as usize;
                assert(ordered@.contains(selected@[b]));
            }
            assert forall|k: int| 0 <= k < ordered@.len() implies direct_edge(s, edges, *filter, reverse, anchor@, #[trigger] ordered@[k] as int)
                && record_describes(s, edges[ordered@[k] as int], records@[k]) by {
                assert(selected@.contains(ordered@[k]));
                let b = choose|b: int| 0 <= b < selected@.len() && selected@[b] == ordered@[k];
                assert(pool@.contains(selected@[b]));
                let a = choose|a: int| 0 <= a < pool@.len() && pool@[a] == selected@[b];
            }
            assert(direct_listing(s, edges, *filter, reverse, anchor@, ordered@, records@));
        }
        records
    }

    /// The dependencies of the declaration called `name` that the filter
    /// admits, ordered by target and layer; `None` where no declaration has
    /// that name.
    pub fn direct_dependencies(&self, name: &str, config: &DependencyConfig) -> (r: Option<DependencySummary>)
        ensures
            r is None <==> !declaration_known(self.snapshot_view(), name@),
            r matches Some(sm) ==> exists|records: Seq<DependencyRecord>|
                lists_direct(self.snapshot_view(), self.edges_view(), config.filter, false, name@, records)
                    && #[trigger] summarizes(sm, name@, false, *config, records),
    {
        let id = match self.declaration_id(name) {
            Some(i) => i,
            None => {
                return None;
            },
        };
        let outgoing = self.outgoing_edge_ids(id);
        proof {
            use_type_invariant(self);
            let s = self.snapshot_view();
            let edges = self.edges_view();
            assert forall|k: int| #[trigger] direct_edge(s, edges, config.filter, false, name@, k) implies outgoing@.contains(k as usize) by {
                let src = edges[k].source as int;
                if src != id {
                    if src < id {
                        assert(s.declarations@[src].name@ != s.declarations@[id as int].name@);
                    } else {
                        assert(s.declarations@[id as int].name@ != s.declarations@[src].name@);
                    }
                }
            }
        }
        let records = self.direct_records(outgoing, &config.filter, false, Ghost(name@));
        Some(dependency_summary(name, false, config, records))
    }

    /// The edges that point at the symbol `name` and that the filter admits,
    /// ordered by source name and layer; `None` where no symbol has that name.
    pub fn direct_dependents(&self, name: &str, config: &DependencyConfig) -> (r: Option<DependencySummary>)
        ensures
            r is None <==> !symbol_known(self.snapshot_view(), name@),
            r matches Some(sm) ==> exists|records: Seq<DependencyRecord>|
                lists_direct(self.snapshot_view(), self.edges_view(), config.filter, true, name@, records)
                    && #[trigger] summarizes(sm, name@, true, *config, records),
    {
        if self.symbol(name).is_none() {
            return None;
        }
        let incoming = self.incoming_edge_ids(name);
        let records = self.direct_records(incoming, &config.filter, true, Ghost(name@));
        Some(dependency_summary(name, true, config, records))
    }
}


/// One node reached by a traversal.
#[derive(Clone, Debug)]
pub struct TraversalNode {
    pub name: String,
    pub depth: usize,
    pub path_weight: usize,
}

/// The nodes a traversal reached from `start`, in breadth-first order.
#[derive(Clone, Debug)]
pub struct TraversalResult {
    pub start: String,
    pub direction: String,
    pub config: DependencyConfig,
    pub truncated: bool,
    pub nodes: Vec<TraversalNode>,
}

/// A filtered edge leads from `from` to `to` with weight `w`: from a
/// declaration to its dependency forward, from a symbol to a declaration
/// that uses it in reverse.
pub open spec fn traversal_step(
    s: ExtractionSnapshot,
    edges: Seq<DependencyEdge>,
    f: AnalysisFilter,
    reverse: bool,
    from: Seq<char>,
    to: Seq<char>,
    w: usize,
) -> bool {
    exists|k: int| 0 <= k < edges.len() && #[trigger] edge_selected(s, f, edges[k]) && edges[k].occurrences == w && if reverse {
        edges[k].target@ == from && s.declarations@[edges[k].source as int].name@ == to
    } else {
        s.declarations@[edges[k].source as int].name@ == from && edges[k].target@ == to
    }
}

/// `a + b`, or the largest word where it exceeds one.
pub open spec fn saturating_sum(a: usize, b: usize) -> usize {
    if a + b > usize::MAX { usize::MAX } else { (a + b) as usize }
}

/// Node `i` is reached by one step from the start (at depth 0, weight 0) or
/// from an earlier node, one level deeper and heavier by the step's weight.
pub open spec fn node_reached(
    s: ExtractionSnapshot,
    edges: Seq<DependencyEdge>,
    f: AnalysisFilter,
    reverse: bool,
    start: Seq<char>,
    nodes: Seq<TraversalNode>,
    i: int,
) -> bool {
    ||| (nodes[i].depth == 1 && traversal_step(s, edges, f, reverse, start, nodes[i].name@, nodes[i].path_weight))
    ||| exists|j: int, w: usize| 0 <= j < i && nodes[j].depth + 1 == nodes[i].depth
        && #[trigger] traversal_step(s, edges, f, reverse, nodes[j].name@, nodes[i].name@, w)
        && nodes[i].path_weight == saturating_sum(nodes[j].path_weight, w)
}

/// `y` is one filtered step within the depth limit from the start or from
/// a listed node other than the last, yet is neither the start nor listed:
/// the breadth-first search had reached it when the listing stopped.
pub open spec fn unlisted_frontier(s: ExtractionSnapshot, edges: Seq<DependencyEdge>, config: DependencyConfig, reverse: bool,
    start: Seq<char>, nodes: Seq<TraversalNode>, y: Seq<char>) -> bool {
    &&& y != start
    &&& forall|i: int| 0 <= i < nodes.len() ==> (#[trigger] nodes[i]).name@ != y
    &&& ((0 < config.max_depth && step_link(s, edges, config.filter, reverse, start, y))
        || exists|i: int| 0 <= i < nodes.len() - 1 && (#[trigger] nodes[i]).depth < config.max_depth
            && step_link(s, edges, config.filter, reverse, nodes[i].name@, y))
}

/// What every traversal result satisfies: at most `limit` distinct nodes
/// other than the start, in nondecreasing depth no deeper than `max_depth`,
/// each reached by a filtered edge from the start or an earlier node.
pub open spec fn traversal_sound(
    s: ExtractionSnapshot,
    edges: Seq<DependencyEdge>,
    config: DependencyConfig,
    reverse: bool,
    start: Seq<char>,
    nodes: Seq<TraversalNode>,
) -> bool {
    &&& nodes.len() <= config.limit
    &&& forall|i: int| 0 <= i < nodes.len() ==> (#[trigger] nodes[i]).name@ != start && 1 <= nodes[i].depth <= config.max_depth
    &&& forall|i: int, j: int| 0 <= i < j < nodes.len() ==> (#[trigger] nodes[i]).name@ != (#[trigger] nodes[j]).name@
        && nodes[i].depth <= nodes[j].depth
    &&& forall|i: int| 0 <= i < nodes.len() ==> #[trigger] node_reached(s, edges, config.filter, reverse, start, nodes, i)
}

/// A neighbour found from the current node, ordered by name, then weight.
struct NextStep {
    name: String,
    weight: usize,
    symbol: usize,
}

impl Ranked for NextStep {
    closed spec fn rank_lt(self, other: Self) -> bool {
        text_lt(self.name@, other.name@) || (self.name@ == other.name@ && self.weight < other.weight)
    }

    fn precedes(&self, other: &Self) -> (r: bool) {
        match compare_text(self.name.as_str(), other.name.as_str()) {
            Order::Less => true,
            Order::Equal => self.weight < other.weight,
            Order::Greater => false,
        }
    }

    proof fn lemma_rank_order(a: Self, b: Self, c: Self) {
        lemma_text_lt_trichotomy(a.name@, b.name@);
        lemma_text_lt_trichotomy(b.name@, c.name@);
        lemma_text_lt_trichotomy(a.name@, c.name@);
        if text_lt(a.name@, b.name@) && text_lt(b.name@, c.name@) {
            lemma_text_lt_transitive(a.name@, b.name@, c.name@);
        }
        if text_lt(c.name@, b.name@) && text_lt(b.name@, a.name@) {
            lemma_text_lt_transitive(c.name@, b.name@, a.name@);
        }
    }
}

/// The far end of an edge walked forward (its target) or in reverse (its
/// source declaration's name).
spec fn far_end(s: ExtractionSnapshot, e: DependencyEdge, reverse: bool) -> Seq<char> {
    if reverse { s.declarations@[e.source as int].name@ } else { e.target@ }
}

/// Some step leads to `name` with weight `w`.
spec fn step_listed(steps: Seq<NextStep>, name: Seq<char>, w: usize) -> bool {
    exists|i: int| 0 <= i < steps.len() && (#[trigger] steps[i]).name@ == name && steps[i].weight == w
}

/// Sorting keeps every listed step.
proof fn lemma_steps_kept(
    s: ExtractionSnapshot,
    edges: Seq<DependencyEdge>,
    f: AnalysisFilter,
    reverse: bool,
    from_name: Seq<char>,
    ids: Seq<usize>,
    before: Seq<NextStep>,
    sorted: Seq<NextStep>,
)
    requires
        edges.len() <= usize::MAX,
        sorted.to_multiset() == before.to_multiset(),
        forall|e: int| #[trigger] direct_edge(s, edges, f, reverse, from_name, e) ==> ids.contains(e as usize),
        forall|j: int| 0 <= j < ids.len() && #[trigger] direct_edge(s, edges, f, reverse, from_name, ids[j] as int)
            ==> step_listed(before, far_end(s, edges[ids[j] as int], reverse), edges[ids[j] as int].occurrences),
    ensures
        forall|e: int| #[trigger] direct_edge(s, edges, f, reverse, from_name, e)
            ==> step_listed(sorted, far_end(s, edges[e], reverse), edges[e].occurrences),
{
    assert forall|e: int| #[trigger] direct_edge(s, edges, f, reverse, from_name, e)
        implies step_listed(sorted, far_end(s, edges[e], reverse), edges[e].occurrences) by {
        broadcast use vstd::seq_lib::group_to_multiset_ensures;
        assert(ids.contains(e as usize));
        let j = choose|j: int| 0 <= j < ids.len() && ids[j] == e as usize;
        assert(ids[j] as int == e);
        assert(direct_edge(s, edges, f, reverse, from_name, ids[j] as int));
        let i = choose|i: int| 0 <= i < before.len() && (#[trigger] before[i]).name@ == far_end(s, edges[e], reverse)
            && before[i].weight == edges[e].occurrences;
        assert(before.to_multiset().count(before[i]) > 0);
        assert(sorted.contains(before[i]));
        let m = choose|m: int| 0 <= m < sorted.len() && sorted[m] == before[i];
        assert(sorted[m].name@ == far_end(s, edges[e], reverse));
    }
}

/// An entry of the breadth-first queue.
struct Visit {
    symbol: usize,
    depth: usize,
    weight: usize,
}

impl AnalysisCorpus {
    /// The neighbours of symbol `from` along filtered edges, ordered by name
    /// then weight.
    #[verifier::rlimit(80)]
    #[verifier::spinoff_prover]
    fn next_steps(&self, from: usize, reverse: bool, filter: &AnalysisFilter) -> (r: Vec<NextStep>)
        requires
            from < self.snapshot_view().symbols@.len(),
        ensures
            forall|k: int| 0 <= k < r@.len() ==> {
                let x = #[trigger] r@[k];
                &&& x.symbol < self.snapshot_view().symbols@.len()
                &&& self.snapshot_view().symbols@[x.symbol as int].name@ == x.name@
                &&& traversal_step(self.snapshot_view(), self.edges_view(), *filter, reverse,
                    self.snapshot_view().symbols@[from as int].name@, x.name@, x.weight)
            },
            forall|e: int| #[trigger] direct_edge(self.snapshot_view(), self.edges_view(), *filter, reverse,
                self.snapshot_view().symbols@[from as int].name@, e)
                ==> step_listed(r@, far_end(self.snapshot_view(), self.edges_view()[e], reverse), self.edges_view()[e].occurrences),
            ranked_sorted(r@),
    {
        proof {
            use_type_invariant(self);
        }
        let ghost s = self.snapshot_view();
        let ghost from_name = s.symbols@[from as int].name@;
        let symbols = self.symbols();
        let declarations = self.declarations();
        let edges = self.edges();
        let name = symbols[from].name.as_str();
        let ghost mut chosen: int = -1;
        let ids: &[usize] = if reverse {
            self.incoming_edge_ids(name)
        } else {
            match self.declaration_id(name) {
                Some(id) => {
                    proof {
                        chosen = id as int;
                    }
                    self.outgoing_edge_ids(id)
                },
                None => &[],
            }
        };
        proof {
            assert forall|j: int| 0 <= j < ids@.len() implies #[trigger] ids@[j] < edges@.len() && if reverse {
                edges@[ids@[j] as int].target@ == from_name
            } else {
                s.declarations@[edges@[ids@[j] as int].source as int].name@ == from_name
            } by {
            }
            assert forall|e: int| #[trigger] direct_edge(s, self.edges_view(), *filter, reverse, from_name, e)
                implies ids@.contains(e as usize) by {
                if !reverse {
                    let src = self.edges_view()[e].source as int;
                    assert(edge_describes(s, self.edges_view()[e]));
                    assert(declaration_known(s, from_name)) by {
                        assert(s.declarations@[src].name@ == from_name);
                    }
                    let id = chosen;
                    assert(0 <= id < s.declarations@.len() && s.declarations@[id].name@ == from_name);
                    if id != src {
                        if id < src {
                            assert(s.declarations@[id].name@ != s.declarations@[src].name@);
                        } else {
                            assert(s.declarations@[src].name@ != s.declarations@[id].name@);
                        }
                    }
                }
            }
        }
        let mut found: Vec<NextStep> = Vec::new();
        let mut k: usize = 0;
        while k < ids.len()
            invariant
                s == self.snapshot_view(),
                symbols@ == s.symbols@,
                declarations@ == s.declarations@,
                edges@ == self.edges_view(),
                edges_describe(s, edges@),
                crate::validation::snapshot_valid(s),
                from_name == s.symbols@[from as int].name@,
                forall|j: int| 0 <= j < ids@.len() ==> #[trigger] ids@[j] < edges@.len() && if reverse {
                    edges@[ids@[j] as int].target@ == from_name
                } else {
                    s.declarations@[edges@[ids@[j] as int].source as int].name@ == from_name
                },
                k <= ids@.len(),
                forall|j: int| 0 <= j < found@.len() ==> {
                    let x = #[trigger] found@[j];
                    &&& x.symbol < s.symbols@.len()
                    &&& s.symbols@[x.symbol as int].name@ == x.name@
                    &&& traversal_step(s, edges@, *filter, reverse, from_name, x.name@, x.weight)
                },
                forall|j: int| 0 <= j < k && #[trigger] direct_edge(s, edges@, *filter, reverse, from_name, ids@[j] as int)
                    ==> step_listed(found@, far_end(s, edges@[ids@[j] as int], reverse), edges@[ids@[j] as int].occurrences),
            decreases ids@.len() - k,
        {
            let ghost prev = found@;
            let edge_id = ids[k];
            let edge = &edges[edge_id];
            proof {
                assert(edge_describes(s, *edge));
                let y = choose|y: int| 0 <= y < s.symbols@.len() && edge_matches_symbol_metadata(*edge, #[trigger] s.symbols@[y]);
                assert(s.symbols@[y].name@ == edge.target@);
            }
            if self.edge_matches(edge, filter) {
                let next_name = if reverse {
                    declarations[edge.source].name.as_str()
                } else {
                    edge.target.as_str()
                };
                proof {
                    if reverse {
                        assert(crate::validation::symbol_known(s, s.declarations@[edge.source as int].name@));
                    }
                }
                match self.symbol_id(next_name) {
                    Some(y) => {
                        proof {
                            assert(traversal_step(s, edges@, *filter, reverse, from_name, next_name@, edge.occurrences));
                        }
                        found.push(NextStep { name: text_from(next_name), weight: edge.occurrences, symbol: y });
                        proof {
                            assert(found@[prev.len() as int].name@ == next_name@);
                            assert forall|j: int| 0 <= j < k && #[trigger] direct_edge(s, edges@, *filter, reverse, from_name, ids@[j] as int)
                                implies step_listed(found@, far_end(s, edges@[ids@[j] as int], reverse), edges@[ids@[j] as int].occurrences) by {
                                let e = edges@[ids@[j] as int];
                                assert(step_listed(prev, far_end(s, e, reverse), e.occurrences));
                                let i = choose|i: int| 0 <= i < prev.len() && (#[trigger] prev[i]).name@ == far_end(s, e, reverse) && prev[i].weight == e.occurrences;
                                assert(found@[i] == prev[i]);
                            }
                        }
                    },
                    None => {
                        proof {
                            if reverse {
                                assert(crate::validation::symbol_known(s, s.declarations@[edge.source as int].name@));
                            } else {
                                let y = choose|y: int| 0 <= y < s.symbols@.len() && edge_matches_symbol_metadata(*edge, #[trigger] s.symbols@[y]);
                                assert(s.symbols@[y].name@ == edge.target@);
                            }
                        }
                    },
                }
            }
            k = k + 1;
        }
        let ghost before = found@;
        let sorted = sort_ranked(found);
        proof {
            assert forall|k: int| 0 <= k < sorted@.len() implies {
                let x = #[trigger] sorted@[k];
                &&& x.symbol < s.symbols@.len()
                &&& s.symbols@[x.symbol as int].name@ == x.name@
                &&& traversal_step(s, edges@, *filter, reverse, from_name, x.name@, x.weight)
            } by {
                broadcast use vstd::seq_lib::group_to_multiset_ensures;
                assert(sorted@.to_multiset().count(sorted@[k]) > 0);
                assert(before.contains(sorted@[k]));
                let a = choose|a: int| 0 <= a < before.len() && before[a] == sorted@[k];
            }
            assert(edges@.len() == edges.len());
            lemma_steps_kept(s, edges@, *filter, reverse, from_name, ids@, before, sorted@);
        }
        sorted
    }

    /// Walks breadth first from the symbol `start` along filtered edges
    /// (dependencies forward, dependents in reverse), at most `max_depth`
    /// levels deep, until `limit` nodes are reached. `None` where no symbol
    /// has that name.
    #[verifier::spinoff_prover]
    #[verifier::rlimit(100)]
    pub fn traverse_dependencies(&self, start: &str, reverse: bool, config: &DependencyConfig) -> (r: Option<TraversalResult>)
        ensures
            r is None <==> !symbol_known(self.snapshot_view(), start@),
            r matches Some(t) ==> {
                &&& t.start@ == start@
                &&& t.direction@ == if reverse { "reverse"@ } else { "forward"@ }
                &&& same_config(t.config, *config)
                &&& traversal_sound(self.snapshot_view(), self.edges_view(), *config, reverse, start@, t.nodes@)
                &&& t.nodes@.len() < config.limit ==> !t.truncated && forall|names: Seq<Seq<char>>|
                    #[trigger] step_chain(self.snapshot_view(), self.edges_view(), config.filter, reverse, names, start@, config.max_depth as int)
                    && names.last() != start@
                    ==> exists|i: int| 0 <= i < t.nodes@.len() && t.nodes@[i].name@ == names.last() && t.nodes@[i].depth <= names.len() - 1
                &&& forall|i: int, names: Seq<Seq<char>>| 0 <= i < t.nodes@.len()
                    && #[trigger] step_chain(self.snapshot_view(), self.edges_view(), config.filter, reverse, names, start@, config.max_depth as int)
                    && names.last() == #[trigger] t.nodes@[i].name@ ==> t.nodes@[i].depth <= names.len() - 1
                &&& forall|names: Seq<Seq<char>>|
                    #[trigger] step_chain(self.snapshot_view(), self.edges_view(), config.filter, reverse, names, start@, config.max_depth as int)
                    && names.last() != start@ && t.nodes@.len() > 0 && names.len() - 1 < t.nodes@.last().depth
                    ==> exists|i: int| 0 <= i < t.nodes@.len() && t.nodes@[i].name@ == names.last()
                &&& config.limit > 0 ==> (t.truncated <==> exists|y: Seq<char>|
                    #[trigger] unlisted_frontier(self.snapshot_view(), self.edges_view(), *config, reverse, start@, t.nodes@, y))
            },
    {
        let start_symbol = match self.symbol_id(start) {
            Some(y) => y,
            None => {
                return None;
            },
        };
        let ghost s = self.snapshot_view();
        let ghost edges = self.edges_view();
        let symbols = self.symbols();
        let count = symbols.len();
        let mut seen: Vec<bool> = Vec::new();
        let mut y: usize = 0;
        while y < count
            invariant
                y <= count,
                seen@.len() == y,
                forall|z: int| 0 <= z < y ==> #[trigger] seen@[z] == (z == start_symbol),
            decreases count - y,
        {
            seen.push(y == start_symbol);
            y = y + 1;
        }
        let mut queue: Vec<Visit> = Vec::new();
        queue.push(Visit { symbol: start_symbol, depth: 0, weight: 0 });
        let mut head: usize = 0;
        let mut nodes: Vec<TraversalNode> = Vec::new();
        let mut truncated = false;
        let ghost mut parent: Seq<int> = seq![-1int];
        proof {
            use_type_invariant(self);
            assert(seen@ == Seq::new(count as nat, |z: int| z == start_symbol));
            lemma_count_true_start(seen@, start_symbol as int);
            assert forall|y: int| 0 <= y < count && #[trigger] seen@[y] implies exists|k: int| 0 <= k < queue@.len() && queue@[k].symbol == y by {
                assert(queue@[0].symbol == y);
            }
        }
        while head < queue.len()
            invariant_except_break
                head > 0 ==> nodes@.len() < config.limit,
                forall|i: int| 0 <= i < head && queue@[i].depth < config.max_depth ==> #[trigger] queued_near(s, edges, config.filter, reverse, queue@, i),
                !truncated,
            invariant
                s == self.snapshot_view(),
                edges == self.edges_view(),
                crate::validation::snapshot_valid(s),
                symbols@ == s.symbols@,
                count == s.symbols@.len(),
                start_symbol < count,
                s.symbols@[start_symbol as int].name@ == start@,
                seen@.len() == count,
                queue_ok(s, edges, config.filter, reverse, start_symbol, config.max_depth, queue@, parent, seen@),
                count_true(seen@) == queue@.len(),
                head <= queue@.len(),
                nodes@.len() == if head == 0 { 0 } else { head - 1 },
                head == 0 ==> queue@.len() == 1,
                forall|k: int| 1 <= k < queue@.len() ==> #[trigger] parent[k] < head,
                forall|i: int| 0 <= i < nodes@.len() ==> nodes_match(s, #[trigger] nodes@[i], queue@[i + 1]),
                head > 0 ==> forall|i: int| 0 <= i < queue@.len() ==> (#[trigger] queue@[i]).depth <= queue@[head - 1].depth + 1,
                nodes@.len() <= config.limit,
                forall|y: int| 0 <= y < count && #[trigger] seen@[y] ==> exists|k: int| 0 <= k < queue@.len() && queue@[k].symbol == y,
                edges_describe(s, edges),
            ensures
                forall|i: int| 0 <= i < head - 1 && queue@[i].depth < config.max_depth ==> #[trigger] queued_near(s, edges, config.filter, reverse, queue@, i),
                nodes@.len() >= config.limit ==> truncated == (head < queue@.len())
                    && forall|k: int| 1 <= k < queue@.len() ==> #[trigger] parent[k] < head - 1,
                nodes@.len() < config.limit ==> !truncated && head >= queue@.len()
                    && forall|i: int| 0 <= i < queue@.len() && queue@[i].depth < config.max_depth ==> #[trigger] queued_near(s, edges, config.filter, reverse, queue@, i),
                nodes@.len() <= config.limit,
                head >= 1,
                nodes@.len() == head - 1,
                queue_ok(s, edges, config.filter, reverse, start_symbol, config.max_depth, queue@, parent, seen@),
                forall|i: int| 0 <= i < nodes@.len() ==> nodes_match(s, #[trigger] nodes@[i], queue@[i + 1]),
            decreases count - head,
        {
            proof {
                lemma_count_true_bound(seen@);
            }
            let symbol = queue[head].symbol;
            let depth = queue[head].depth;
            let weight = queue[head].weight;
            head = head + 1;
            proof {
                if head > 1 {
                    assert(0 <= parent[head - 1] < head - 1);
                    assert(depth >= 1);
                } else {
                    assert(depth == 0);
                }
                assert forall|i: int| 0 <= i < queue@.len() implies (#[trigger] queue@[i]).depth <= queue@[head - 1].depth + 1 by {
                    if head > 1 {
                        assert(queue@[head - 2].depth <= queue@[head - 1].depth);
                    }
                }
            }
            if depth > 0 {
                nodes.push(TraversalNode { name: copy_text(&symbols[symbol].name), depth, path_weight: weight });
                proof {
                    assert(nodes_match(s, nodes@[nodes@.len() - 1], queue@[head - 1]));
                }
            }
            if nodes.len() >= config.limit {
                truncated = head < queue.len();
                break;
            }
            if depth >= config.max_depth {
                continue;
            }
            let next = self.next_steps(symbol, reverse, &config.filter);
            let ghost q_before = queue@;
            let mut k: usize = 0;
            while k < next.len()
                invariant
                    forall|y: int| 0 <= y < count && #[trigger] seen@[y] ==> exists|m: int| 0 <= m < queue@.len() && queue@[m].symbol == y,
                    forall|j: int| 0 <= j < k ==> exists|m: int| 0 <= m < queue@.len() && queue@[m].symbol == (#[trigger] next@[j]).symbol
                        && queue@[m].depth <= depth + 1,
                    s == self.snapshot_view(),
                    edges == self.edges_view(),
                    count == s.symbols@.len(),
                    start_symbol < count,
                    seen@.len() == count,
                    1 <= head <= queue@.len(),
                    symbol == queue@[head - 1].symbol,
                    depth == queue@[head - 1].depth,
                    weight == queue@[head - 1].weight,
                    depth < config.max_depth,
                    queue_ok(s, edges, config.filter, reverse, start_symbol, config.max_depth, queue@, parent, seen@),
                    count_true(seen@) == queue@.len(),
                    forall|i: int| 0 <= i < queue@.len() ==> (#[trigger] queue@[i]).depth <= depth + 1,
                    forall|j: int| 0 <= j < next@.len() ==> {
                        let x = #[trigger] next@[j];
                        &&& x.symbol < s.symbols@.len()
                        &&& s.symbols@[x.symbol as int].name@ == x.name@
                        &&& traversal_step(s, edges, config.filter, reverse, s.symbols@[symbol as int].name@, x.name@, x.weight)
                    },
                    k <= next@.len(),
                    forall|k2: int| 1 <= k2 < queue@.len() ==> #[trigger] parent[k2] < head,
                    queue@.len() >= q_before.len(),
                    forall|i: int| 0 <= i < q_before.len() ==> #[trigger] queue@[i] == q_before[i],
                decreases next@.len() - k,
            {
                let target = next[k].symbol;
                let ghost qk = queue@;
                let ghost sk = seen@;
                if !seen[target] {
                    let added = if weight <= usize::MAX - next[k].weight { weight + next[k].weight } else { usize::MAX };
                    let ghost q0 = queue@;
                    let ghost seen0 = seen@;
                    proof {
                        lemma_count_true_set(seen@, target as int);
                    }
                    seen.set(target, true);
                    queue.push(Visit { symbol: target, depth: depth + 1, weight: added });
                    proof {
                        parent = parent.push(head - 1);
                        lemma_queue_push(s, edges, config.filter, reverse, start_symbol, config.max_depth, q0, parent.drop_last(),
                            seen0, head - 1, target, next@[k as int].weight, added);
                        assert(parent.drop_last().push(head - 1) == parent);
                        assert(queue@[queue@.len() - 1].symbol == target);
                        assert forall|y: int| 0 <= y < count && #[trigger] seen@[y] implies exists|m: int| 0 <= m < queue@.len() && queue@[m].symbol == y by {
                            if y != target as int {
                                assert(sk[y]);
                                let m = choose|m: int| 0 <= m < qk.len() && qk[m].symbol == y;
                                assert(queue@[m] == qk[m]);
                            } else {
                                assert(queue@[queue@.len() - 1].symbol == y);
                            }
                        }
                    }
                }
                proof {
                    assert forall|j: int| 0 <= j < k + 1 implies exists|m: int| 0 <= m < queue@.len() && queue@[m].symbol == (#[trigger] next@[j]).symbol
                        && queue@[m].depth <= depth + 1 by {
                        if j < k {
                            let m = choose|m: int| 0 <= m < qk.len() && qk[m].symbol == next@[j].symbol && qk[m].depth <= depth + 1;
                            assert(queue@[m] == qk[m]);
                        } else {
                            assert(seen@[target as int]);
                            let m = choose|m: int| 0 <= m < queue@.len() && queue@[m].symbol == target;
                            assert(queue@[m].depth <= depth + 1);
                        }
                    }
                }
                k = k + 1;
            }
            proof {
                lemma_steps_queued(s, edges, config.filter, reverse, queue@, head - 1, next@, depth);
                assert forall|i: int| 0 <= i < head && queue@[i].depth < config.max_depth implies #[trigger] queued_near(s, edges, config.filter, reverse, queue@, i) by {
                    if i < head - 1 {
                        assert(queue@[i] == q_before[i]);
                        assert(queued_near(s, edges, config.filter, reverse, q_before, i));
                        assert forall|t: int| 0 <= t < s.symbols@.len() && #[trigger] step_link(s, edges, config.filter, reverse, s.symbols@[queue@[i].symbol as int].name@, s.symbols@[t].name@)
                            implies exists|m: int| 0 <= m < queue@.len() && queue@[m].symbol == t && queue@[m].depth <= queue@[i].depth + 1 by {
                            let m = choose|m: int| 0 <= m < q_before.len() && q_before[m].symbol == t && q_before[m].depth <= q_before[i].depth + 1;
                            assert(queue@[m] == q_before[m]);
                        }
                    }
                }
            }
        }
        proof {
            assert forall|i: int| 0 <= i < nodes@.len() implies #[trigger] node_reached(s, edges, config.filter, reverse, start@, nodes@, i) by {
                lemma_node_reached(s, edges, config.filter, reverse, start_symbol, start@, config.max_depth, queue@, parent, seen@, nodes@, i);
            }
            assert forall|i: int, j: int| 0 <= i < j < nodes@.len() implies (#[trigger] nodes@[i]).name@ != (#[trigger] nodes@[j]).name@
                && nodes@[i].depth <= nodes@[j].depth by {
                assert(nodes_match(s, nodes@[i], queue@[i + 1]));
                assert(nodes_match(s, nodes@[j], queue@[j + 1]));
                let a = queue@[i + 1].symbol as int;
                let b = queue@[j + 1].symbol as int;
                if a < b {
                    assert(s.symbols@[a].name@ != s.symbols@[b].name@);
                } else {
                    assert(s.symbols@[b].name@ != s.symbols@[a].name@);
                }
            }
            assert forall|i: int| 0 <= i < nodes@.len() implies (#[trigger] nodes@[i]).name@ != start@ && 1 <= nodes@[i].depth <= config.max_depth by {
                assert(nodes_match(s, nodes@[i], queue@[i + 1]));
                assert(0 <= parent[i + 1] < i + 1);
                let a = queue@[i + 1].symbol as int;
                let b = start_symbol as int;
                assert(queue@[0].symbol == start_symbol);
                if a < b {
                    assert(s.symbols@[a].name@ != s.symbols@[b].name@);
                } else {
                    assert(s.symbols@[b].name@ != s.symbols@[a].name@);
                }
            }
        }
        proof {
            let hd = head as int;
            let d = queue@[hd - 1].depth as int;
            assert forall|i: int| 0 <= i < queue@.len() && queue@[i].depth < config.max_depth && queue@[i].depth < d
                implies #[trigger] queued_near(s, edges, config.filter, reverse, queue@, i) by {
                if i >= hd - 1 {
                    if i > hd - 1 {
                        assert(queue@[hd - 1].depth <= queue@[i].depth);
                    }
                }
            }
            assert forall|i: int, names: Seq<Seq<char>>| 0 <= i < nodes@.len()
                && #[trigger] step_chain(s, edges, config.filter, reverse, names, start@, config.max_depth as int)
                && names.last() == #[trigger] nodes@[i].name@ implies nodes@[i].depth <= names.len() - 1 by {
                assert(nodes_match(s, nodes@[i], queue@[i + 1]));
                if names.len() - 1 < nodes@[i].depth {
                    if i + 1 < hd - 1 {
                        assert(queue@[i + 1].depth <= queue@[hd - 1].depth);
                    }
                    let k = lemma_walk_queued_upto(s, edges, config.filter, reverse, start_symbol, config.max_depth, queue@, names,
                        names.len() - 1, d);
                    let a = queue@[k].symbol as int;
                    let b = queue@[i + 1].symbol as int;
                    if a != b {
                        if a < b {
                            assert(s.symbols@[a].name@ != s.symbols@[b].name@);
                        } else {
                            assert(s.symbols@[b].name@ != s.symbols@[a].name@);
                        }
                    }
                    if k != i + 1 {
                        if k < i + 1 {
                            assert(queue@[k].symbol != queue@[i + 1].symbol);
                        } else {
                            assert(queue@[i + 1].symbol != queue@[k].symbol);
                        }
                    }
                }
            }
            assert forall|names: Seq<Seq<char>>|
                #[trigger] step_chain(s, edges, config.filter, reverse, names, start@, config.max_depth as int)
                && names.last() != start@ && nodes@.len() > 0 && names.len() - 1 < nodes@.last().depth
                implies exists|i: int| 0 <= i < nodes@.len() && nodes@[i].name@ == names.last() by {
                assert(nodes_match(s, nodes@[nodes@.len() - 1], queue@[hd - 1]));
                let k = lemma_walk_queued_upto(s, edges, config.filter, reverse, start_symbol, config.max_depth, queue@, names,
                    names.len() - 1, d);
                if k >= hd - 1 {
                    if k > hd - 1 {
                        assert(queue@[hd - 1].depth <= queue@[k].depth);
                    }
                }
                assert(k != 0);
                assert(nodes_match(s, nodes@[k - 1], queue@[k]));
            }
            if config.limit > 0 {
                if nodes@.len() < config.limit {
                    assert forall|y: Seq<char>| !#[trigger] unlisted_frontier(s, edges, *config, reverse, start@, nodes@, y) by {
                        if unlisted_frontier(s, edges, *config, reverse, start@, nodes@, y) {
                            let k = lemma_frontier_queued(s, edges, *config, reverse, start_symbol, start@, queue@, nodes@, y,
                                queue@.len() as int);
                        }
                    }
                } else {
                    assert forall|i: int| 0 <= i < queue@.len() && i < hd - 1 && queue@[i].depth < config.max_depth
                        implies #[trigger] queued_near(s, edges, config.filter, reverse, queue@, i) by {
                    }
                    if truncated {
                        let k = hd;
                        let p = parent[k];
                        assert(parent[k] < hd - 1);
                        let y = s.symbols@[queue@[k].symbol as int].name@;
                        let w = choose|w: usize| #[trigger] traversal_step(s, edges, config.filter, reverse, s.symbols@[queue@[p].symbol as int].name@,
                            s.symbols@[queue@[k].symbol as int].name@, w) && queue@[k].weight == saturating_sum(queue@[p].weight, w);
                        assert(step_link(s, edges, config.filter, reverse, s.symbols@[queue@[p].symbol as int].name@, y));
                        assert(y != start@) by {
                            let a = queue@[k].symbol as int;
                            let b = start_symbol as int;
                            assert(queue@[0].symbol != queue@[k].symbol);
                            if a < b {
                                assert(s.symbols@[a].name@ != s.symbols@[b].name@);
                            } else {
                                assert(s.symbols@[b].name@ != s.symbols@[a].name@);
                            }
                        }
                        assert forall|i: int| 0 <= i < nodes@.len() implies (#[trigger] nodes@[i]).name@ != y by {
                            assert(nodes_match(s, nodes@[i], queue@[i + 1]));
                            assert(queue@[i + 1].symbol != queue@[k].symbol);
                            let a = queue@[k].symbol as int;
                            let b = queue@[i + 1].symbol as int;
                            if a < b {
                                assert(s.symbols@[a].name@ != s.symbols@[b].name@);
                            } else {
                                assert(s.symbols@[b].name@ != s.symbols@[a].name@);
                            }
                        }
                        if p == 0 {
                            assert(0 < config.max_depth);
                        } else {
                            assert(nodes_match(s, nodes@[p - 1], queue@[p]));
                            assert(nodes@[p - 1].depth < config.max_depth);
                        }
                        assert(unlisted_frontier(s, edges, *config, reverse, start@, nodes@, y));
                        assert(exists|y: Seq<char>| #[trigger] unlisted_frontier(s, edges, *config, reverse, start@, nodes@, y));
                    } else {
                        assert forall|y: Seq<char>| !#[trigger] unlisted_frontier(s, edges, *config, reverse, start@, nodes@, y) by {
                            if unlisted_frontier(s, edges, *config, reverse, start@, nodes@, y) {
                                let k = lemma_frontier_queued(s, edges, *config, reverse, start_symbol, start@, queue@, nodes@, y, hd - 1);
                            }
                        }
                    }
                }
            }
            assert(config.limit > 0 ==> (truncated <==> exists|y: Seq<char>|
                #[trigger] unlisted_frontier(s, edges, *config, reverse, start@, nodes@, y)));
            if nodes@.len() < config.limit {
                assert forall|names: Seq<Seq<char>>|
                    #[trigger] step_chain(s, edges, config.filter, reverse, names, start@, config.max_depth as int) && names.last() != start@
                    implies exists|i: int| 0 <= i < nodes@.len() && nodes@[i].name@ == names.last() && nodes@[i].depth <= names.len() - 1 by {
                    let k = lemma_walk_queued(s, edges, config.filter, reverse, start_symbol, config.max_depth, queue@, names, names.len() - 1);
                    assert(k != 0);
                    assert(nodes_match(s, nodes@[k - 1], queue@[k]));
                }
            }
        }
        let t = TraversalResult {
            start: text_from(start),
            direction: if reverse { text_from("reverse") } else { text_from("forward") },
            config: copy_config(config),
            truncated,
            nodes,
        };
        proof {
            assert(t.start@ == start@);
            assert(traversal_sound(s, edges, *config, reverse, start@, t.nodes@));
            assert(config.limit > 0 ==> (t.truncated <==> exists|y: Seq<char>|
                #[trigger] unlisted_frontier(s, edges, *config, reverse, start@, t.nodes@, y)));
        }
        Some(t)
    }
}


/// Some filtered edge leads from `from` to `to` in the walking direction.
pub open spec fn step_link(s: ExtractionSnapshot, edges: Seq<DependencyEdge>, f: AnalysisFilter, reverse: bool, from: Seq<char>, to: Seq<char>) -> bool {
    exists|w: usize| #[trigger] traversal_step(s, edges, f, reverse, from, to, w)
}

/// `names` is a walk of at most `max_depth` filtered steps from `start`.
pub open spec fn step_chain(s: ExtractionSnapshot, edges: Seq<DependencyEdge>, f: AnalysisFilter, reverse: bool,
    names: Seq<Seq<char>>, start: Seq<char>, max_depth: int) -> bool {
    &&& 1 <= names.len() <= max_depth + 1
    &&& names[0] == start
    &&& forall|i: int| 0 <= i < names.len() - 1 ==> #[trigger] step_link(s, edges, f, reverse, names[i], names[i + 1])
}

/// Every symbol one filtered step from queue entry `i` is queued at most one
/// level below it.
spec fn queued_near(s: ExtractionSnapshot, edges: Seq<DependencyEdge>, f: AnalysisFilter, reverse: bool, q: Seq<Visit>, i: int) -> bool {
    forall|t: int| 0 <= t < s.symbols@.len() && #[trigger] step_link(s, edges, f, reverse, s.symbols@[q[i].symbol as int].name@, s.symbols@[t].name@)
        ==> exists|k: int| 0 <= k < q.len() && q[k].symbol == t && q[k].depth <= q[i].depth + 1
}

/// The far end of a filtered step is a known symbol.
proof fn lemma_step_target_known(s: ExtractionSnapshot, edges: Seq<DependencyEdge>, f: AnalysisFilter, reverse: bool, from: Seq<char>, to: Seq<char>)
    requires
        crate::validation::snapshot_valid(s),
        edges_describe(s, edges),
        step_link(s, edges, f, reverse, from, to),
    ensures
        exists|t: int| 0 <= t < s.symbols@.len() && #[trigger] s.symbols@[t].name@ == to,
{
    let w = choose|w: usize| #[trigger] traversal_step(s, edges, f, reverse, from, to, w);
    let k = choose|k: int| 0 <= k < edges.len() && #[trigger] edge_selected(s, f, edges[k]) && edges[k].occurrences == w && if reverse {
        edges[k].target@ == from && s.declarations@[edges[k].source as int].name@ == to
    } else {
        s.declarations@[edges[k].source as int].name@ == from && edges[k].target@ == to
    };
    assert(edge_describes(s, edges[k]));
    if reverse {
        assert(crate::validation::symbol_known(s, s.declarations@[edges[k].source as int].name@));
    } else {
        let y = choose|y: int| 0 <= y < s.symbols@.len() && edge_matches_symbol_metadata(edges[k], #[trigger] s.symbols@[y]);
        assert(s.symbols@[y].name@ == to);
    }
}

/// Along a walk from the start, with every shallow entry's steps queued,
/// the `j`-th name is queued at most `j` levels deep.
proof fn lemma_walk_queued(s: ExtractionSnapshot, edges: Seq<DependencyEdge>, f: AnalysisFilter, reverse: bool, start: usize,
    max_depth: usize, q: Seq<Visit>, names: Seq<Seq<char>>, j: int) -> (k: int)
    requires
        crate::validation::snapshot_valid(s),
        edges_describe(s, edges),
        q.len() >= 1,
        q[0].symbol == start && q[0].depth == 0,
        start < s.symbols@.len(),
        forall|i: int| 0 <= i < q.len() ==> (#[trigger] q[i]).symbol < s.symbols@.len(),
        forall|i: int| 0 <= i < q.len() && q[i].depth < max_depth ==> #[trigger] queued_near(s, edges, f, reverse, q, i),
        step_chain(s, edges, f, reverse, names, s.symbols@[start as int].name@, max_depth as int),
        0 <= j < names.len(),
    ensures
        0 <= k < q.len(),
        s.symbols@[q[k].symbol as int].name@ == names[j],
        q[k].depth <= j,
    decreases j,
{
    if j == 0 {
        0
    } else {
        let p = lemma_walk_queued(s, edges, f, reverse, start, max_depth, q, names, j - 1);
        let prev = j - 1;
        assert(step_link(s, edges, f, reverse, names[prev], names[prev + 1]));
        assert(prev + 1 == j);
        lemma_step_target_known(s, edges, f, reverse, names[prev], names[j]);
        let t = choose|t: int| 0 <= t < s.symbols@.len() && #[trigger] s.symbols@[t].name@ == names[j];
        assert(queued_near(s, edges, f, reverse, q, p));
        assert(step_link(s, edges, f, reverse, s.symbols@[q[p].symbol as int].name@, s.symbols@[t].name@));
        let k = choose|k: int| 0 <= k < q.len() && q[k].symbol == t && q[k].depth <= q[p].depth + 1;
        k
    }
}

/// A walk of `j` steps from the start ends at a queued symbol, queued at
/// most `j` levels down, where every entry above level `bound` has had its
/// steps queued and the walk is no longer than `bound`.
proof fn lemma_walk_queued_upto(s: ExtractionSnapshot, edges: Seq<DependencyEdge>, f: AnalysisFilter, reverse: bool, start: usize,
    max_depth: usize, q: Seq<Visit>, names: Seq<Seq<char>>, j: int, bound: int) -> (k: int)
    requires
        crate::validation::snapshot_valid(s),
        edges_describe(s, edges),
        q.len() >= 1,
        q[0].symbol == start && q[0].depth == 0,
        start < s.symbols@.len(),
        forall|i: int| 0 <= i < q.len() ==> (#[trigger] q[i]).symbol < s.symbols@.len(),
        forall|i: int| 0 <= i < q.len() && q[i].depth < max_depth && q[i].depth < bound ==> #[trigger] queued_near(s, edges, f, reverse, q, i),
        step_chain(s, edges, f, reverse, names, s.symbols@[start as int].name@, max_depth as int),
        0 <= j < names.len(),
        j <= bound,
    ensures
        0 <= k < q.len(),
        s.symbols@[q[k].symbol as int].name@ == names[j],
        q[k].depth <= j,
    decreases j,
{
    if j == 0 {
        0
    } else {
        let p = lemma_walk_queued_upto(s, edges, f, reverse, start, max_depth, q, names, j - 1, bound);
        let prev = j - 1;
        assert(step_link(s, edges, f, reverse, names[prev], names[prev + 1]));
        assert(prev + 1 == j);
        lemma_step_target_known(s, edges, f, reverse, names[prev], names[j]);
        let t = choose|t: int| 0 <= t < s.symbols@.len() && #[trigger] s.symbols@[t].name@ == names[j];
        assert(queued_near(s, edges, f, reverse, q, p));
        assert(step_link(s, edges, f, reverse, s.symbols@[q[p].symbol as int].name@, s.symbols@[t].name@));
        let k = choose|k: int| 0 <= k < q.len() && q[k].symbol == t && q[k].depth <= q[p].depth + 1;
        k
    }
}

/// A symbol on the frontier of a listing is queued after every listed node,
/// where the start and the listed nodes up to `bound` have had their steps
/// queued.
proof fn lemma_frontier_queued(s: ExtractionSnapshot, edges: Seq<DependencyEdge>, config: DependencyConfig, reverse: bool,
    start_symbol: usize, start: Seq<char>, q: Seq<Visit>, nodes: Seq<TraversalNode>, y: Seq<char>, bound: int) -> (k: int)
    requires
        crate::validation::snapshot_valid(s),
        edges_describe(s, edges),
        q.len() >= nodes.len() + 1,
        q[0].symbol == start_symbol && q[0].depth == 0,
        start_symbol < s.symbols@.len(),
        s.symbols@[start_symbol as int].name@ == start,
        forall|i: int| 0 <= i < q.len() ==> (#[trigger] q[i]).symbol < s.symbols@.len(),
        forall|i: int| 0 <= i < nodes.len() ==> nodes_match(s, #[trigger] nodes[i], q[i + 1]),
        bound >= 1,
        bound >= nodes.len(),
        forall|i: int| 0 <= i < q.len() && i < bound && q[i].depth < config.max_depth ==> #[trigger] queued_near(s, edges, config.filter, reverse, q, i),
        unlisted_frontier(s, edges, config, reverse, start, nodes, y),
    ensures
        nodes.len() + 1 <= k < q.len(),
        s.symbols@[q[k].symbol as int].name@ == y,
{
    let f = config.filter;
    let qi: int = if 0 < config.max_depth && step_link(s, edges, f, reverse, start, y) {
        0
    } else {
        let i = choose|i: int| 0 <= i < nodes.len() - 1 && (#[trigger] nodes[i]).depth < config.max_depth
            && step_link(s, edges, f, reverse, nodes[i].name@, y);
        assert(nodes_match(s, nodes[i], q[i + 1]));
        i + 1
    };
    let from = s.symbols@[q[qi].symbol as int].name@;
    assert(step_link(s, edges, f, reverse, from, y));
    lemma_step_target_known(s, edges, f, reverse, from, y);
    let t = choose|t: int| 0 <= t < s.symbols@.len() && #[trigger] s.symbols@[t].name@ == y;
    assert(queued_near(s, edges, f, reverse, q, qi));
    assert(step_link(s, edges, f, reverse, from, s.symbols@[t].name@));
    let k = choose|k: int| 0 <= k < q.len() && q[k].symbol == t && q[k].depth <= q[qi].depth + 1;
    if k == 0 {
        assert(false);
    }
    if k <= nodes.len() {
        assert(nodes_match(s, nodes[k - 1], q[k]));
        assert(nodes[k - 1].name@ != y);
        assert(false);
    }
    k
}

/// Once every listed step from entry `i` is queued within one level, entry
/// `i` has all its filtered steps queued.
proof fn lemma_steps_queued(s: ExtractionSnapshot, edges: Seq<DependencyEdge>, f: AnalysisFilter, reverse: bool, q: Seq<Visit>, i: int,
    next: Seq<NextStep>, depth: usize)
    requires
        crate::validation::snapshot_valid(s),
        0 <= i < q.len(),
        q[i].symbol < s.symbols@.len(),
        depth == q[i].depth,
        forall|j: int| 0 <= j < next.len() ==> (#[trigger] next[j]).symbol < s.symbols@.len()
            && s.symbols@[next[j].symbol as int].name@ == next[j].name@,
        forall|e: int| #[trigger] direct_edge(s, edges, f, reverse, s.symbols@[q[i].symbol as int].name@, e)
            ==> step_listed(next, far_end(s, edges[e], reverse), edges[e].occurrences),
        forall|j: int| 0 <= j < next.len() ==> exists|m: int| 0 <= m < q.len() && q[m].symbol == (#[trigger] next[j]).symbol
            && q[m].depth <= depth + 1,
    ensures
        queued_near(s, edges, f, reverse, q, i),
{
    let from = s.symbols@[q[i].symbol as int].name@;
    assert forall|t: int| 0 <= t < s.symbols@.len() && #[trigger] step_link(s, edges, f, reverse, from, s.symbols@[t].name@)
        implies exists|k: int| 0 <= k < q.len() && q[k].symbol == t && q[k].depth <= q[i].depth + 1 by {
        let to = s.symbols@[t].name@;
        let w = choose|w: usize| #[trigger] traversal_step(s, edges, f, reverse, from, to, w);
        let e = choose|k: int| 0 <= k < edges.len() && #[trigger] edge_selected(s, f, edges[k]) && edges[k].occurrences == w && if reverse {
            edges[k].target@ == from && s.declarations@[edges[k].source as int].name@ == to
        } else {
            s.declarations@[edges[k].source as int].name@ == from && edges[k].target@ == to
        };
        assert(direct_edge(s, edges, f, reverse, from, e));
        assert(far_end(s, edges[e], reverse) == to);
        let j = choose|j: int| 0 <= j < next.len() && (#[trigger] next[j]).name@ == far_end(s, edges[e], reverse) && next[j].weight == edges[e].occurrences;
        let y = next[j].symbol as int;
        if y != t {
            if y < t {
                assert(s.symbols@[y].name@ != s.symbols@[t].name@);
            } else {
                assert(s.symbols@[t].name@ != s.symbols@[y].name@);
            }
        }
        let m = choose|m: int| 0 <= m < q.len() && q[m].symbol == next[j].symbol && q[m].depth <= depth + 1;
    }
}

/// The node reports the visit.
spec fn nodes_match(s: ExtractionSnapshot, node: TraversalNode, visit: Visit) -> bool {
    &&& visit.symbol < s.symbols@.len()
    &&& node.name@ == s.symbols@[visit.symbol as int].name@
    &&& node.depth == visit.depth
    &&& node.path_weight == visit.weight
}

/// The breadth-first queue: the start first, then distinct other symbols
/// in nondecreasing depth, each one step from an earlier entry.
spec fn queue_ok(
    s: ExtractionSnapshot,
    edges: Seq<DependencyEdge>,
    f: AnalysisFilter,
    reverse: bool,
    start: usize,
    max_depth: usize,
    q: Seq<Visit>,
    parent: Seq<int>,
    seen: Seq<bool>,
) -> bool {
    &&& q.len() >= 1
    &&& parent.len() == q.len()
    &&& q[0].symbol == start && q[0].depth == 0 && q[0].weight == 0
    &&& forall|i: int| 0 <= i < q.len() ==> (#[trigger] q[i]).symbol < s.symbols@.len() && seen[q[i].symbol as int]
    &&& forall|i: int, j: int| 0 <= i < j < q.len() ==> (#[trigger] q[i]).symbol != (#[trigger] q[j]).symbol
        && q[i].depth <= q[j].depth
    &&& forall|i: int| 1 <= i < q.len() ==> {
        let p = #[trigger] parent[i];
        &&& 0 <= p < i
        &&& 1 <= q[i].depth <= max_depth
        &&& q[p].depth + 1 == q[i].depth
        &&& exists|w: usize| #[trigger] traversal_step(s, edges, f, reverse, s.symbols@[q[p].symbol as int].name@,
            s.symbols@[q[i].symbol as int].name@, w) && q[i].weight == saturating_sum(q[p].weight, w)
    }
}

proof fn lemma_count_true_start(seen: Seq<bool>, start: int)
    requires
        0 <= start < seen.len(),
        seen == Seq::new(seen.len(), |z: int| z == start),
    ensures
        count_true(seen) == 1,
{
    let none = Seq::new(seen.len(), |z: int| false);
    assert(count_true(none) == 0) by {
        lemma_count_true_none(seen.len());
    }
    lemma_count_true_set(none, start);
    assert(none.update(start, true) == seen);
}

proof fn lemma_count_true_none(n: nat)
    ensures
        count_true(Seq::new(n, |z: int| false)) == 0,
    decreases n,
{
    if n > 0 {
        assert(Seq::new(n, |z: int| false).drop_last() == Seq::new((n - 1) as nat, |z: int| false));
        lemma_count_true_none((n - 1) as nat);
    }
}

proof fn lemma_count_true_bound(seen: Seq<bool>)
    ensures
        count_true(seen) <= seen.len(),
    decreases seen.len(),
{
    if seen.len() > 0 {
        lemma_count_true_bound(seen.drop_last());
    }
}

proof fn lemma_queue_push(
    s: ExtractionSnapshot,
    edges: Seq<DependencyEdge>,
    f: AnalysisFilter,
    reverse: bool,
    start: usize,
    max_depth: usize,
    q: Seq<Visit>,
    parent: Seq<int>,
    seen: Seq<bool>,
    p: int,
    target: usize,
    w: usize,
    added: usize,
)
    requires
        queue_ok(s, edges, f, reverse, start, max_depth, q, parent, seen),
        0 <= p < q.len(),
        q[p].depth < max_depth,
        forall|i: int| 0 <= i < q.len() ==> (#[trigger] q[i]).depth <= q[p].depth + 1,
        target < s.symbols@.len(),
        seen.len() == s.symbols@.len(),
        !seen[target as int],
        traversal_step(s, edges, f, reverse, s.symbols@[q[p].symbol as int].name@, s.symbols@[target as int].name@, w),
        added == saturating_sum(q[p].weight, w),
    ensures
        queue_ok(s, edges, f, reverse, start, max_depth,
            q.push(Visit { symbol: target, depth: (q[p].depth + 1) as usize, weight: added }),
            parent.push(p), seen.update(target as int, true)),
{
    let v = Visit { symbol: target, depth: (q[p].depth + 1) as usize, weight: added };
    let q2 = q.push(v);
    let parent2 = parent.push(p);
    let seen2 = seen.update(target as int, true);
    assert forall|i: int| 0 <= i < q2.len() implies (#[trigger] q2[i]).symbol < s.symbols@.len() && seen2[q2[i].symbol as int] by {
        if i < q.len() {
            assert(q2[i] == q[i]);
        }
    }
    assert forall|i: int, j: int| 0 <= i < j < q2.len() implies (#[trigger] q2[i]).symbol != (#[trigger] q2[j]).symbol
        && q2[i].depth <= q2[j].depth by {
        if j < q.len() {
            assert(q2[i] == q[i] && q2[j] == q[j]);
        } else {
            assert(q2[i] == q[i]);
            assert(seen[q[i].symbol as int]);
        }
    }
    assert forall|i: int| 1 <= i < q2.len() implies {
        let pp = #[trigger] parent2[i];
        &&& 0 <= pp < i
        &&& 1 <= q2[i].depth <= max_depth
        &&& q2[pp].depth + 1 == q2[i].depth
        &&& exists|w2: usize| #[trigger] traversal_step(s, edges, f, reverse, s.symbols@[q2[pp].symbol as int].name@,
            s.symbols@[q2[i].symbol as int].name@, w2) && q2[i].weight == saturating_sum(q2[pp].weight, w2)
    } by {
        if i < q.len() {
            assert(q2[i] == q[i]);
            assert(parent2[i] == parent[i]);
            assert(q2[parent[i]] == q[parent[i]]);
        } else {
            assert(parent2[i] == p);
            assert(q2[p] == q[p]);
        }
    }
}

proof fn lemma_node_reached(
    s: ExtractionSnapshot,
    edges: Seq<DependencyEdge>,
    f: AnalysisFilter,
    reverse: bool,
    start_symbol: usize,
    start: Seq<char>,
    max_depth: usize,
    q: Seq<Visit>,
    parent: Seq<int>,
    seen: Seq<bool>,
    nodes: Seq<TraversalNode>,
    i: int,
)
    requires
        queue_ok(s, edges, f, reverse, start_symbol, max_depth, q, parent, seen),
        start_symbol < s.symbols@.len(),
        s.symbols@[start_symbol as int].name@ == start,
        nodes.len() + 1 <= q.len(),
        forall|k: int| 0 <= k < nodes.len() ==> nodes_match(s, #[trigger] nodes[k], q[k + 1]),
        0 <= i < nodes.len(),
    ensures
        node_reached(s, edges, f, reverse, start, nodes, i),
{
    assert(nodes_match(s, nodes[i], q[i + 1]));
    let p = parent[i + 1];
    assert(0 <= p < i + 1);
    let w = choose|w: usize| #[trigger] traversal_step(s, edges, f, reverse, s.symbols@[q[p].symbol as int].name@,
        s.symbols@[q[i + 1].symbol as int].name@, w) && q[i + 1].weight == saturating_sum(q[p].weight, w);
    if p == 0 {
        assert(saturating_sum(0, w) == w);
    } else {
        assert(nodes_match(s, nodes[p - 1], q[p]));
        assert(traversal_step(s, edges, f, reverse, nodes[p - 1].name@, nodes[i].name@, w));
    }
}


/// How many of the neighbours carry label `l`.
pub open spec fn label_votes(labels: Seq<usize>, neighbors: Seq<usize>, l: usize) -> nat
    decreases neighbors.len(),
{
    if neighbors.len() == 0 {
        0
    } else {
        label_votes(labels, neighbors.drop_last(), l) + if labels[neighbors.last() as int] == l { 1nat } else { 0nat }
    }
}

/// `l` is the most frequent label among the neighbours, the smallest on ties.
pub open spec fn winning_label(labels: Seq<usize>, neighbors: Seq<usize>, l: usize) -> bool {
    &&& label_votes(labels, neighbors, l) > 0
    &&& forall|m: usize| #[trigger] label_votes(labels, neighbors, m) < label_votes(labels, neighbors, l)
        || (label_votes(labels, neighbors, m) == label_votes(labels, neighbors, l) && l <= m)
}

/// One round of propagation: every active node with neighbours takes the
/// winning label of its neighbours; every other label stays.
pub open spec fn label_round(adjacency: Seq<Vec<usize>>, active: Seq<usize>, prev: Seq<usize>, next: Seq<usize>) -> bool {
    &&& next.len() == prev.len()
    &&& forall|i: int| 0 <= i < prev.len() ==> if active.contains(i as usize) && adjacency[i]@.len() > 0 {
        winning_label(prev, adjacency[i]@, #[trigger] next[i])
    } else {
        next[i] == prev[i]
    }
}

/// The number of propagation rounds at most.
pub const LABEL_ROUNDS: usize = 50;

/// The labels after each round: every node starts with its own id, each
/// round follows the last, and the rounds stop early only after a round that
/// changed nothing.
pub open spec fn label_history(adjacency: Seq<Vec<usize>>, active: Seq<usize>, history: Seq<Seq<usize>>) -> bool {
    &&& 1 <= history.len() <= LABEL_ROUNDS + 1
    &&& history[0] == Seq::new(adjacency.len(), |i: int| i as usize)
    &&& forall|t: int| 0 <= t < history.len() - 1 ==> label_round(adjacency, active, #[trigger] history[t], history[t + 1])
    &&& history.len() < LABEL_ROUNDS + 1 ==> history.len() >= 2 && history.last() == history[history.len() - 2]
}

/// The neighbours with label `l`.
fn count_votes(labels: &Vec<usize>, neighbors: &Vec<usize>, l: usize) -> (r: usize)
    requires
        forall|j: int| 0 <= j < neighbors@.len() ==> #[trigger] neighbors@[j] < labels@.len(),
    ensures
        r == label_votes(labels@, neighbors@, l),
{
    let mut r: usize = 0;
    let mut j: usize = 0;
    while j < neighbors.len()
        invariant
            forall|i: int| 0 <= i < neighbors@.len() ==> #[trigger] neighbors@[i] < labels@.len(),
            j <= neighbors@.len(),
            r == label_votes(labels@, neighbors@.take(j as int), l),
            r <= j,
        decreases neighbors@.len() - j,
    {
        proof {
            assert(neighbors@.take(j + 1).drop_last() == neighbors@.take(j as int));
        }
        if labels[neighbors[j]] == l {
            r = r + 1;
        }
        j = j + 1;
    }
    proof {
        assert(neighbors@.take(j as int) == neighbors@);
    }
    r
}

proof fn lemma_votes_zero_unless_present(labels: Seq<usize>, neighbors: Seq<usize>, m: usize)
    requires
        forall|j: int| 0 <= j < neighbors.len() ==> labels[#[trigger] neighbors[j] as int] != m,
    ensures
        label_votes(labels, neighbors, m) == 0,
    decreases neighbors.len(),
{
    if neighbors.len() > 0 {
        lemma_votes_zero_unless_present(labels, neighbors.drop_last(), m);
    }
}

/// The winning label among the neighbours, where there are neighbours.
fn winning_label_of(labels: &Vec<usize>, neighbors: &Vec<usize>) -> (r: usize)
    requires
        neighbors@.len() > 0,
        forall|j: int| 0 <= j < neighbors@.len() ==> #[trigger] neighbors@[j] < labels@.len(),
    ensures
        winning_label(labels@, neighbors@, r),
{
    let mut best = labels[neighbors[0]];
    let mut best_votes = count_votes(labels, neighbors, best);
    proof {
        assert(label_votes(labels@, neighbors@, best) > 0) by {
            if label_votes(labels@, neighbors@, best) == 0 {
                lemma_votes_positive(labels@, neighbors@, 0);
            }
        }
    }
    let mut j: usize = 1;
    while j < neighbors.len()
        invariant
            forall|i: int| 0 <= i < neighbors@.len() ==> #[trigger] neighbors@[i] < labels@.len(),
            1 <= j <= neighbors@.len(),
            best_votes == label_votes(labels@, neighbors@, best),
            best_votes > 0,
            forall|i: int| 0 <= i < j ==> {
                let m = labels@[#[trigger] neighbors@[i] as int];
                label_votes(labels@, neighbors@, m) < best_votes || (label_votes(labels@, neighbors@, m) == best_votes && best <= m)
            },
        decreases neighbors@.len() - j,
    {
        let candidate = labels[neighbors[j]];
        let votes = count_votes(labels, neighbors, candidate);
        if votes > best_votes || (votes == best_votes && candidate < best) {
            best = candidate;
            best_votes = votes;
        }
        j = j + 1;
    }
    proof {
        assert forall|m: usize| #[trigger] label_votes(labels@, neighbors@, m) < label_votes(labels@, neighbors@, best)
            || (label_votes(labels@, neighbors@, m) == label_votes(labels@, neighbors@, best) && best <= m) by {
            if forall|i: int| 0 <= i < neighbors@.len() ==> labels@[#[trigger] neighbors@[i] as int] != m {
                lemma_votes_zero_unless_present(labels@, neighbors@, m);
            }
        }
    }
    best
}

proof fn lemma_votes_positive(labels: Seq<usize>, neighbors: Seq<usize>, j: int)
    requires
        0 <= j < neighbors.len(),
    ensures
        label_votes(labels, neighbors, labels[neighbors[j] as int]) > 0,
    decreases neighbors.len(),
{
    if j < neighbors.len() - 1 {
        lemma_votes_positive(labels, neighbors.drop_last(), j);
    }
}

/// Deterministic label propagation over the undirected graph of the active
/// nodes: every node starts with its own id and repeatedly takes the label
/// most common among its neighbours (the smallest on ties), for at most
/// fifty rounds or until a round changes nothing. Returns each active node
/// with its final label, in order.
pub fn label_propagation(adjacency: &Vec<Vec<usize>>, active: &Vec<usize>) -> (r: Vec<(usize, usize)>)
    requires
        active_sorted(active@),
        forall|k: int| 0 <= k < active@.len() ==> #[trigger] active@[k] < adjacency@.len(),
        forall|i: int, j: int| 0 <= i < adjacency@.len() && 0 <= j < adjacency@[i]@.len()
            ==> #[trigger] adjacency@[i]@[j] < adjacency@.len(),
    ensures
        r@.len() == active@.len(),
        exists|history: Seq<Seq<usize>>| #[trigger] label_history(adjacency@, active@, history)
            && forall|k: int| 0 <= k < r@.len() ==> (#[trigger] r@[k]).0 == active@[k] && r@[k].1 == history.last()[active@[k] as int],
{
    let n = adjacency.len();
    let mut labels: Vec<usize> = Vec::new();
    let mut i: usize = 0;
    while i < n
        invariant
            i <= n,
            labels@ == Seq::new(i as nat, |x: int| x as usize),
        decreases n - i,
    {
        labels.push(i);
        proof {
            assert(labels@ =~= Seq::new((i + 1) as nat, |x: int| x as usize));
        }
        i = i + 1;
    }
    let ghost mut history: Seq<Seq<usize>> = seq![labels@];
    let mut round: usize = 0;
    while round < LABEL_ROUNDS
        invariant_except_break
            history.len() == round + 1,
        invariant
            n == adjacency@.len(),
            labels@.len() == n,
            forall|k: int| 0 <= k < active@.len() ==> #[trigger] active@[k] < n,
            forall|a: int, j: int| 0 <= a < n && 0 <= j < adjacency@[a]@.len() ==> #[trigger] adjacency@[a]@[j] < n,
            round <= LABEL_ROUNDS,
            history.len() >= 1,
            history[0] == Seq::new(n as nat, |x: int| x as usize),
            forall|t: int| 0 <= t < history.len() - 1 ==> label_round(adjacency@, active@, #[trigger] history[t], history[t + 1]),
            history.last() == labels@,
            active_sorted(active@),
        ensures
            1 <= history.len() <= LABEL_ROUNDS + 1,
            history[0] == Seq::new(n as nat, |x: int| x as usize),
            forall|t: int| 0 <= t < history.len() - 1 ==> label_round(adjacency@, active@, #[trigger] history[t], history[t + 1]),
            history.last() == labels@,
            labels@.len() == n,
            history.len() < LABEL_ROUNDS + 1 ==> history.len() >= 2 && history.last() == history[history.len() - 2],
        decreases LABEL_ROUNDS - round,
    {
        let previous = copy_labels(&labels);
        let mut changed = false;
        let mut k: usize = 0;
        while k < active.len()
            invariant
                n == adjacency@.len(),
                previous@.len() == n,
                labels@.len() == n,
                forall|x: int| 0 <= x < active@.len() ==> #[trigger] active@[x] < n,
                forall|a: int, j: int| 0 <= a < n && 0 <= j < adjacency@[a]@.len() ==> #[trigger] adjacency@[a]@[j] < n,
                k <= active@.len(),
                active_sorted(active@),
                forall|x: int| 0 <= x < n ==> if active@.take(k as int).contains(x as usize) && adjacency@[x]@.len() > 0 {
                    winning_label(previous@, adjacency@[x]@, #[trigger] labels@[x])
                } else {
                    labels@[x] == previous@[x]
                },
                changed <==> labels@ != previous@,
            decreases active@.len() - k,
        {
            let node = active[k];
            let neighbors = &adjacency[node];
            let ghost before = labels@;
            proof {
                assert(active@.take(k + 1) == active@.take(k as int).push(node));
                assert(!active@.take(k as int).contains(node)) by {
                    if active@.take(k as int).contains(node) {
                        let a = choose|a: int| 0 <= a < k && #[trigger] active@.take(k as int)[a] == node;
                        assert(active@[a] < active@[k as int]);
                    }
                }
            }
            if neighbors.len() > 0 {
                let best = winning_label_of(&previous, neighbors);
                if previous[node] != best {
                    labels.set(node, best);
                    changed = true;
                    proof {
                        assert(labels@[node as int] != previous@[node as int]);
                    }
                }
            }
            proof {
                assert forall|x: int| 0 <= x < n implies if active@.take(k + 1).contains(x as usize) && adjacency@[x]@.len() > 0 {
                    winning_label(previous@, adjacency@[x]@, #[trigger] labels@[x])
                } else {
                    labels@[x] == previous@[x]
                } by {
                    if x != node {
                        assert(labels@[x] == before[x]);
                        assert(active@.take(k + 1).contains(x as usize) == active@.take(k as int).contains(x as usize)) by {
                            if active@.take(k + 1).contains(x as usize) {
                                let a = choose|a: int| 0 <= a < k + 1 && #[trigger] active@.take(k + 1)[a] == x as usize;
                                assert(active@.take(k as int)[a] == x as usize);
                            }
                            if active@.take(k as int).contains(x as usize) {
                                let a = choose|a: int| 0 <= a < k && #[trigger] active@.take(k as int)[a] == x as usize;
                                assert(active@.take(k + 1)[a] == x as usize);
                            }
                        }
                    } else {
                        assert(active@.take(k + 1)[k as int] == node);
                    }
                }
                if !changed {
                    assert(labels@ =~= previous@);
                }
            }
            k = k + 1;
        }
        proof {
            assert(active@.take(k as int) == active@);
            assert(label_round(adjacency@, active@, previous@, labels@));
            history = history.push(labels@);
        }
        if !changed {
            proof {
                assert(labels@ =~= previous@);
                assert(history.len() == round + 2);
            }
            break;
        }
        round = round + 1;
    }
    let mut r: Vec<(usize, usize)> = Vec::new();
    let mut k: usize = 0;
    while k < active.len()
        invariant
            labels@.len() == n,
            forall|x: int| 0 <= x < active@.len() ==> #[trigger] active@[x] < n,
            k <= active@.len(),
            r@.len() == k,
            forall|j: int| 0 <= j < k ==> (#[trigger] r@[j]).0 == active@[j] && r@[j].1 == labels@[active@[j] as int],
        decreases active@.len() - k,
    {
        r.push((active[k], labels[active[k]]));
        k = k + 1;
    }
    proof {
        assert(label_history(adjacency@, active@, history));
    }
    r
}

/// The ids strictly increase.
pub open spec fn active_sorted(active: Seq<usize>) -> bool {
    forall|i: int, j: int| 0 <= i < j < active.len() ==> #[trigger] active[i] < #[trigger] active[j]
}

/// A copy of a label vector.
fn copy_labels(v: &Vec<usize>) -> (r: Vec<usize>)
    ensures
        r@ == v@,
{
    let mut r: Vec<usize> = Vec::new();
    let mut i: usize = 0;
    while i < v.len()
        invariant
            i <= v@.len(),
            r@ == v@.take(i as int),
        decreases v@.len() - i,
    {
        r.push(v[i]);
        proof {
            assert(v@.take(i + 1) == v@.take(i as int).push(v@[i as int]));
        }
        i = i + 1;
    }
    proof {
        assert(v@.take(i as int) == v@);
    }
    r
}


/// Edge `k` passes the filter and joins declaration `src` to declaration `t`.
pub open spec fn internal_edge(s: ExtractionSnapshot, edges: Seq<DependencyEdge>, f: AnalysisFilter, src: int, t: int, k: int) -> bool {
    &&& 0 <= k < edges.len()
    &&& edge_selected(s, f, edges[k])
    &&& edges[k].source == src
    &&& 0 <= t < s.declarations@.len()
    &&& s.declarations@[t].name@ == edges[k].target@
}

/// `row` lists, by increasing target, each declaration that `src` depends on
/// through a filtered edge, with the smallest weight of those edges.
pub open spec fn adjacency_row(s: ExtractionSnapshot, edges: Seq<DependencyEdge>, f: AnalysisFilter, src: int, row: Seq<(usize, usize)>) -> bool {
    &&& forall|i: int, j: int| 0 <= i < j < row.len() ==> (#[trigger] row[i]).0 < (#[trigger] row[j]).0
    &&& forall|i: int| 0 <= i < row.len() ==> entry_witnessed(s, edges, f, src, #[trigger] row[i])
    &&& forall|i: int, k: int| 0 <= i < row.len() && #[trigger] internal_edge(s, edges, f, src, row[i].0 as int, k)
        ==> row[i].1 <= edges[k].occurrences
    &&& forall|t: int, k: int| #[trigger] internal_edge(s, edges, f, src, t, k) ==> exists|i: int| 0 <= i < row.len() && (#[trigger] row[i]).0 == t
}

/// Some filtered edge from `src` reaches the entry's target with the entry's weight.
pub open spec fn entry_witnessed(s: ExtractionSnapshot, edges: Seq<DependencyEdge>, f: AnalysisFilter, src: int, entry: (usize, usize)) -> bool {
    exists|k: int| #[trigger] internal_edge(s, edges, f, src, entry.0 as int, k) && edges[k].occurrences == entry.1
}

/// Some filtered edge of `pool` from `src` reaches the entry's target with the entry's weight.
pub open spec fn entry_witnessed_in(
    s: ExtractionSnapshot,
    edges: Seq<DependencyEdge>,
    f: AnalysisFilter,
    src: int,
    entry: (usize, usize),
    pool: Seq<usize>,
) -> bool {
    exists|k: int| #[trigger] internal_edge(s, edges, f, src, entry.0 as int, k) && pool.contains(k as usize)
        && edges[k].occurrences == entry.1
}

/// The row holds target `t` at some position.
pub open spec fn row_has(row: Seq<(usize, usize)>, t: int) -> bool {
    exists|i: int| 0 <= i < row.len() && (#[trigger] row[i]).0 == t
}

/// Records target `t` with weight `w` in a row sorted by target, keeping the
/// smaller weight where `t` is already there.
fn insert_min(row: &mut Vec<(usize, usize)>, t: usize, w: usize)
    requires
        forall|i: int, j: int| 0 <= i < j < old(row)@.len() ==> (#[trigger] old(row)@[i]).0 < (#[trigger] old(row)@[j]).0,
    ensures
        forall|i: int, j: int| 0 <= i < j < final(row)@.len() ==> (#[trigger] final(row)@[i]).0 < (#[trigger] final(row)@[j]).0,
        forall|x: int| #[trigger] row_has(final(row)@, x) <==> (row_has(old(row)@, x) || x == t),
        forall|i: int| 0 <= i < final(row)@.len() && (#[trigger] final(row)@[i]).0 != t ==> old(row)@.contains(final(row)@[i]),
        forall|i: int| 0 <= i < final(row)@.len() && (#[trigger] final(row)@[i]).0 == t ==> (final(row)@[i].1 == w
            || old(row)@.contains(final(row)@[i])) && final(row)@[i].1 <= w
            && forall|j: int| 0 <= j < old(row)@.len() && old(row)@[j].0 == t ==> final(row)@[i].1 <= old(row)@[j].1,
{
    let ghost old_row = row@;
    let mut p: usize = 0;
    while p < row.len() && row[p].0 < t
        invariant
            row@ == old_row,
            p <= row@.len(),
            forall|i: int| 0 <= i < p ==> (#[trigger] row@[i]).0 < t,
        decreases row@.len() - p,
    {
        p = p + 1;
    }
    if p < row.len() && row[p].0 == t {
        let current = row[p].1;
        let kept = if w < current { w } else { current };
        row.set(p, (t, kept));
        proof {
            assert forall|x: int| #[trigger] row_has(row@, x) <==> (row_has(old_row, x) || x == t) by {
                if row_has(old_row, x) {
                    let i = choose|i: int| 0 <= i < old_row.len() && (#[trigger] old_row[i]).0 == x;
                    assert(row@[i].0 == x);
                }
                if row_has(row@, x) {
                    let i = choose|i: int| 0 <= i < row@.len() && (#[trigger] row@[i]).0 == x;
                    assert(old_row[i].0 == x);
                }
                if x == t {
                    assert(row@[p as int].0 == x);
                }
            }
            assert forall|i: int| 0 <= i < row@.len() && (#[trigger] row@[i]).0 != t implies old_row.contains(row@[i]) by {
                assert(row@[i] == old_row[i]);
            }
            assert forall|i: int| 0 <= i < row@.len() && (#[trigger] row@[i]).0 == t implies (row@[i].1 == w || old_row.contains(row@[i]))
                && row@[i].1 <= w && forall|j: int| 0 <= j < old_row.len() && old_row[j].0 == t ==> row@[i].1 <= old_row[j].1 by {
                assert(i == p as int) by {
                    if i < p {
                        assert(row@[i].0 < t);
                    } else if i > p {
                        assert(old_row[p as int].0 < old_row[i].0);
                    }
                }
                assert forall|j: int| 0 <= j < old_row.len() && old_row[j].0 == t implies row@[i].1 <= old_row[j].1 by {
                    if j < p {
                        assert(old_row[j].0 < t);
                    } else if j > p {
                        assert(old_row[p as int].0 < old_row[j].0);
                    }
                }
                if row@[i].1 != w {
                    assert(row@[i] == old_row[p as int]);
                }
            }
        }
    } else {
        row.insert(p, (t, w));
        proof {
            assert forall|i: int, j: int| 0 <= i < j < row@.len() implies (#[trigger] row@[i]).0 < (#[trigger] row@[j]).0 by {
                if j < p {
                    assert(row@[i] == old_row[i] && row@[j] == old_row[j]);
                } else if j == p {
                    assert(row@[i] == old_row[i]);
                } else if i == p {
                    assert(row@[j] == old_row[j - 1]);
                    if j - 1 > p {
                        assert(old_row[p as int].0 < old_row[j - 1].0);
                    }
                } else if i < p {
                    assert(row@[i] == old_row[i] && row@[j] == old_row[j - 1]);
                } else {
                    assert(row@[i] == old_row[i - 1] && row@[j] == old_row[j - 1]);
                }
            }
            assert forall|x: int| #[trigger] row_has(row@, x) <==> (row_has(old_row, x) || x == t) by {
                if row_has(old_row, x) {
                    let i = choose|i: int| 0 <= i < old_row.len() && (#[trigger] old_row[i]).0 == x;
                    if i < p {
                        assert(row@[i].0 == x);
                    } else {
                        assert(row@[i + 1].0 == x);
                    }
                }
                if row_has(row@, x) {
                    let i = choose|i: int| 0 <= i < row@.len() && (#[trigger] row@[i]).0 == x;
                    if i < p {
                        assert(old_row[i].0 == x);
                    } else if i > p {
                        assert(old_row[i - 1].0 == x);
                    }
                }
                if x == t {
                    assert(row@[p as int].0 == x);
                }
            }
            assert forall|i: int| 0 <= i < row@.len() && (#[trigger] row@[i]).0 != t implies old_row.contains(row@[i]) by {
                if i < p {
                    assert(row@[i] == old_row[i]);
                } else if i > p {
                    assert(row@[i] == old_row[i - 1]);
                }
            }
            assert forall|i: int| 0 <= i < row@.len() && (#[trigger] row@[i]).0 == t implies (row@[i].1 == w || old_row.contains(row@[i]))
                && row@[i].1 <= w && forall|j: int| 0 <= j < old_row.len() && old_row[j].0 == t ==> row@[i].1 <= old_row[j].1 by {
                if i < p {
                    assert(row@[i] == old_row[i]);
                } else if i > p {
                    assert(row@[i] == old_row[i - 1]);
                    if i - 1 > p {
                        assert(old_row[p as int].0 < old_row[i - 1].0);
                    }
                    assert(old_row[i - 1].0 > t) by {
                        if p < old_row.len() {
                            assert(old_row[p as int].0 > t);
                        }
                    }
                }
                assert forall|j: int| 0 <= j < old_row.len() && old_row[j].0 == t implies row@[i].1 <= old_row[j].1 by {
                    if j < p {
                        assert(old_row[j].0 < t);
                    } else {
                        if p < old_row.len() {
                            assert(old_row[p as int].0 > t);
                            if j > p {
                                assert(old_row[p as int].0 < old_row[j].0);
                            }
                        }
                    }
                }
            }
        }
    }
}


/// `row` is the adjacency row of `src` built from the edges in `pool`.
pub open spec fn row_covers(
    s: ExtractionSnapshot,
    edges: Seq<DependencyEdge>,
    f: AnalysisFilter,
    src: int,
    row: Seq<(usize, usize)>,
    pool: Seq<usize>,
) -> bool {
    &&& forall|i: int, j: int| 0 <= i < j < row.len() ==> (#[trigger] row[i]).0 < (#[trigger] row[j]).0
    &&& forall|i: int| 0 <= i < row.len() ==> entry_witnessed_in(s, edges, f, src, #[trigger] row[i], pool)
    &&& forall|i: int, k: int| 0 <= i < row.len() && #[trigger] internal_edge(s, edges, f, src, row[i].0 as int, k)
        && pool.contains(k as usize) ==> row[i].1 <= edges[k].occurrences
    &&& forall|t: int, k: int| #[trigger] internal_edge(s, edges, f, src, t, k) && pool.contains(k as usize) ==> row_has(row, t)
}

impl AnalysisCorpus {
    /// The adjacency row of one declaration.
    fn adjacency_row_of(&self, src: usize, filter: &AnalysisFilter) -> (row: Vec<(usize, usize)>)
        requires
            src < self.snapshot_view().declarations@.len(),
        ensures
            adjacency_row(self.snapshot_view(), self.edges_view(), *filter, src as int, row@),
    {
        proof {
            use_type_invariant(self);
        }
        let ghost s = self.snapshot_view();
        let ghost all = self.edges_view();
        let edges = self.edges();
        let total = edges.len();
        let ids = self.outgoing_edge_ids(src);
        let mut row: Vec<(usize, usize)> = Vec::new();
        let mut j: usize = 0;
        while j < ids.len()
            invariant
                s == self.snapshot_view(),
                all == self.edges_view(),
                edges@ == all,
                total == all.len(),
                edges_describe(s, all),
                crate::validation::snapshot_valid(s),
                forall|x: int| 0 <= x < ids@.len() ==> #[trigger] ids@[x] < all.len() && all[ids@[x] as int].source == src,
                j <= ids@.len(),
                row_covers(s, all, *filter, src as int, row@, ids@.take(j as int)),
            decreases ids@.len() - j,
        {
            let id = ids[j];
            let edge = &edges[id];
            let ghost before = row@;
            proof {
                assert(edge_describes(s, *edge));
                let y = choose|y: int| 0 <= y < s.symbols@.len() && edge_matches_symbol_metadata(*edge, #[trigger] s.symbols@[y]);
                assert(s.symbols@[y].name@ == edge.target@);
                assert(ids@.take(j + 1) == ids@.take(j as int).push(id));
            }
            if self.edge_matches(edge, filter) {
                match self.declaration_id(edge.target.as_str()) {
                    Some(t) => {
                        insert_min(&mut row, t, edge.occurrences);
                        proof {
                            assert(internal_edge(s, all, *filter, src as int, t as int, id as int));
                            lemma_row_covers_insert(s, all, *filter, src as int, before, row@, ids@.take(j as int), id, t, edge.occurrences);
                        }
                    },
                    None => {
                        proof {
                            lemma_row_covers_skip(s, all, *filter, src as int, row@, ids@.take(j as int), id);
                        }
                    },
                }
            } else {
                proof {
                    lemma_row_covers_skip(s, all, *filter, src as int, row@, ids@.take(j as int), id);
                }
            }
            j = j + 1;
        }
        proof {
            assert(ids@.take(j as int) == ids@);
            assert forall|t: int, k: int| #[trigger] internal_edge(s, all, *filter, src as int, t, k) implies ids@.contains(k as usize) by {
                assert(k < total);
            }
            assert forall|i: int| 0 <= i < row@.len() implies entry_witnessed(s, all, *filter, src as int, #[trigger] row@[i]) by {
                assert(entry_witnessed_in(s, all, *filter, src as int, row@[i], ids@));
                let k = choose|k: int| #[trigger] internal_edge(s, all, *filter, src as int, row@[i].0 as int, k)
                    && ids@.contains(k as usize) && all[k].occurrences == row@[i].1;
            }
            assert forall|i: int, k: int| 0 <= i < row@.len() && #[trigger] internal_edge(s, all, *filter, src as int, row@[i].0 as int, k)
                implies row@[i].1 <= all[k].occurrences by {
                assert(ids@.contains(k as usize));
            }
            assert forall|t: int, k: int| #[trigger] internal_edge(s, all, *filter, src as int, t, k)
                implies exists|i: int| 0 <= i < row@.len() && (#[trigger] row@[i]).0 == t by {
                assert(ids@.contains(k as usize));
                assert(row_has(row@, t));
            }
        }
        row
    }
}

proof fn lemma_row_covers_skip(
    s: ExtractionSnapshot,
    edges: Seq<DependencyEdge>,
    f: AnalysisFilter,
    src: int,
    row: Seq<(usize, usize)>,
    pool: Seq<usize>,
    id: usize,
)
    requires
        row_covers(s, edges, f, src, row, pool),
        id < edges.len(),
        edges.len() <= usize::MAX,
        forall|t: int| !#[trigger] internal_edge(s, edges, f, src, t, id as int),
    ensures
        row_covers(s, edges, f, src, row, pool.push(id)),
{
    assert forall|i: int| 0 <= i < row.len() implies entry_witnessed_in(s, edges, f, src, #[trigger] row[i], pool.push(id)) by {
        assert(entry_witnessed_in(s, edges, f, src, row[i], pool));
        let k = choose|k: int| #[trigger] internal_edge(s, edges, f, src, row[i].0 as int, k) && pool.contains(k as usize)
            && edges[k].occurrences == row[i].1;
        let a = choose|a: int| 0 <= a < pool.len() && pool[a] == k as usize;
        assert(pool.push(id)[a] == k as usize);
    }
    assert forall|i: int, k: int| 0 <= i < row.len() && #[trigger] internal_edge(s, edges, f, src, row[i].0 as int, k)
        && pool.push(id).contains(k as usize) implies row[i].1 <= edges[k].occurrences by {
        let a = choose|a: int| 0 <= a < pool.push(id).len() && pool.push(id)[a] == k as usize;
        if a < pool.len() {
            assert(pool[a] == k as usize);
        }
    }
    assert forall|t: int, k: int| #[trigger] internal_edge(s, edges, f, src, t, k) && pool.push(id).contains(k as usize) implies row_has(row, t) by {
        let a = choose|a: int| 0 <= a < pool.push(id).len() && pool.push(id)[a] == k as usize;
        if a < pool.len() {
            assert(pool[a] == k as usize);
        }
    }
}

proof fn lemma_row_covers_insert(
    s: ExtractionSnapshot,
    edges: Seq<DependencyEdge>,
    f: AnalysisFilter,
    src: int,
    before: Seq<(usize, usize)>,
    after: Seq<(usize, usize)>,
    pool: Seq<usize>,
    id: usize,
    t: usize,
    w: usize,
)
    requires
        row_covers(s, edges, f, src, before, pool),
        id < edges.len(),
        edges.len() <= usize::MAX,
        internal_edge(s, edges, f, src, t as int, id as int),
        edges[id as int].occurrences == w,
        crate::validation::snapshot_valid(s),
        forall|i: int, j: int| 0 <= i < j < after.len() ==> (#[trigger] after[i]).0 < (#[trigger] after[j]).0,
        forall|x: int| #[trigger] row_has(after, x) <==> (row_has(before, x) || x == t),
        forall|i: int| 0 <= i < after.len() && (#[trigger] after[i]).0 != t ==> before.contains(after[i]),
        forall|i: int| 0 <= i < after.len() && (#[trigger] after[i]).0 == t ==> (after[i].1 == w
            || before.contains(after[i])) && after[i].1 <= w
            && forall|j: int| 0 <= j < before.len() && before[j].0 == t ==> after[i].1 <= before[j].1,
    ensures
        row_covers(s, edges, f, src, after, pool.push(id)),
{
    let p2 = pool.push(id);
    assert forall|k: usize| #[trigger] pool.contains(k) implies p2.contains(k) by {
        let a = choose|a: int| 0 <= a < pool.len() && pool[a] == k;
        assert(p2[a] == k);
    }
    assert(p2[pool.len() as int] == id);
    assert forall|i: int| 0 <= i < after.len() implies entry_witnessed_in(s, edges, f, src, #[trigger] after[i], p2) by {
        if after[i].0 == t && after[i].1 == w {
            assert(internal_edge(s, edges, f, src, after[i].0 as int, id as int));
        } else {
            let b = choose|b: int| 0 <= b < before.len() && before[b] == after[i];
            assert(before[b] == after[i]);
            assert(entry_witnessed_in(s, edges, f, src, before[b], pool));
            let k = choose|k: int| #[trigger] internal_edge(s, edges, f, src, before[b].0 as int, k) && pool.contains(k as usize)
                && edges[k].occurrences == before[b].1;
        }
    }
    assert forall|i: int, k: int| 0 <= i < after.len() && #[trigger] internal_edge(s, edges, f, src, after[i].0 as int, k)
        && p2.contains(k as usize) implies after[i].1 <= edges[k].occurrences by {
        let a = choose|a: int| 0 <= a < p2.len() && p2[a] == k as usize;
        if a == pool.len() {
            assert(k == id);
            if after[i].0 != t {
                let b = choose|b: int| 0 <= b < before.len() && before[b] == after[i];
                assert(edges[k].target@ == s.declarations@[t as int].name@);
                assert(s.declarations@[after[i].0 as int].name@ == edges[k].target@);
                if (after[i].0 as int) < (t as int) {
                    assert(s.declarations@[after[i].0 as int].name@ != s.declarations@[t as int].name@);
                } else {
                    assert(s.declarations@[t as int].name@ != s.declarations@[after[i].0 as int].name@);
                }
            }
        } else {
            assert(pool.contains(k as usize)) by {
                assert(pool[a] == k as usize);
            }
            if after[i].0 == t {
                assert(row_has(before, t as int));
                let b = choose|b: int| 0 <= b < before.len() && (#[trigger] before[b]).0 == t;
                assert(before[b].1 <= edges[k].occurrences);
            } else {
                let b = choose|b: int| 0 <= b < before.len() && before[b] == after[i];
                assert(before[b].1 <= edges[k].occurrences);
            }
        }
    }
    assert forall|x: int, k: int| #[trigger] internal_edge(s, edges, f, src, x, k) && p2.contains(k as usize) implies row_has(after, x) by {
        let a = choose|a: int| 0 <= a < p2.len() && p2[a] == k as usize;
        if a == pool.len() {
            assert(k == id);
            if x != t {
                assert(s.declarations@[x].name@ == s.declarations@[t as int].name@);
                if x < t {
                    assert(s.declarations@[x].name@ != s.declarations@[t as int].name@);
                } else {
                    assert(s.declarations@[t as int].name@ != s.declarations@[x].name@);
                }
            }
        } else {
            assert(pool[a] == k as usize);
            assert(row_has(before, x));
        }
    }
}


/// A dependency path between two names.
#[derive(Clone, Debug)]
pub struct DependencyPath {
    pub source: String,
    pub target: String,
    pub config: DependencyConfig,
    pub nodes: Vec<String>,
    pub layers: Vec<DependencyLayer>,
    pub total_weight: usize,
}

/// A filtered edge of `layer` and weight `w` leads from the declaration
/// called `from` to the symbol called `to`.
pub open spec fn path_edge(
    s: ExtractionSnapshot,
    edges: Seq<DependencyEdge>,
    f: AnalysisFilter,
    from: Seq<char>,
    to: Seq<char>,
    layer: DependencyLayer,
    w: usize,
) -> bool {
    exists|k: int| 0 <= k < edges.len() && #[trigger] edge_selected(s, f, edges[k])
        && s.declarations@[edges[k].source as int].name@ == from && edges[k].target@ == to
        && edges[k].layer == layer && edges[k].occurrences == w
}

/// The sum of the weights.
pub open spec fn weight_sum(ws: Seq<usize>) -> nat
    decreases ws.len(),
{
    if ws.len() == 0 {
        0
    } else {
        weight_sum(ws.drop_last()) + ws.last() as nat
    }
}

/// The path leads from `source` to `target` along filtered edges, at most
/// `max_depth` of them, and its weight is their (saturating) total.
pub open spec fn path_found(
    s: ExtractionSnapshot,
    edges: Seq<DependencyEdge>,
    config: DependencyConfig,
    source: Seq<char>,
    target: Seq<char>,
    p: DependencyPath,
) -> bool {
    let names = texts_view(p.nodes@);
    &&& p.source@ == source
    &&& p.target@ == target
    &&& same_config(p.config, config)
    &&& names.len() == p.layers@.len() + 1
    &&& names[0] == source
    &&& names.last() == target
    &&& p.layers@.len() <= config.max_depth
    &&& exists|ws: Seq<usize>| ws.len() == p.layers@.len() && p.total_weight == capped(weight_sum(ws)) && forall|i: int|
        0 <= i < ws.len() ==> #[trigger] path_edge(s, edges, config.filter, names[i], names[i + 1], p.layers@[i], ws[i])
}

/// A filtered edge leads from the declaration called `from` to the symbol
/// `to`.
pub open spec fn filtered_link(s: ExtractionSnapshot, edges: Seq<DependencyEdge>, f: AnalysisFilter, from: Seq<char>, to: Seq<char>) -> bool {
    exists|k: int| 0 <= k < edges.len() && #[trigger] edge_selected(s, f, edges[k])
        && s.declarations@[edges[k].source as int].name@ == from && edges[k].target@ == to
}

/// `names` is a chain of at most `max_depth` filtered edges from `source` to
/// `target`.
pub open spec fn chain_ok(s: ExtractionSnapshot, edges: Seq<DependencyEdge>, f: AnalysisFilter, names: Seq<Seq<char>>,
    source: Seq<char>, target: Seq<char>, max_depth: int) -> bool {
    &&& 1 <= names.len() <= max_depth + 1
    &&& names[0] == source
    &&& names.last() == target
    &&& forall|i: int| 0 <= i < names.len() - 1 ==> #[trigger] filtered_link(s, edges, f, names[i], names[i + 1])
}

/// Some chain of at most `max_depth` filtered edges leads from `source` to
/// `target`.
pub open spec fn path_reachable(s: ExtractionSnapshot, edges: Seq<DependencyEdge>, f: AnalysisFilter,
    source: Seq<char>, target: Seq<char>, max_depth: int) -> bool {
    exists|names: Seq<Seq<char>>| #[trigger] chain_ok(s, edges, f, names, source, target, max_depth)
}

/// Queue entries come in order of depth.
spec fn depth_sorted(q: Seq<PathVisit>) -> bool {
    forall|a: int, b: int| 0 <= a < b < q.len() ==> (#[trigger] q[a]).depth <= (#[trigger] q[b]).depth
}

/// Every symbol that a filtered edge reaches from entry `i` is queued at
/// most one level below it.
spec fn expanded(s: ExtractionSnapshot, edges: Seq<DependencyEdge>, f: AnalysisFilter, q: Seq<PathVisit>, seen: Seq<bool>, position: Seq<usize>, i: int) -> bool {
    forall|t: int| 0 <= t < s.symbols@.len() && #[trigger] filtered_link(s, edges, f, s.symbols@[q[i].symbol as int].name@, s.symbols@[t].name@)
        ==> seen[t] && position[t] < q.len() && q[position[t] as int].depth <= q[i].depth + 1
}

/// An entry of the path search queue with the edge that reached it.
struct PathVisit {
    symbol: usize,
    depth: usize,
    parent: usize,
    layer: DependencyLayer,
    weight: usize,
}

/// A filtered edge out of a declaration, with the symbol it reaches.
struct PathStep {
    symbol: usize,
    layer: DependencyLayer,
    weight: usize,
}

/// Some step follows edge `e`: to the symbol it names, in its layer, with
/// its weight.
spec fn step_follows(s: ExtractionSnapshot, steps: Seq<PathStep>, e: DependencyEdge) -> bool {
    exists|i: int| 0 <= i < steps.len() && (#[trigger] steps[i]).symbol < s.symbols@.len()
        && s.symbols@[steps[i].symbol as int].name@ == e.target@ && steps[i].layer == e.layer && steps[i].weight == e.occurrences
}

/// The path search queue: the source first, then distinct symbols, each
/// reached one level deeper from an earlier entry by a filtered edge.
#[verifier::opaque]
spec fn path_queue_ok(
    s: ExtractionSnapshot,
    edges: Seq<DependencyEdge>,
    f: AnalysisFilter,
    source: usize,
    max_depth: usize,
    q: Seq<PathVisit>,
    seen: Seq<bool>,
    position: Seq<usize>,
) -> bool {
    &&& q.len() >= 1
    &&& q[0].symbol == source && q[0].depth == 0
    &&& seen.len() == s.symbols@.len()
    &&& position.len() == s.symbols@.len()
    &&& forall|i: int| 0 <= i < q.len() ==> (#[trigger] q[i]).symbol < s.symbols@.len() && seen[q[i].symbol as int]
        && position[q[i].symbol as int] == i
    &&& forall|y: int| 0 <= y < seen.len() && #[trigger] seen[y] ==> position[y] < q.len() && q[position[y] as int].symbol == y
    &&& forall|i: int| 1 <= i < q.len() ==> {
        let v = #[trigger] q[i];
        &&& v.parent < i
        &&& 1 <= v.depth <= max_depth
        &&& q[v.parent as int].depth + 1 == v.depth
        &&& path_edge(s, edges, f, s.symbols@[q[v.parent as int].symbol as int].name@, s.symbols@[v.symbol as int].name@, v.layer, v.weight)
    }
}

proof fn lemma_weight_sum_push(ws: Seq<usize>, w: usize)
    ensures
        weight_sum(ws.push(w)) == weight_sum(ws) + w,
{
    assert(ws.push(w).drop_last() == ws);
}

proof fn lemma_weight_sum_prepend(ws: Seq<usize>, w: usize)
    ensures
        weight_sum(seq![w] + ws) == w + weight_sum(ws),
    decreases ws.len(),
{
    if ws.len() == 0 {
        assert(seq![w] + ws == seq![w]);
        assert(seq![w].drop_last() == Seq::<usize>::empty());
        assert(weight_sum(Seq::<usize>::empty()) == 0);
    } else {
        assert((seq![w] + ws).drop_last() == seq![w] + ws.drop_last());
        assert((seq![w] + ws).last() == ws.last());
        lemma_weight_sum_prepend(ws.drop_last(), w);
    }
}

impl AnalysisCorpus {
    /// A shortest dependency path (fewest edges, at most `max_depth`) from
    /// the declaration `source` to the symbol `target`, preferring targets by
    /// name and statement edges on ties. `None` where `source` is no
    /// declaration, `target` no symbol, or no path was found.
    pub fn shortest_dependency_path(&self, source: &str, target: &str, config: &DependencyConfig) -> (r: Option<DependencyPath>)
        ensures
            !declaration_known(self.snapshot_view(), source@) ==> r is None,
            !symbol_known(self.snapshot_view(), target@) ==> r is None,
            r matches Some(p) ==> path_found(self.snapshot_view(), self.edges_view(), *config, source@, target@, p),
            r is Some <==> declaration_known(self.snapshot_view(), source@) && symbol_known(self.snapshot_view(), target@)
                && path_reachable(self.snapshot_view(), self.edges_view(), config.filter, source@, target@, config.max_depth as int),
            r matches Some(p) ==> forall|names: Seq<Seq<char>>|
                #[trigger] chain_ok(self.snapshot_view(), self.edges_view(), config.filter, names, source@, target@, config.max_depth as int)
                ==> p.layers@.len() <= names.len() - 1,
    {
        proof {
            use_type_invariant(self);
        }
        let ghost s = self.snapshot_view();
        if self.declaration_id(source).is_none() {
            return None;
        }
        let target_symbol = match self.symbol_id(target) {
            Some(y) => y,
            None => {
                return None;
            },
        };
        proof {
            let d = choose|i: int| 0 <= i < s.declarations@.len() && #[trigger] s.declarations@[i].name@ == source@;
            assert(crate::validation::symbol_known(s, s.declarations@[d].name@));
        }
        let source_symbol = match self.symbol_id(source) {
            Some(y) => y,
            None => {
                return None;
            },
        };
        let (queue, seen, position) = self.path_search(source_symbol, target_symbol, config);
        proof {
            lemma_path_queue_lens(s, self.edges_view(), config.filter, source_symbol, config.max_depth, queue@, seen@, position@);
        }
        if source_symbol != target_symbol && !seen[target_symbol] {
            proof {
                if path_reachable(s, self.edges_view(), config.filter, source@, target@, config.max_depth as int) {
                    let names = choose|names: Seq<Seq<char>>| #[trigger] chain_ok(s, self.edges_view(), config.filter, names, source@, target@, config.max_depth as int);
                    let t = lemma_chain_reached(s, self.edges_view(), config.filter, source_symbol, config.max_depth,
                        queue@, seen@, position@, names, target@, names.len() as int, names.len() - 1);
                    if t != target_symbol as int {
                        if t < target_symbol {
                            assert(s.symbols@[t].name@ != s.symbols@[target_symbol as int].name@);
                        } else {
                            assert(s.symbols@[target_symbol as int].name@ != s.symbols@[t].name@);
                        }
                    }
                }
            }
            return None;
        }
        proof {
            if source_symbol == target_symbol {
                assert(queue@[0].symbol == source_symbol);
            }
        }
        let found = self.path_from_queue(&queue, &seen, &position, source_symbol, target_symbol, source, target, config);
        proof {
            lemma_found_reachable(s, self.edges_view(), *config, source@, target@, found);
            let pt = position@[target_symbol as int] as int;
            assert forall|names: Seq<Seq<char>>|
                #[trigger] chain_ok(s, self.edges_view(), config.filter, names, source@, target@, config.max_depth as int)
                implies found.layers@.len() <= names.len() - 1 by {
                if names.len() - 1 < found.layers@.len() {
                    let t = lemma_chain_reached(s, self.edges_view(), config.filter, source_symbol, config.max_depth,
                        queue@, seen@, position@, names, target@, queue@[pt].depth as int, names.len() - 1);
                    if t != target_symbol as int {
                        if t < target_symbol {
                            assert(s.symbols@[t].name@ != s.symbols@[target_symbol as int].name@);
                        } else {
                            assert(s.symbols@[target_symbol as int].name@ != s.symbols@[t].name@);
                        }
                    }
                }
            }
        }
        Some(found)
    }

    /// Breadth first search from `source_symbol` along filtered edges, at
    /// most `max_depth` levels deep, until `target_symbol` is taken from the
    /// queue.
    fn path_search(&self, source_symbol: usize, target_symbol: usize, config: &DependencyConfig) -> (r: (Vec<PathVisit>, Vec<bool>, Vec<usize>))
        requires
            source_symbol < self.snapshot_view().symbols@.len(),
            target_symbol < self.snapshot_view().symbols@.len(),
        ensures
            path_queue_ok(self.snapshot_view(), self.edges_view(), config.filter, source_symbol, config.max_depth, r.0@, r.1@, r.2@),
            r.1@[target_symbol as int] || forall|i: int| 0 <= i < r.0@.len() && r.0@[i].depth < config.max_depth
                ==> #[trigger] expanded(self.snapshot_view(), self.edges_view(), config.filter, r.0@, r.1@, r.2@, i),
            r.1@[target_symbol as int] ==> forall|i: int| 0 <= i < r.0@.len() && r.0@[i].depth < config.max_depth
                && r.0@[i].depth < r.0@[r.2@[target_symbol as int] as int].depth
                ==> #[trigger] expanded(self.snapshot_view(), self.edges_view(), config.filter, r.0@, r.1@, r.2@, i),
    {
        proof {
            use_type_invariant(self);
        }
        let ghost s = self.snapshot_view();
        let ghost all = self.edges_view();
        let symbols = self.symbols();
        let count = symbols.len();
        let mut seen: Vec<bool> = Vec::new();
        let mut position: Vec<usize> = Vec::new();
        let mut y: usize = 0;
        while y < count
            invariant
                y <= count,
                seen@.len() == y,
                position@.len() == y,
                forall|z: int| 0 <= z < y ==> #[trigger] seen@[z] == (z == source_symbol),
                forall|z: int| 0 <= z < y ==> #[trigger] position@[z] == 0,
            decreases count - y,
        {
            seen.push(y == source_symbol);
            position.push(0);
            y = y + 1;
        }
        let mut queue: Vec<PathVisit> = Vec::new();
        queue.push(PathVisit { symbol: source_symbol, depth: 0, parent: 0, layer: DependencyLayer::Statement, weight: 0 });
        proof {
            lemma_count_true_start_path(seen@, source_symbol as int);
            assert(queue@ == seq![queue@[0]]);
            lemma_path_queue_start(s, all, config.filter, source_symbol, config.max_depth, seen@, position@, queue@[0]);
        }
        let mut head: usize = 0;
        while head < queue.len()
            invariant
                s == self.snapshot_view(),
                all == self.edges_view(),
                symbols@ == s.symbols@,
                count == s.symbols@.len(),
                path_queue_ok(s, all, config.filter, source_symbol, config.max_depth, queue@, seen@, position@),
                count_true(seen@) == queue@.len(),
                head <= queue@.len(),
                crate::validation::snapshot_valid(s),
                edges_describe(s, all),
                target_symbol < s.symbols@.len(),
                depth_sorted(queue@),
                head == 0 ==> queue@.len() == 1,
                head >= 1 ==> forall|j: int| 0 <= j < queue@.len() ==> #[trigger] queue@[j].depth <= queue@[head - 1].depth + 1,
                forall|i: int| 0 <= i < head && queue@[i].depth < config.max_depth && queue@[i].symbol != target_symbol
                    ==> #[trigger] expanded(s, all, config.filter, queue@, seen@, position@, i),
            ensures
                head >= queue@.len() || (seen@[target_symbol as int] && head >= 1 && queue@[head - 1].symbol == target_symbol),
            decreases count - head,
        {
            proof {
                lemma_count_true_bound_path(seen@);
                lemma_path_queue_lens(s, all, config.filter, source_symbol, config.max_depth, queue@, seen@, position@);
            }
            let current = head;
            let symbol = queue[head].symbol;
            let depth = queue[head].depth;
            head = head + 1;
            proof {
                assert forall|j: int| 0 <= j < queue@.len() implies #[trigger] queue@[j].depth <= queue@[current as int].depth + 1 by {
                    if current >= 1 {
                        assert(queue@[j].depth <= queue@[current - 1].depth + 1);
                        assert(queue@[current - 1].depth <= queue@[current as int].depth);
                    }
                }
            }
            if symbol == target_symbol {
                break;
            }
            if depth >= config.max_depth {
                continue;
            }
            let name = symbols[symbol].name.as_str();
            let id = match self.declaration_id(name) {
                Some(id) => id,
                None => {
                    proof {
                        assert forall|t: int| 0 <= t < s.symbols@.len()
                            && #[trigger] filtered_link(s, all, config.filter, s.symbols@[queue@[current as int].symbol as int].name@, s.symbols@[t].name@)
                            implies false by {
                            let k = choose|k: int| 0 <= k < all.len() && #[trigger] edge_selected(s, config.filter, all[k])
                                && s.declarations@[all[k].source as int].name@ == name@ && all[k].target@ == s.symbols@[t].name@;
                            assert(edge_describes(s, all[k]));
                            assert(s.declarations@[all[k].source as int].name@ == name@);
                        }
                        assert(expanded(s, all, config.filter, queue@, seen@, position@, current as int));
                    }
                    continue;
                },
            };
            let steps = self.path_steps(id, &config.filter);
            let ghost q0 = queue@;
            let ghost seen0 = seen@;
            let ghost pos0 = position@;
            self.path_expand(&mut queue, &mut seen, &mut position, &steps, current, source_symbol, config);
            proof {
                lemma_steps_cover(s, all, config.filter, id as int, steps@);
                lemma_expanded_new(s, all, config.filter, source_symbol, config.max_depth, q0, seen0, pos0,
                    queue@, seen@, position@, current as int, steps@);
                assert forall|i: int| 0 <= i < head && queue@[i].depth < config.max_depth && queue@[i].symbol != target_symbol
                    implies #[trigger] expanded(s, all, config.filter, queue@, seen@, position@, i) by {
                    if i < current {
                        assert(queue@[i] == q0[i]);
                        lemma_expanded_kept(s, all, config.filter, q0, seen0, pos0, queue@, seen@, position@, i);
                    }
                }
            }
        }
        proof {
            lemma_path_queue_lens(s, all, config.filter, source_symbol, config.max_depth, queue@, seen@, position@);
            if seen@[target_symbol as int] {
                let pt = position@[target_symbol as int] as int;
                lemma_path_queue_seen(s, all, config.filter, source_symbol, config.max_depth, queue@, seen@, position@, target_symbol as int);
                assert forall|i: int| 0 <= i < queue@.len() && queue@[i].depth < config.max_depth && queue@[i].depth < queue@[pt].depth
                    implies #[trigger] expanded(s, all, config.filter, queue@, seen@, position@, i) by {
                    if queue@[i].symbol == target_symbol {
                        assert(position@[queue@[i].symbol as int] == i);
                    }
                    if head < queue@.len() {
                        assert(position@[queue@[head - 1].symbol as int] == head - 1);
                        if i >= head - 1 {
                            if i > head - 1 {
                                assert(queue@[head - 1].depth <= queue@[i].depth);
                            }
                        }
                    }
                }
            }
            if !seen@[target_symbol as int] {
                assert forall|i: int| 0 <= i < queue@.len() && queue@[i].depth < config.max_depth
                    implies #[trigger] expanded(s, all, config.filter, queue@, seen@, position@, i) by {
                    assert(seen@[queue@[i].symbol as int]);
                }
            }
        }
        (queue, seen, position)
    }

    /// The filtered edges out of declaration `id`, in listing order, with
    /// the symbols they reach.
    fn path_steps(&self, id: usize, filter: &AnalysisFilter) -> (r: Vec<PathStep>)
        requires
            id < self.snapshot_view().declarations@.len(),
        ensures
            forall|k: int| 0 <= k < r@.len() ==> {
                let x = #[trigger] r@[k];
                &&& x.symbol < self.snapshot_view().symbols@.len()
                &&& path_edge(self.snapshot_view(), self.edges_view(), *filter,
                    self.snapshot_view().declarations@[id as int].name@,
                    self.snapshot_view().symbols@[x.symbol as int].name@, x.layer, x.weight)
            },
            forall|e: int| 0 <= e < self.edges_view().len() && (#[trigger] self.edges_view()[e]).source == id
                && edge_selected(self.snapshot_view(), *filter, self.edges_view()[e])
                ==> step_follows(self.snapshot_view(), r@, self.edges_view()[e]),
    {
        proof {
            use_type_invariant(self);
        }
        let ghost s = self.snapshot_view();
        let ghost all = self.edges_view();
        let edges = self.edges();
        let outgoing = self.outgoing_edge_ids(id);
        let selected = self.select_edge_ids(outgoing, filter);
        proof {
            assert(selected@.no_duplicates()) by {
                assert forall|i: int, j: int| 0 <= i < selected@.len() && 0 <= j < selected@.len() && i != j
                    implies selected@[i] != selected@[j] by {
                    if i < j {
                        assert(selected@[i] < selected@[j]);
                    } else {
                        assert(selected@[j] < selected@[i]);
                    }
                }
            }
            assert forall|k: int| 0 <= k < selected@.len() implies #[trigger] selected@[k] < all.len() by {
                assert(outgoing@.contains(selected@[k]));
            }
        }
        let ordered = sort_edge_ids(self, &selected, false);
        proof {
            assert forall|x: int| 0 <= x < ordered@.len() implies #[trigger] ordered@[x] < all.len()
                && edge_selected(s, *filter, all[ordered@[x] as int]) && all[ordered@[x] as int].source == id by {
                assert(selected@.contains(ordered@[x]));
                let j = choose|j: int| 0 <= j < selected@.len() && selected@[j] == ordered@[x];
                assert(outgoing@.contains(selected@[j]));
            }
        }
        let mut r: Vec<PathStep> = Vec::new();
        let mut k: usize = 0;
        while k < ordered.len()
            invariant
                s == self.snapshot_view(),
                all == self.edges_view(),
                edges@ == all,
                edges_describe(s, all),
                crate::validation::snapshot_valid(s),
                id < s.declarations@.len(),
                forall|x: int| 0 <= x < ordered@.len() ==> #[trigger] ordered@[x] < all.len()
                    && edge_selected(s, *filter, all[ordered@[x] as int]) && all[ordered@[x] as int].source == id,
                k <= ordered@.len(),
                forall|j: int| 0 <= j < r@.len() ==> {
                    let x = #[trigger] r@[j];
                    &&& x.symbol < s.symbols@.len()
                    &&& path_edge(s, all, *filter, s.declarations@[id as int].name@, s.symbols@[x.symbol as int].name@, x.layer, x.weight)
                },
                forall|j: int| 0 <= j < k ==> step_follows(s, r@, all[#[trigger] ordered@[j] as int]),
            decreases ordered@.len() - k,
        {
            let ghost prev = r@;
            let edge = &edges[ordered[k]];
            proof {
                assert(edge_describes(s, *edge));
                let z = choose|z: int| 0 <= z < s.symbols@.len() && edge_matches_symbol_metadata(*edge, #[trigger] s.symbols@[z]);
                assert(s.symbols@[z].name@ == edge.target@);
            }
            match self.symbol_id(edge.target.as_str()) {
                Some(t) => {
                    proof {
                        assert(edge_selected(s, *filter, all[ordered@[k as int] as int]));
                        assert(path_edge(s, all, *filter, s.declarations@[id as int].name@, s.symbols@[t as int].name@,
                            edge.layer, edge.occurrences));
                    }
                    r.push(PathStep { symbol: t, layer: edge.layer, weight: edge.occurrences });
                    proof {
                        assert(r@[prev.len() as int].symbol == t);
                        assert forall|j: int| 0 <= j < k + 1 implies step_follows(s, r@, all[#[trigger] ordered@[j] as int]) by {
                            if j < k {
                                let e = all[ordered@[j] as int];
                                assert(step_follows(s, prev, e));
                                let i = choose|i: int| 0 <= i < prev.len() && (#[trigger] prev[i]).symbol < s.symbols@.len()
                                    && s.symbols@[prev[i].symbol as int].name@ == e.target@ && prev[i].layer == e.layer && prev[i].weight == e.occurrences;
                                assert(r@[i] == prev[i]);
                            }
                        }
                    }
                },
                None => {},
            }
            k = k + 1;
        }
        proof {
            assert forall|e: int| 0 <= e < all.len() && (#[trigger] all[e]).source == id && edge_selected(s, *filter, all[e])
                implies step_follows(s, r@, all[e]) by {
                assert(edges@.len() == edges.len());
                assert(outgoing@.contains(e as usize));
                let a = choose|a: int| 0 <= a < outgoing@.len() && outgoing@[a] == e as usize;
                assert(edge_selected(s, *filter, all[outgoing@[a] as int]));
                assert(selected@.contains(e as usize));
                let b = choose|b: int| 0 <= b < selected@.len() && selected@[b] == e as usize;
                assert(ordered@.contains(selected@[b]));
                let c = choose|c: int| 0 <= c < ordered@.len() && ordered@[c] == e as usize;
                assert(step_follows(s, r@, all[ordered@[c] as int]));
            }
        }
        r
    }

    /// Queues each step's symbol not seen yet, one level below the entry at
    /// `current`.
    fn path_expand(
        &self,
        queue: &mut Vec<PathVisit>,
        seen: &mut Vec<bool>,
        position: &mut Vec<usize>,
        steps: &Vec<PathStep>,
        current: usize,
        source_symbol: usize,
        config: &DependencyConfig,
    )
        requires
            path_queue_ok(self.snapshot_view(), self.edges_view(), config.filter, source_symbol, config.max_depth,
                old(queue)@, old(seen)@, old(position)@),
            count_true(old(seen)@) == old(queue)@.len(),
            current < old(queue)@.len(),
            old(queue)@[current as int].depth < config.max_depth,
            forall|k: int| 0 <= k < steps@.len() ==> {
                let x = #[trigger] steps@[k];
                &&& x.symbol < self.snapshot_view().symbols@.len()
                &&& path_edge(self.snapshot_view(), self.edges_view(), config.filter,
                    self.snapshot_view().symbols@[old(queue)@[current as int].symbol as int].name@,
                    self.snapshot_view().symbols@[x.symbol as int].name@, x.layer, x.weight)
            },
        ensures
            path_queue_ok(self.snapshot_view(), self.edges_view(), config.filter, source_symbol, config.max_depth,
                final(queue)@, final(seen)@, final(position)@),
            count_true(final(seen)@) == final(queue)@.len(),
            final(queue)@.len() >= old(queue)@.len(),
            forall|i: int| 0 <= i < old(queue)@.len() ==> #[trigger] final(queue)@[i] == old(queue)@[i],
            forall|y: int| 0 <= y < old(seen)@.len() && #[trigger] old(seen)@[y] ==> final(seen)@[y] && final(position)@[y] == old(position)@[y],
            forall|k: int| 0 <= k < steps@.len() ==> final(seen)@[(#[trigger] steps@[k]).symbol as int],
            forall|i: int| old(queue)@.len() <= i < final(queue)@.len() ==> {
                let v = #[trigger] final(queue)@[i];
                &&& v.parent == current
                &&& !old(seen)@[v.symbol as int]
                &&& exists|k: int| 0 <= k < steps@.len() && (#[trigger] steps@[k]).symbol == v.symbol
                    && steps@[k].layer == v.layer && steps@[k].weight == v.weight
            },
    {
        let ghost s = self.snapshot_view();
        let ghost all = self.edges_view();
        let ghost q_start = queue@;
        let ghost seen_start = seen@;
        let ghost pos_start = position@;
        let mut k: usize = 0;
        while k < steps.len()
            invariant
                s == self.snapshot_view(),
                all == self.edges_view(),
                path_queue_ok(s, all, config.filter, source_symbol, config.max_depth, queue@, seen@, position@),
                count_true(seen@) == queue@.len(),
                current < q_start.len(),
                q_start[current as int].depth < config.max_depth,
                queue@.len() >= q_start.len(),
                queue@[current as int] == q_start[current as int],
                forall|j: int| 0 <= j < steps@.len() ==> {
                    let x = #[trigger] steps@[j];
                    &&& x.symbol < s.symbols@.len()
                    &&& path_edge(s, all, config.filter, s.symbols@[q_start[current as int].symbol as int].name@,
                        s.symbols@[x.symbol as int].name@, x.layer, x.weight)
                },
                k <= steps@.len(),
                seen@.len() == seen_start.len(),
                forall|i: int| 0 <= i < q_start.len() ==> #[trigger] queue@[i] == q_start[i],
                forall|y: int| 0 <= y < seen_start.len() && #[trigger] seen_start[y] ==> seen@[y] && position@[y] == pos_start[y],
                forall|j: int| 0 <= j < k ==> seen@[(#[trigger] steps@[j]).symbol as int],
                forall|i: int| q_start.len() <= i < queue@.len() ==> {
                    let v = #[trigger] queue@[i];
                    &&& v.parent == current
                    &&& !seen_start[v.symbol as int]
                    &&& exists|j: int| 0 <= j < steps@.len() && (#[trigger] steps@[j]).symbol == v.symbol
                        && steps@[j].layer == v.layer && steps@[j].weight == v.weight
                },
            decreases steps@.len() - k,
        {
            proof {
                lemma_count_true_bound_path(seen@);
                lemma_path_queue_lens(s, all, config.filter, source_symbol, config.max_depth, queue@, seen@, position@);
            }
            let step = &steps[k];
            let t = step.symbol;
            if !seen[t] {
                let ghost q0 = queue@;
                let ghost seen0 = seen@;
                let ghost pos0 = position@;
                proof {
                    lemma_count_true_set(seen@, t as int);
                }
                seen.set(t, true);
                position.set(t, queue.len());
                let visit = PathVisit {
                    symbol: t,
                    depth: queue[current].depth + 1,
                    parent: current,
                    layer: step.layer,
                    weight: step.weight,
                };
                proof {
                    lemma_path_queue_push(s, all, config.filter, source_symbol, config.max_depth, q0, seen0, pos0, visit);
                    assert(!seen_start[t as int]);
                }
                queue.push(visit);
                proof {
                    assert(steps@[k as int].symbol == visit.symbol);
                    assert forall|i: int| q_start.len() <= i < queue@.len() implies {
                        let v = #[trigger] queue@[i];
                        &&& v.parent == current
                        &&& !seen_start[v.symbol as int]
                        &&& exists|j: int| 0 <= j < steps@.len() && (#[trigger] steps@[j]).symbol == v.symbol
                            && steps@[j].layer == v.layer && steps@[j].weight == v.weight
                    } by {
                        if i < q0.len() {
                            assert(queue@[i] == q0[i]);
                        } else {
                            assert(queue@[i] == visit);
                            assert(steps@[k as int].symbol == visit.symbol);
                        }
                    }
                }
            }
            k = k + 1;
        }
    }

    /// The path that the queue's parent links give from the source to
    /// `target_symbol`.
    fn path_from_queue(
        &self,
        queue: &Vec<PathVisit>,
        seen: &Vec<bool>,
        position: &Vec<usize>,
        source_symbol: usize,
        target_symbol: usize,
        source: &str,
        target: &str,
        config: &DependencyConfig,
    ) -> (r: DependencyPath)
        requires
            path_queue_ok(self.snapshot_view(), self.edges_view(), config.filter, source_symbol, config.max_depth, queue@, seen@, position@),
            source_symbol < self.snapshot_view().symbols@.len(),
            target_symbol < self.snapshot_view().symbols@.len(),
            self.snapshot_view().symbols@[source_symbol as int].name@ == source@,
            self.snapshot_view().symbols@[target_symbol as int].name@ == target@,
            seen@[target_symbol as int],
        ensures
            path_found(self.snapshot_view(), self.edges_view(), *config, source@, target@, r),
            r.layers@.len() == queue@[position@[target_symbol as int] as int].depth,
    {
        let ghost s = self.snapshot_view();
        let ghost all = self.edges_view();
        let symbols = self.symbols();
        proof {
            lemma_path_queue_lens(s, all, config.filter, source_symbol, config.max_depth, queue@, seen@, position@);
            lemma_path_queue_seen(s, all, config.filter, source_symbol, config.max_depth, queue@, seen@, position@, target_symbol as int);
        }
        let mut names_back: Vec<String> = Vec::new();
        let mut layers_back: Vec<DependencyLayer> = Vec::new();
        let mut total: usize = 0;
        let mut cursor = position[target_symbol];
        let ghost mut ws_back: Seq<usize> = Seq::empty();
        let ghost mut idx_back: Seq<int> = seq![cursor as int];
        names_back.push(copy_text(&symbols[queue[cursor].symbol].name));
        while cursor != 0
            invariant
                s == self.snapshot_view(),
                symbols@ == s.symbols@,
                path_queue_ok(s, all, config.filter, source_symbol, config.max_depth, queue@, seen@, position@),
                position@.len() == s.symbols@.len(),
                target_symbol < s.symbols@.len(),
                cursor < queue@.len(),
                idx_back.len() == names_back@.len(),
                idx_back.len() == layers_back@.len() + 1,
                ws_back.len() == layers_back@.len(),
                idx_back[0] == position@[target_symbol as int] as int,
                idx_back.last() == cursor as int,
                forall|j: int| 0 <= j < idx_back.len() ==> 0 <= #[trigger] idx_back[j] < queue@.len()
                    && names_back@[j]@ == s.symbols@[queue@[idx_back[j]].symbol as int].name@,
                forall|j: int| 0 <= j < layers_back@.len() ==> {
                    let v = queue@[#[trigger] idx_back[j]];
                    &&& idx_back[j + 1] == v.parent as int
                    &&& layers_back@[j] == v.layer
                    &&& ws_back[j] == v.weight
                },
                queue@[position@[target_symbol as int] as int].depth == queue@[cursor as int].depth + layers_back@.len(),
                forall|j: int| 0 <= j < idx_back.len() ==> queue@[#[trigger] idx_back[j]].depth + j
                    == queue@[position@[target_symbol as int] as int].depth,
                total == capped(weight_sum(ws_back)),
            decreases queue@[cursor as int].depth,
        {
            proof {
                lemma_path_queue_lens(s, all, config.filter, source_symbol, config.max_depth, queue@, seen@, position@);
                lemma_path_queue_parent(s, all, config.filter, source_symbol, config.max_depth, queue@, seen@, position@, cursor as int);
            }
            let v = &queue[cursor];
            let parent = v.parent;
            layers_back.push(v.layer);
            proof {
                lemma_weight_sum_push(ws_back, v.weight);
                ws_back = ws_back.push(v.weight);
                idx_back = idx_back.push(parent as int);
            }
            total = if total <= usize::MAX - v.weight { total + v.weight } else { usize::MAX };
            names_back.push(copy_text(&symbols[queue[parent].symbol].name));
            cursor = parent;
        }
        proof {
            lemma_path_queue_lens(s, all, config.filter, source_symbol, config.max_depth, queue@, seen@, position@);
        }
        let n = names_back.len();
        let mut nodes: Vec<String> = Vec::new();
        let mut layers: Vec<DependencyLayer> = Vec::new();
        let mut i: usize = 0;
        while i < n
            invariant
                n == names_back@.len(),
                n == layers_back@.len() + 1,
                i <= n,
                nodes@.len() == i,
                forall|j: int| 0 <= j < i ==> #[trigger] nodes@[j]@ == names_back@[n - 1 - j]@,
                layers@.len() == if i == 0 { 0 } else { i - 1 },
                forall|j: int| 0 <= j < layers@.len() ==> #[trigger] layers@[j] == layers_back@[n - 2 - j],
            decreases n - i,
        {
            nodes.push(copy_text(&names_back[n - 1 - i]));
            if i > 0 {
                layers.push(layers_back[n - 1 - i]);
            }
            i = i + 1;
        }
        let result = DependencyPath {
            source: text_from(source),
            target: text_from(target),
            config: copy_config(config),
            nodes,
            layers,
            total_weight: total,
        };
        proof {
            lemma_path_from_chain(s, all, *config, source_symbol, target_symbol, source@, target@, queue@, seen@, position@,
                idx_back, names_back@, layers_back@, ws_back, total, result);
        }
        result
    }
}

proof fn lemma_count_true_start_path(seen: Seq<bool>, start: int)
    requires
        0 <= start < seen.len(),
        forall|z: int| 0 <= z < seen.len() ==> #[trigger] seen[z] == (z == start),
    ensures
        count_true(seen) == 1,
{
    assert(seen == Seq::new(seen.len(), |z: int| z == start));
    lemma_count_true_start(seen, start);
}

proof fn lemma_count_true_bound_path(seen: Seq<bool>)
    ensures
        count_true(seen) <= seen.len(),
{
    lemma_count_true_bound(seen);
}

#[verifier::rlimit(40)]
proof fn lemma_path_queue_push(
    s: ExtractionSnapshot,
    edges: Seq<DependencyEdge>,
    f: AnalysisFilter,
    source: usize,
    max_depth: usize,
    q: Seq<PathVisit>,
    seen: Seq<bool>,
    position: Seq<usize>,
    v: PathVisit,
)
    requires
        path_queue_ok(s, edges, f, source, max_depth, q, seen, position),
        v.symbol < s.symbols@.len(),
        !seen[v.symbol as int],
        v.parent < q.len(),
        q[v.parent as int].depth + 1 == v.depth,
        v.depth <= max_depth,
        q.len() <= usize::MAX,
        path_edge(s, edges, f, s.symbols@[q[v.parent as int].symbol as int].name@, s.symbols@[v.symbol as int].name@, v.layer, v.weight),
    ensures
        path_queue_ok(s, edges, f, source, max_depth, q.push(v), seen.update(v.symbol as int, true),
            position.update(v.symbol as int, q.len() as usize)),
{
    reveal(path_queue_ok);
    let q2 = q.push(v);
    let seen2 = seen.update(v.symbol as int, true);
    let pos2 = position.update(v.symbol as int, q.len() as usize);
    assert forall|i: int| 0 <= i < q2.len() implies (#[trigger] q2[i]).symbol < s.symbols@.len() && seen2[q2[i].symbol as int]
        && pos2[q2[i].symbol as int] == i by {
        if i < q.len() {
            assert(q2[i] == q[i]);
            assert(q[i].symbol != v.symbol);
        }
    }
    assert forall|y: int| 0 <= y < seen2.len() && #[trigger] seen2[y] implies pos2[y] < q2.len() && q2[pos2[y] as int].symbol == y by {
        if y != v.symbol {
            assert(q2[position[y] as int] == q[position[y] as int]);
        }
    }
    assert forall|i: int| 1 <= i < q2.len() implies {
        let w = #[trigger] q2[i];
        &&& w.parent < i
        &&& 1 <= w.depth <= max_depth
        &&& q2[w.parent as int].depth + 1 == w.depth
        &&& path_edge(s, edges, f, s.symbols@[q2[w.parent as int].symbol as int].name@, s.symbols@[w.symbol as int].name@, w.layer, w.weight)
    } by {
        if i < q.len() {
            assert(q2[i] == q[i]);
            assert(q2[q[i].parent as int] == q[q[i].parent as int]);
        } else {
            assert(q2[v.parent as int] == q[v.parent as int]);
        }
    }
}

proof fn lemma_path_queue_lens(
    s: ExtractionSnapshot,
    edges: Seq<DependencyEdge>,
    f: AnalysisFilter,
    source: usize,
    max_depth: usize,
    q: Seq<PathVisit>,
    seen: Seq<bool>,
    position: Seq<usize>,
)
    requires
        path_queue_ok(s, edges, f, source, max_depth, q, seen, position),
    ensures
        q.len() >= 1,
        q[0].symbol == source && q[0].depth == 0,
        seen.len() == s.symbols@.len(),
        position.len() == s.symbols@.len(),
        seen[source as int],
        forall|i: int| 0 <= i < q.len() ==> (#[trigger] q[i]).symbol < s.symbols@.len() && seen[q[i].symbol as int]
            && position[q[i].symbol as int] == i,
{
    reveal(path_queue_ok);
}

/// Entries expanded before keep their expansion as the queue grows.
proof fn lemma_expanded_kept(
    s: ExtractionSnapshot,
    edges: Seq<DependencyEdge>,
    f: AnalysisFilter,
    q0: Seq<PathVisit>,
    seen0: Seq<bool>,
    pos0: Seq<usize>,
    q1: Seq<PathVisit>,
    seen1: Seq<bool>,
    pos1: Seq<usize>,
    i: int,
)
    requires
        0 <= i < q0.len(),
        expanded(s, edges, f, q0, seen0, pos0, i),
        q1.len() >= q0.len(),
        seen0.len() == s.symbols@.len(),
        forall|j: int| 0 <= j < q0.len() ==> #[trigger] q1[j] == q0[j],
        forall|y: int| 0 <= y < seen0.len() && #[trigger] seen0[y] ==> seen1[y] && pos1[y] == pos0[y],
    ensures
        expanded(s, edges, f, q1, seen1, pos1, i),
{
    assert forall|t: int| 0 <= t < s.symbols@.len()
        && #[trigger] filtered_link(s, edges, f, s.symbols@[q1[i].symbol as int].name@, s.symbols@[t].name@)
        implies seen1[t] && pos1[t] < q1.len() && q1[pos1[t] as int].depth <= q1[i].depth + 1 by {
        assert(q1[i] == q0[i]);
        assert(seen0[t]);
        assert(q1[pos0[t] as int] == q0[pos0[t] as int]);
    }
}

/// Every filtered edge out of declaration `id` has a step to its symbol.
proof fn lemma_steps_cover(s: ExtractionSnapshot, edges: Seq<DependencyEdge>, f: AnalysisFilter, id: int, steps: Seq<PathStep>)
    requires
        crate::validation::snapshot_valid(s),
        edges_describe(s, edges),
        0 <= id < s.declarations@.len(),
        forall|e: int| 0 <= e < edges.len() && (#[trigger] edges[e]).source == id && edge_selected(s, f, edges[e])
            ==> step_follows(s, steps, edges[e]),
    ensures
        forall|t: int| 0 <= t < s.symbols@.len() && #[trigger] filtered_link(s, edges, f, s.declarations@[id].name@, s.symbols@[t].name@)
            ==> exists|i: int| 0 <= i < steps.len() && (#[trigger] steps[i]).symbol == t,
{
    assert forall|t: int| 0 <= t < s.symbols@.len() && #[trigger] filtered_link(s, edges, f, s.declarations@[id].name@, s.symbols@[t].name@)
        implies exists|i: int| 0 <= i < steps.len() && (#[trigger] steps[i]).symbol == t by {
        let k = choose|k: int| 0 <= k < edges.len() && #[trigger] edge_selected(s, f, edges[k])
            && s.declarations@[edges[k].source as int].name@ == s.declarations@[id].name@ && edges[k].target@ == s.symbols@[t].name@;
        assert(edge_describes(s, edges[k]));
        let src = edges[k].source as int;
        if src != id {
            if src < id {
                assert(s.declarations@[src].name@ != s.declarations@[id].name@);
            } else {
                assert(s.declarations@[id].name@ != s.declarations@[src].name@);
            }
        }
        assert(step_follows(s, steps, edges[k]));
        let i = choose|i: int| 0 <= i < steps.len() && (#[trigger] steps[i]).symbol < s.symbols@.len()
            && s.symbols@[steps[i].symbol as int].name@ == edges[k].target@ && steps[i].layer == edges[k].layer
            && steps[i].weight == edges[k].occurrences;
        let y = steps[i].symbol as int;
        if y != t {
            if y < t {
                assert(s.symbols@[y].name@ != s.symbols@[t].name@);
            } else {
                assert(s.symbols@[t].name@ != s.symbols@[y].name@);
            }
        }
    }
}

/// After expanding entry `current`, it is expanded and the queue's depths
/// stay in order, none more than one below it.
proof fn lemma_expanded_new(
    s: ExtractionSnapshot,
    edges: Seq<DependencyEdge>,
    f: AnalysisFilter,
    source: usize,
    max_depth: usize,
    q0: Seq<PathVisit>,
    seen0: Seq<bool>,
    pos0: Seq<usize>,
    q1: Seq<PathVisit>,
    seen1: Seq<bool>,
    pos1: Seq<usize>,
    current: int,
    steps: Seq<PathStep>,
)
    requires
        path_queue_ok(s, edges, f, source, max_depth, q0, seen0, pos0),
        path_queue_ok(s, edges, f, source, max_depth, q1, seen1, pos1),
        0 <= current < q0.len(),
        depth_sorted(q0),
        forall|j: int| 0 <= j < q0.len() ==> #[trigger] q0[j].depth <= q0[current].depth + 1,
        q1.len() >= q0.len(),
        forall|j: int| 0 <= j < q0.len() ==> #[trigger] q1[j] == q0[j],
        forall|y: int| 0 <= y < seen0.len() && #[trigger] seen0[y] ==> seen1[y] && pos1[y] == pos0[y],
        forall|k: int| 0 <= k < steps.len() ==> seen1[(#[trigger] steps[k]).symbol as int],
        forall|i: int| q0.len() <= i < q1.len() ==> (#[trigger] q1[i]).parent == current,
        forall|t: int| 0 <= t < s.symbols@.len() && #[trigger] filtered_link(s, edges, f, s.symbols@[q0[current].symbol as int].name@, s.symbols@[t].name@)
            ==> exists|i: int| 0 <= i < steps.len() && (#[trigger] steps[i]).symbol == t,
    ensures
        expanded(s, edges, f, q1, seen1, pos1, current),
        depth_sorted(q1),
        forall|j: int| 0 <= j < q1.len() ==> #[trigger] q1[j].depth <= q1[current].depth + 1,
{
    lemma_path_queue_lens(s, edges, f, source, max_depth, q0, seen0, pos0);
    assert forall|j: int| q0.len() <= j < q1.len() implies (#[trigger] q1[j]).depth == q0[current].depth + 1 by {
        lemma_path_queue_parent(s, edges, f, source, max_depth, q1, seen1, pos1, j);
        assert(q1[q1[j].parent as int] == q0[current]);
    }
    assert forall|a: int, b: int| 0 <= a < b < q1.len() implies (#[trigger] q1[a]).depth <= (#[trigger] q1[b]).depth by {
        if b < q0.len() {
            assert(q0[a].depth <= q0[b].depth);
        } else if a < q0.len() {
            assert(q1[a] == q0[a]);
        }
    }
    assert forall|j: int| 0 <= j < q1.len() implies #[trigger] q1[j].depth <= q1[current].depth + 1 by {
        if j < q0.len() {
            assert(q1[j] == q0[j]);
        }
    }
    assert forall|t: int| 0 <= t < s.symbols@.len()
        && #[trigger] filtered_link(s, edges, f, s.symbols@[q1[current].symbol as int].name@, s.symbols@[t].name@)
        implies seen1[t] && pos1[t] < q1.len() && q1[pos1[t] as int].depth <= q1[current].depth + 1 by {
        assert(q1[current] == q0[current]);
        let i = choose|i: int| 0 <= i < steps.len() && (#[trigger] steps[i]).symbol == t;
        assert(seen1[steps[i].symbol as int]);
        lemma_path_queue_lens(s, edges, f, source, max_depth, q1, seen1, pos1);
        lemma_path_queue_seen(s, edges, f, source, max_depth, q1, seen1, pos1, t);
    }
}

proof fn lemma_path_queue_seen(
    s: ExtractionSnapshot,
    edges: Seq<DependencyEdge>,
    f: AnalysisFilter,
    source: usize,
    max_depth: usize,
    q: Seq<PathVisit>,
    seen: Seq<bool>,
    position: Seq<usize>,
    y: int,
)
    requires
        path_queue_ok(s, edges, f, source, max_depth, q, seen, position),
        0 <= y < seen.len(),
        seen[y],
    ensures
        position[y] < q.len(),
        q[position[y] as int].symbol == y,
{
    reveal(path_queue_ok);
}

/// Along a chain from the source, with every shallow entry expanded, the
/// `j`-th name is a queued symbol at most `j` levels deep.
proof fn lemma_chain_reached(
    s: ExtractionSnapshot,
    edges: Seq<DependencyEdge>,
    f: AnalysisFilter,
    source: usize,
    max_depth: usize,
    q: Seq<PathVisit>,
    seen: Seq<bool>,
    position: Seq<usize>,
    names: Seq<Seq<char>>,
    target: Seq<char>,
    bound: int,
    j: int,
) -> (t: int)
    requires
        path_queue_ok(s, edges, f, source, max_depth, q, seen, position),
        edges_describe(s, edges),
        source < s.symbols@.len(),
        chain_ok(s, edges, f, names, s.symbols@[source as int].name@, target, max_depth as int),
        forall|i: int| 0 <= i < q.len() && q[i].depth < max_depth && q[i].depth < bound ==> #[trigger] expanded(s, edges, f, q, seen, position, i),
        0 <= j < names.len(),
        j <= bound,
    ensures
        0 <= t < s.symbols@.len(),
        s.symbols@[t].name@ == names[j],
        seen[t],
        position[t] < q.len(),
        q[position[t] as int].depth <= j,
    decreases j,
{
    lemma_path_queue_lens(s, edges, f, source, max_depth, q, seen, position);
    if j == 0 {
        reveal(path_queue_ok);
        source as int
    } else {
        let p = lemma_chain_reached(s, edges, f, source, max_depth, q, seen, position, names, target, bound, j - 1);
        let i = position[p] as int;
        lemma_path_queue_seen(s, edges, f, source, max_depth, q, seen, position, p);
        let prev = j - 1;
        assert(0 <= prev < names.len() - 1);
        assert(filtered_link(s, edges, f, names[prev], names[prev + 1]));
        assert(prev + 1 == j);
        let k = choose|k: int| 0 <= k < edges.len() && #[trigger] edge_selected(s, f, edges[k])
            && s.declarations@[edges[k].source as int].name@ == names[j - 1] && edges[k].target@ == names[j];
        assert(edge_describes(s, edges[k]));
        let t = choose|y: int| 0 <= y < s.symbols@.len() && edge_matches_symbol_metadata(edges[k], #[trigger] s.symbols@[y]);
        assert(s.symbols@[t].name@ == names[j]);
        assert(expanded(s, edges, f, q, seen, position, i));
        assert(filtered_link(s, edges, f, s.symbols@[q[i].symbol as int].name@, s.symbols@[t].name@));
        t
    }
}

/// A found path is a chain of filtered edges within the depth limit.
proof fn lemma_found_reachable(s: ExtractionSnapshot, edges: Seq<DependencyEdge>, config: DependencyConfig, source: Seq<char>, target: Seq<char>, p: DependencyPath)
    requires
        path_found(s, edges, config, source, target, p),
    ensures
        path_reachable(s, edges, config.filter, source, target, config.max_depth as int),
{
    let names = texts_view(p.nodes@);
    let ws = choose|ws: Seq<usize>| ws.len() == p.layers@.len() && p.total_weight == capped(weight_sum(ws)) && forall|i: int|
        0 <= i < ws.len() ==> #[trigger] path_edge(s, edges, config.filter, names[i], names[i + 1], p.layers@[i], ws[i]);
    assert forall|i: int| 0 <= i < names.len() - 1 implies #[trigger] filtered_link(s, edges, config.filter, names[i], names[i + 1]) by {
        assert(path_edge(s, edges, config.filter, names[i], names[i + 1], p.layers@[i], ws[i]));
        let k = choose|k: int| 0 <= k < edges.len() && #[trigger] edge_selected(s, config.filter, edges[k])
            && s.declarations@[edges[k].source as int].name@ == names[i] && edges[k].target@ == names[i + 1]
            && edges[k].layer == p.layers@[i] && edges[k].occurrences == ws[i];
    }
    assert(chain_ok(s, edges, config.filter, names, source, target, config.max_depth as int));
}

proof fn lemma_path_queue_parent(
    s: ExtractionSnapshot,
    edges: Seq<DependencyEdge>,
    f: AnalysisFilter,
    source: usize,
    max_depth: usize,
    q: Seq<PathVisit>,
    seen: Seq<bool>,
    position: Seq<usize>,
    i: int,
)
    requires
        path_queue_ok(s, edges, f, source, max_depth, q, seen, position),
        1 <= i < q.len(),
    ensures
        q[i].parent < i,
        1 <= q[i].depth <= max_depth,
        q[q[i].parent as int].depth + 1 == q[i].depth,
        path_edge(s, edges, f, s.symbols@[q[q[i].parent as int].symbol as int].name@, s.symbols@[q[i].symbol as int].name@,
            q[i].layer, q[i].weight),
{
    reveal(path_queue_ok);
    assert(q[i] == q[i]);
}

proof fn lemma_path_queue_start(s: ExtractionSnapshot, edges: Seq<DependencyEdge>, f: AnalysisFilter, source: usize, max_depth: usize, seen: Seq<bool>, position: Seq<usize>, v: PathVisit)
    requires
        source < s.symbols@.len(),
        seen.len() == s.symbols@.len(),
        position.len() == s.symbols@.len(),
        forall|z: int| 0 <= z < seen.len() ==> #[trigger] seen[z] == (z == source),
        forall|z: int| 0 <= z < position.len() ==> #[trigger] position[z] == 0,
        v.symbol == source,
        v.depth == 0,
    ensures
        path_queue_ok(s, edges, f, source, max_depth, seq![v], seen, position),
{
    reveal(path_queue_ok);
}

proof fn lemma_weight_sum_reverse(ws: Seq<usize>)
    ensures
        weight_sum(ws.reverse()) == weight_sum(ws),
    decreases ws.len(),
{
    if ws.len() > 0 {
        lemma_weight_sum_reverse(ws.drop_last());
        assert(ws.reverse() == seq![ws.last()] + ws.drop_last().reverse());
        lemma_weight_sum_prepend(ws.drop_last().reverse(), ws.last());
    }
}

proof fn lemma_path_from_chain(
    s: ExtractionSnapshot,
    edges: Seq<DependencyEdge>,
    config: DependencyConfig,
    source_symbol: usize,
    target_symbol: usize,
    source: Seq<char>,
    target: Seq<char>,
    q: Seq<PathVisit>,
    seen: Seq<bool>,
    position: Seq<usize>,
    idx_back: Seq<int>,
    names_back: Seq<String>,
    layers_back: Seq<DependencyLayer>,
    ws_back: Seq<usize>,
    total: usize,
    result: DependencyPath,
)
    requires
        path_queue_ok(s, edges, config.filter, source_symbol, config.max_depth, q, seen, position),
        source_symbol < s.symbols@.len(),
        target_symbol < s.symbols@.len(),
        s.symbols@[source_symbol as int].name@ == source,
        s.symbols@[target_symbol as int].name@ == target,
        seen[target_symbol as int],
        idx_back.len() == names_back.len(),
        idx_back.len() == layers_back.len() + 1,
        ws_back.len() == layers_back.len(),
        idx_back[0] == position[target_symbol as int] as int,
        idx_back.last() == 0,
        forall|j: int| 0 <= j < idx_back.len() ==> 0 <= #[trigger] idx_back[j] < q.len()
            && names_back[j]@ == s.symbols@[q[idx_back[j]].symbol as int].name@,
        forall|j: int| 0 <= j < layers_back.len() ==> {
            let v = q[#[trigger] idx_back[j]];
            &&& idx_back[j + 1] == v.parent as int
            &&& layers_back[j] == v.layer
            &&& ws_back[j] == v.weight
        },
        q[position[target_symbol as int] as int].depth == q[0].depth + layers_back.len(),
        forall|j: int| 0 <= j < idx_back.len() ==> q[#[trigger] idx_back[j]].depth + j == q[position[target_symbol as int] as int].depth,
        total == capped(weight_sum(ws_back)),
        result.source@ == source,
        result.target@ == target,
        same_config(result.config, config),
        result.total_weight == total,
        result.nodes@.len() == names_back.len(),
        forall|j: int| 0 <= j < result.nodes@.len() ==> #[trigger] result.nodes@[j]@ == names_back[names_back.len() - 1 - j]@,
        result.layers@.len() == layers_back.len(),
        forall|j: int| 0 <= j < result.layers@.len() ==> #[trigger] result.layers@[j] == layers_back[names_back.len() - 2 - j],
    ensures
        path_found(s, edges, config, source, target, result),
{
    lemma_path_queue_lens(s, edges, config.filter, source_symbol, config.max_depth, q, seen, position);
    lemma_path_queue_seen(s, edges, config.filter, source_symbol, config.max_depth, q, seen, position, target_symbol as int);
    let n = names_back.len();
    let names = texts_view(result.nodes@);
    let ws = ws_back.reverse();
    assert(names[0] == source) by {
        assert(names[0] == result.nodes@[0]@);
        assert(idx_back[n - 1] == 0);
    }
    assert(names.last() == target) by {
        assert(names[n - 1] == result.nodes@[n - 1]@);
        assert(q[position[target_symbol as int] as int].symbol == target_symbol);
    }
    assert(result.layers@.len() <= config.max_depth) by {
        let t = position[target_symbol as int] as int;
        if t >= 1 {
            lemma_path_queue_parent(s, edges, config.filter, source_symbol, config.max_depth, q, seen, position, t);
        }
    }
    lemma_weight_sum_reverse(ws_back);
    assert forall|i: int| 0 <= i < ws.len() implies #[trigger] path_edge(s, edges, config.filter, names[i], names[i + 1], result.layers@[i], ws[i]) by {
        let j = n - 2 - i;
        assert(0 <= j < layers_back.len());
        let v = q[idx_back[j]];
        assert(idx_back[j + 1] == v.parent as int);
        assert(idx_back[j] >= 1) by {
            if idx_back[j] == 0 {
                assert(q[idx_back[j]].depth + j == q[position[target_symbol as int] as int].depth);
            }
        }
        lemma_path_queue_parent(s, edges, config.filter, source_symbol, config.max_depth, q, seen, position, idx_back[j]);
        assert(names[i] == result.nodes@[i]@);
        assert(names[i + 1] == result.nodes@[i + 1]@);
        assert(ws[i] == ws_back[j]);
    }
}


/// The result of a component analysis.
#[derive(Clone, Debug)]
pub struct ComponentResult {
    pub config: DependencyConfig,
    pub algorithm: String,
    pub external_symbols_included: bool,
    pub components: Vec<Vec<String>>,
}

/// `x` and `y` are declarations the filter admits, joined by a filtered edge
/// in either direction.
pub open spec fn joined(s: ExtractionSnapshot, edges: Seq<DependencyEdge>, f: AnalysisFilter, x: int, y: int) -> bool {
    &&& 0 <= x < s.declarations@.len()
    &&& 0 <= y < s.declarations@.len()
    &&& filter_matches_declaration(f, s.declarations@[x])
    &&& filter_matches_declaration(f, s.declarations@[y])
    &&& ((exists|k: int| #[trigger] internal_edge(s, edges, f, x, y, k)) || (exists|k: int| #[trigger] internal_edge(s, edges, f, y, x, k)))
}

/// Row `x` of `u` holds the declarations joined to `x`.
pub open spec fn joins(s: ExtractionSnapshot, edges: Seq<DependencyEdge>, f: AnalysisFilter, u: Seq<Vec<usize>>) -> bool {
    &&& u.len() == s.declarations@.len()
    &&& forall|x: int, y: usize| 0 <= x < u.len() ==> (#[trigger] u[x]@.contains(y) <==> joined(s, edges, f, x, y as int))
}

/// The ids of the declarations the filter admits.
pub open spec fn active_ids(s: ExtractionSnapshot, f: AnalysisFilter) -> Seq<usize> {
    matching_declaration_ids(s, f, s.declarations@.len() as int)
}

/// `names` are the names of the declarations of component `c`, in name order.
pub open spec fn component_names(s: ExtractionSnapshot, c: Seq<usize>, names: Seq<Seq<char>>) -> bool {
    &&& names.len() == c.len()
    &&& names_sorted(names)
    &&& forall|x: Seq<char>| #[trigger] names.contains(x) <==> exists|i: int| 0 <= i < c.len()
        && s.declarations@[#[trigger] c[i] as int].name@ == x
}

/// The component lists `names` are the components `cs` renamed, each once,
/// larger first, then in lexicographic order.
pub open spec fn components_named(s: ExtractionSnapshot, cs: Seq<Seq<usize>>, names: Seq<Vec<String>>) -> bool {
    &&& names.len() == cs.len()
    &&& components_sorted(names.map_values(|c: Vec<String>| texts_view(c@)))
    &&& exists|order: Seq<int>| #![trigger order.len()] order.len() == cs.len()
        && (forall|c: int| 0 <= c < names.len() ==> 0 <= #[trigger] order[c] < cs.len()
            && component_names(s, cs[order[c]], texts_view(names[c]@)))
        && (forall|c: int, d: int| 0 <= c < d < names.len() ==> #[trigger] order[c] != #[trigger] order[d])
}

pub proof fn lemma_matching_ids(s: ExtractionSnapshot, f: AnalysisFilter, n: int)
    requires
        0 <= n <= s.declarations@.len(),
        n <= usize::MAX,
    ensures
        increasing(matching_declaration_ids(s, f, n)),
        forall|k: int| 0 <= k < matching_declaration_ids(s, f, n).len() ==> #[trigger] matching_declaration_ids(s, f, n)[k] < n,
        forall|i: usize| #[trigger] matching_declaration_ids(s, f, n).contains(i) <==> (i < n
            && filter_matches_declaration(f, s.declarations@[i as int])),
    decreases n,
{
    if n > 0 {
        lemma_matching_ids(s, f, n - 1);
        let prev = matching_declaration_ids(s, f, n - 1);
        let cur = matching_declaration_ids(s, f, n);
        if filter_matches_declaration(f, s.declarations@[n - 1]) {
            assert(cur == prev.push((n - 1) as usize));
            assert forall|a: int, b: int| 0 <= a < b < cur.len() implies #[trigger] cur[a] < #[trigger] cur[b] by {
                if b < prev.len() {
                    assert(prev[a] < prev[b]);
                } else {
                    assert(prev[a] < n - 1);
                }
            }
            assert forall|i: usize| #[trigger] cur.contains(i) <==> (i < n && filter_matches_declaration(f, s.declarations@[i as int])) by {
                if cur.contains(i) && i != n - 1 {
                    let k = choose|k: int| 0 <= k < cur.len() && cur[k] == i;
                    if k < prev.len() {
                        assert(prev[k] == i);
                    } else {
                        assert(cur[k] == (n - 1) as usize);
                    }
                }
                if prev.contains(i) {
                    let k = choose|k: int| 0 <= k < prev.len() && prev[k] == i;
                    assert(cur[k] == i);
                }
                if i == n - 1 {
                    assert(cur[prev.len() as int] == i);
                }
            }
        } else {
            assert(cur == prev);
        }
    }
}

impl AnalysisCorpus {
    /// For each declaration, the declarations it depends on through filtered
    /// edges, with the smallest weight of those edges.
    pub fn graph_adjacency(&self, config: &DependencyConfig) -> (r: Vec<Vec<(usize, usize)>>)
        ensures
            r@.len() == self.snapshot_view().declarations@.len(),
            forall|i: int| 0 <= i < r@.len() ==> adjacency_row(self.snapshot_view(), self.edges_view(), config.filter, i, #[trigger] r@[i]@),
    {
        let n = self.declarations().len();
        let mut r: Vec<Vec<(usize, usize)>> = Vec::new();
        let mut i: usize = 0;
        while i < n
            invariant
                n == self.snapshot_view().declarations@.len(),
                i <= n,
                r@.len() == i,
                forall|k: int| 0 <= k < i ==> adjacency_row(self.snapshot_view(), self.edges_view(), config.filter, k, #[trigger] r@[k]@),
            decreases n - i,
        {
            let row = self.adjacency_row_of(i, &config.filter);
            r.push(row);
            i = i + 1;
        }
        r
    }

    /// Whether the filter admits each declaration.
    pub(crate) fn declaration_mask(&self, filter: &AnalysisFilter) -> (r: Vec<bool>)
        ensures
            r@.len() == self.snapshot_view().declarations@.len(),
            forall|i: int| 0 <= i < r@.len() ==> #[trigger] r@[i] == filter_matches_declaration(*filter, self.snapshot_view().declarations@[i]),
    {
        let declarations = self.declarations();
        let mut r: Vec<bool> = Vec::new();
        let mut i: usize = 0;
        while i < declarations.len()
            invariant
                declarations@ == self.snapshot_view().declarations@,
                i <= declarations@.len(),
                r@.len() == i,
                forall|k: int| 0 <= k < i ==> #[trigger] r@[k] == filter_matches_declaration(*filter, declarations@[k]),
            decreases declarations@.len() - i,
        {
            r.push(filter.matches_declaration(&declarations[i]));
            i = i + 1;
        }
        r
    }

    /// The undirected graph of the filtered declarations and their ids.
    fn undirected_joins(&self, config: &DependencyConfig) -> (r: (Vec<Vec<usize>>, Vec<usize>))
        ensures
            joins(self.snapshot_view(), self.edges_view(), config.filter, r.0@),
            r.1@ == active_ids(self.snapshot_view(), config.filter),
            rows_in_range(r.0@),
            symmetric(r.0@),
            rows_within(r.0@, r.1@),
            increasing(r.1@),
            forall|k: int| 0 <= k < r.1@.len() ==> #[trigger] r.1@[k] < r.0@.len(),
    {
        let ghost s = self.snapshot_view();
        let ghost all = self.edges_view();
        let ghost f = config.filter;
        let directed = self.graph_adjacency(config);
        let mask = self.declaration_mask(&config.filter);
        let active = self.filtered_declaration_ids(&config.filter);
        let n = directed.len();
        proof {
            lemma_matching_ids(s, f, n as int);
            assert forall|x: int, i: int| 0 <= x < directed@.len() && 0 <= i < directed@[x]@.len()
                implies (#[trigger] directed@[x]@[i]).0 < directed@.len() by {
                assert(adjacency_row(s, all, f, x, directed@[x]@));
                assert(entry_witnessed(s, all, f, x, directed@[x]@[i]));
            }
        }
        let u = undirected_graph(&directed, &mask);
        proof {
            assert forall|a: int, b: int| #[trigger] arc(directed@, mask@, a, b) <==> (0 <= a < n && 0 <= b < n
                && filter_matches_declaration(f, s.declarations@[a]) && filter_matches_declaration(f, s.declarations@[b])
                && exists|k: int| #[trigger] internal_edge(s, all, f, a, b, k)) by {
                if 0 <= a < n && 0 <= b < n {
                    assert(adjacency_row(s, all, f, a, directed@[a]@));
                    if row_has(directed@[a]@, b) {
                        let i = choose|i: int| 0 <= i < directed@[a]@.len() && (#[trigger] directed@[a]@[i]).0 == b;
                        assert(entry_witnessed(s, all, f, a, directed@[a]@[i]));
                    }
                    if exists|k: int| #[trigger] internal_edge(s, all, f, a, b, k) {
                        let k = choose|k: int| #[trigger] internal_edge(s, all, f, a, b, k);
                        assert(exists|i: int| 0 <= i < directed@[a]@.len() && (#[trigger] directed@[a]@[i]).0 == b);
                    }
                }
            }
            assert forall|x: int, y: usize| 0 <= x < u@.len() implies (#[trigger] u@[x]@.contains(y) <==> joined(s, all, f, x, y as int)) by {
                assert(u@[x]@.contains(y) <==> linked(directed@, mask@, x, y as int));
                assert(arc(directed@, mask@, x, y as int) == arc(directed@, mask@, x, y as int));
                assert(arc(directed@, mask@, y as int, x) == arc(directed@, mask@, y as int, x));
            }
            assert forall|x: int, y: usize| 0 <= x < u@.len() && #[trigger] u@[x]@.contains(y) implies y < u@.len() by {
                assert(joined(s, all, f, x, y as int));
            }
            assert forall|x: int, y: usize| 0 <= x < u@.len() && #[trigger] u@[x]@.contains(y) implies y < u@.len()
                && u@[y as int]@.contains(x as usize) by {
                assert(joined(s, all, f, x, y as int));
                assert(u@[y as int]@.contains(x as usize) <==> joined(s, all, f, y as int, x));
            }
            assert forall|x: int, y: usize| 0 <= x < u@.len() && #[trigger] u@[x]@.contains(y) implies active@.contains(y) by {
                assert(joined(s, all, f, x, y as int));
            }
        }
        (u, active)
    }

    /// The weakly connected components of the filtered declarations, each
    /// in name order, larger components first, then in lexicographic order.
    pub fn connected_components(&self, config: &DependencyConfig) -> (r: ComponentResult)
        ensures
            same_config(r.config, *config),
            r.algorithm@ == "weakly connected components"@,
            !r.external_symbols_included,
            exists|u: Seq<Vec<usize>>, cs: Seq<Seq<usize>>| #![trigger components_of(u, active_ids(self.snapshot_view(), config.filter), cs)]
                joins(self.snapshot_view(), self.edges_view(), config.filter, u)
                && components_of(u, active_ids(self.snapshot_view(), config.filter), cs)
                && components_named(self.snapshot_view(), cs, r.components@),
    {
        let (u, active) = self.undirected_joins(config);
        let ids = component_ids(&u, &active);
        proof {
            let cs = ids@.map_values(|c: Vec<usize>| c@);
            assert forall|k: int, i: int| 0 <= k < ids@.len() && 0 <= i < ids@[k]@.len()
                implies #[trigger] ids@[k]@[i] < self.snapshot_view().declarations@.len() by {
                assert(cs[k] == ids@[k]@);
                assert(cs[k].contains(ids@[k]@[i]));
                assert(active@.contains(ids@[k]@[i]));
            }
        }
        let components = self.name_components(&ids);
        ComponentResult {
            config: copy_config(config),
            algorithm: text_from("weakly connected components"),
            external_symbols_included: false,
            components,
        }
    }

    /// The components renamed, each in name order, then sorted.
    fn name_components(&self, ids: &Vec<Vec<usize>>) -> (r: Vec<Vec<String>>)
        requires
            forall|k: int, i: int| 0 <= k < ids@.len() && 0 <= i < ids@[k]@.len()
                ==> #[trigger] ids@[k]@[i] < self.snapshot_view().declarations@.len(),
        ensures
            components_named(self.snapshot_view(), ids@.map_values(|c: Vec<usize>| c@), r@),
    {
        let ghost s = self.snapshot_view();
        let ghost cs = ids@.map_values(|c: Vec<usize>| c@);
        let declarations = self.declarations();
        let mut named: Vec<Vec<String>> = Vec::new();
        let mut k: usize = 0;
        while k < ids.len()
            invariant
                declarations@ == s.declarations@,
                cs == ids@.map_values(|c: Vec<usize>| c@),
                forall|kk: int, i: int| 0 <= kk < ids@.len() && 0 <= i < ids@[kk]@.len()
                    ==> #[trigger] ids@[kk]@[i] < declarations@.len(),
                k <= ids@.len(),
                named@.len() == k,
                forall|j: int| 0 <= j < k ==> component_names(s, cs[j], texts_view((#[trigger] named@[j])@)),
            decreases ids@.len() - k,
        {
            let c = &ids[k];
            let mut names: Vec<String> = Vec::new();
            let mut i: usize = 0;
            while i < c.len()
                invariant
                    declarations@ == s.declarations@,
                    c@ == cs[k as int],
                    c@ == ids@[k as int]@,
                    forall|j: int| 0 <= j < c@.len() ==> #[trigger] c@[j] < declarations@.len(),
                    i <= c@.len(),
                    names@.len() == i,
                    forall|j: int| 0 <= j < i ==> (#[trigger] names@[j])@ == declarations@[c@[j] as int].name@,
                decreases c@.len() - i,
            {
                proof {
                    assert(ids@[k as int]@[i as int] == c@[i as int]);
                }
                names.push(copy_text(&declarations[c[i]].name));
                i = i + 1;
            }
            let ghost before = texts_view(names@);
            let sorted = sort_names(names);
            proof {
                let t = texts_view(sorted@);
                assert forall|x: Seq<char>| #[trigger] t.contains(x) <==> exists|j: int| 0 <= j < c@.len()
                    && s.declarations@[#[trigger] c@[j] as int].name@ == x by {
                    if before.contains(x) {
                        let j = choose|j: int| 0 <= j < before.len() && before[j] == x;
                        assert(s.declarations@[c@[j] as int].name@ == x);
                    }
                    if exists|j: int| 0 <= j < c@.len() && s.declarations@[#[trigger] c@[j] as int].name@ == x {
                        let j = choose|j: int| 0 <= j < c@.len() && s.declarations@[#[trigger] c@[j] as int].name@ == x;
                        assert(before[j] == x);
                    }
                }
            }
            named.push(sorted);
            k = k + 1;
        }
        let (sorted, order) = sort_components(named);
        proof {
            let ord = order@;
            assert forall|c: int| 0 <= c < sorted@.len() implies 0 <= #[trigger] ord[c] < cs.len()
                && component_names(s, cs[ord[c]], texts_view(sorted@[c]@)) by {
                assert(texts_view(sorted@[c]@) == texts_view(named@[ord[c]]@));
            }
            assert(ord.len() == cs.len());
        }
        sorted
    }
}


/// The result of the graph structure analysis.
#[derive(Clone, Debug)]
pub struct GraphStructureResult {
    pub config: DependencyConfig,
    pub algorithm: String,
    pub external_symbols_included: bool,
    pub articulation_points: Vec<String>,
    pub bridges: Vec<(String, String)>,
    pub communities: Vec<(String, usize)>,
}

/// The communities: each active declaration's name with the position of its
/// final label among the distinct final labels in increasing order, sorted by
/// name.
pub open spec fn communities_of(s: ExtractionSnapshot, active: Seq<usize>, labels: Seq<usize>, c: Seq<(String, usize)>) -> bool {
    &&& tally_sorted(c)
    &&& forall|name: Seq<char>| #[trigger] tally_has(c, name) <==> exists|k: int| 0 <= k < active.len()
        && s.declarations@[#[trigger] active[k] as int].name@ == name
    &&& exists|uniq: Seq<usize>| #![trigger uniq.len()] increasing(uniq)
        && (forall|v: usize| #[trigger] uniq.contains(v) <==> exists|k: int| 0 <= k < active.len() && labels[#[trigger] active[k] as int] == v)
        && (forall|k: int| 0 <= k < active.len() ==> #[trigger] count_of(c, s.declarations@[active[k] as int].name@) < uniq.len()
            && uniq[count_of(c, s.declarations@[active[k] as int].name@) as int] == labels[active[k] as int])
}

/// Some declaration that the filter admits has this name.
pub open spec fn admitted_name(s: ExtractionSnapshot, f: AnalysisFilter, name: Seq<char>) -> bool {
    exists|x: int| 0 <= x < s.declarations@.len() && #[trigger] filter_matches_declaration(f, s.declarations@[x])
        && s.declarations@[x].name@ == name
}

/// The pair names two joined declarations, the smaller name first.
pub open spec fn bridge_named(s: ExtractionSnapshot, edges: Seq<DependencyEdge>, f: AnalysisFilter, p: (String, String)) -> bool {
    &&& !text_lt(p.1@, p.0@)
    &&& exists|x: int, y: int| #[trigger] joined(s, edges, f, x, y) && ((s.declarations@[x].name@ == p.0@
        && s.declarations@[y].name@ == p.1@) || (s.declarations@[x].name@ == p.1@ && s.declarations@[y].name@ == p.0@))
}

impl AnalysisCorpus {
    /// Articulation points and bridges of the undirected graph of the
    /// filtered declarations, searched depth first, and its communities by
    /// label propagation.
    pub fn graph_structure(&self, config: &DependencyConfig) -> (r: GraphStructureResult)
        ensures
            same_config(r.config, *config),
            r.algorithm@ == "undirected articulation/bridge search and deterministic label propagation"@,
            !r.external_symbols_included,
            forall|i: int| 0 <= i < r.articulation_points@.len() ==> admitted_name(self.snapshot_view(), config.filter,
                #[trigger] r.articulation_points@[i]@),
            pairs_sorted(r.bridges@),
            forall|i: int| 0 <= i < r.bridges@.len() ==> bridge_named(self.snapshot_view(), self.edges_view(), config.filter, #[trigger] r.bridges@[i]),
            exists|u: Seq<Vec<usize>>, history: Seq<Seq<usize>>| #![trigger label_history(u, active_ids(self.snapshot_view(), config.filter), history)]
                joins(self.snapshot_view(), self.edges_view(), config.filter, u)
                && label_history(u, active_ids(self.snapshot_view(), config.filter), history)
                && communities_of(self.snapshot_view(), active_ids(self.snapshot_view(), config.filter), history.last(), r.communities@),
    {
        proof {
            use_type_invariant(self);
        }
        let ghost s = self.snapshot_view();
        let ghost all = self.edges_view();
        let ghost f = config.filter;
        let declarations = self.declarations();
        let (u, active) = self.undirected_joins(config);
        let (points, bridge_ids) = articulation_and_bridges(&u, &active);
        proof {
            assert forall|i: int, j: int| 0 <= i < u@.len() && 0 <= j < u@[i]@.len() implies #[trigger] u@[i]@[j] < u@.len() by {
                assert(u@[i]@.contains(u@[i]@[j]));
            }
        }
        let labels = label_propagation(&u, &active);
        let dn = declarations.len();
        let mut articulation_points: Vec<String> = Vec::new();
        let mut i: usize = 0;
        while i < points.len()
            invariant
                declarations@ == s.declarations@,
                forall|k: int| 0 <= k < points@.len() ==> active@.contains(#[trigger] points@[k]),
                forall|k: int| 0 <= k < active@.len() ==> #[trigger] active@[k] < declarations@.len(),
                i <= points@.len(),
                articulation_points@.len() == i,
                forall|k: int| 0 <= k < i ==> (#[trigger] articulation_points@[k])@ == s.declarations@[points@[k] as int].name@,
            decreases points@.len() - i,
        {
            proof {
                assert(active@.contains(points@[i as int]));
            }
            articulation_points.push(copy_text(&declarations[points[i]].name));
            i = i + 1;
        }
        proof {
            lemma_matching_ids(s, f, dn as int);
            assert forall|k: int| 0 <= k < articulation_points@.len() implies admitted_name(s, f, #[trigger] articulation_points@[k]@) by {
                let x = points@[k] as int;
                assert(active@.contains(points@[k]));
                assert(filter_matches_declaration(f, s.declarations@[x]));
                assert(articulation_points@[k]@ == s.declarations@[x].name@);
            }
        }
        let mut named: Vec<(String, String)> = Vec::new();
        let mut k: usize = 0;
        while k < bridge_ids.len()
            invariant
                declarations@ == s.declarations@,
                joins(s, all, f, u@),
                forall|b: int| 0 <= b < bridge_ids@.len() ==> (#[trigger] bridge_ids@[b]).0 < u@.len()
                    && u@[bridge_ids@[b].0 as int]@.contains(bridge_ids@[b].1),
                k <= bridge_ids@.len(),
                forall|b: int| 0 <= b < named@.len() ==> bridge_named(s, all, f, #[trigger] named@[b]),
            decreases bridge_ids@.len() - k,
        {
            let (a, b) = bridge_ids[k];
            proof {
                assert(u@[a as int]@.contains(b));
                assert(joined(s, all, f, a as int, b as int));
            }
            let na = copy_text(&declarations[a].name);
            let nb = copy_text(&declarations[b].name);
            let pair = if text_less(nb.as_str(), na.as_str()) { (nb, na) } else {
                proof {
                    lemma_text_lt_trichotomy(na@, nb@);
                }
                (na, nb)
            };
            proof {
                lemma_text_lt_trichotomy(pair.0@, pair.1@);
                assert(bridge_named(s, all, f, pair));
            }
            named.push(pair);
            k = k + 1;
        }
        let ghost named0 = named@;
        let bridges = sort_pairs(named);
        proof {
            assert forall|b: int| 0 <= b < bridges@.len() implies bridge_named(s, all, f, #[trigger] bridges@[b]) by {
                assert(pairs_view(bridges@)[b] == pair_view(bridges@[b]));
                assert(pairs_view(bridges@).contains(pair_view(bridges@[b])));
                let c = choose|c: int| 0 <= c < named0.len() && pairs_view(named0)[c] == pair_view(bridges@[b]);
                assert(bridge_named(s, all, f, named0[c]));
            }
        }
        let ghost last = choose|history: Seq<Seq<usize>>| #[trigger] label_history(u@, active@, history)
            && forall|k: int| 0 <= k < labels@.len() ==> (#[trigger] labels@[k]).0 == active@[k] && labels@[k].1 == history.last()[active@[k] as int];
        let communities = self.community_numbers(&active, &labels, Ghost(last.last()));
        GraphStructureResult {
            config: copy_config(config),
            algorithm: text_from("undirected articulation/bridge search and deterministic label propagation"),
            external_symbols_included: false,
            articulation_points,
            bridges,
            communities,
        }
    }

    /// Each active declaration's name with the position of its label among
    /// the distinct labels.
    #[verifier::spinoff_prover]
    #[verifier::rlimit(40)]
    fn community_numbers(&self, active: &Vec<usize>, labels: &Vec<(usize, usize)>, lab: Ghost<Seq<usize>>) -> (r: Vec<(String, usize)>)
        requires
            labels@.len() == active@.len(),
            increasing(active@),
            forall|k: int| 0 <= k < active@.len() ==> #[trigger] active@[k] < self.snapshot_view().declarations@.len(),
            forall|k: int| 0 <= k < labels@.len() ==> (#[trigger] labels@[k]).1 == lab@[active@[k] as int],
        ensures
            communities_of(self.snapshot_view(), active@, lab@, r@),
    {
        proof {
            use_type_invariant(self);
        }
        let ghost s = self.snapshot_view();
        let declarations = self.declarations();
        let mut uniq: Vec<usize> = Vec::new();
        let mut k: usize = 0;
        while k < labels.len()
            invariant
                k <= labels@.len(),
                increasing(uniq@),
                forall|v: usize| #[trigger] uniq@.contains(v) <==> exists|j: int| 0 <= j < k && (#[trigger] labels@[j]).1 == v,
            decreases labels@.len() - k,
        {
            let ghost before = uniq@;
            uniq = insert_unique(&uniq, labels[k].1);
            proof {
                assert forall|v: usize| #[trigger] uniq@.contains(v) <==> exists|j: int| 0 <= j < k + 1 && (#[trigger] labels@[j]).1 == v by {
                    if v == labels@[k as int].1 {
                        assert(labels@[k as int].1 == v);
                    }
                    if exists|j: int| 0 <= j < k + 1 && (#[trigger] labels@[j]).1 == v {
                        let j = choose|j: int| 0 <= j < k + 1 && (#[trigger] labels@[j]).1 == v;
                        if j < k {
                            assert(before.contains(v));
                        }
                    }
                }
            }
            k = k + 1;
        }
        let mut r: Vec<(String, usize)> = Vec::new();
        let mut k: usize = 0;
        while k < active.len()
            invariant
                declarations@ == s.declarations@,
                crate::validation::snapshot_valid(s),
                labels@.len() == active@.len(),
                increasing(active@),
                forall|j: int| 0 <= j < active@.len() ==> #[trigger] active@[j] < declarations@.len(),
                forall|j: int| 0 <= j < labels@.len() ==> (#[trigger] labels@[j]).1 == lab@[active@[j] as int],
                increasing(uniq@),
                forall|v: usize| #[trigger] uniq@.contains(v) <==> exists|j: int| 0 <= j < labels@.len() && (#[trigger] labels@[j]).1 == v,
                k <= active@.len(),
                tally_sorted(r@),
                forall|name: Seq<char>| #[trigger] tally_has(r@, name) <==> exists|j: int| 0 <= j < k
                    && s.declarations@[#[trigger] active@[j] as int].name@ == name,
                forall|j: int| 0 <= j < k ==> #[trigger] count_of(r@, s.declarations@[active@[j] as int].name@) < uniq@.len()
                    && uniq@[count_of(r@, s.declarations@[active@[j] as int].name@) as int] == labels@[j].1,
            decreases active@.len() - k,
        {
            let l = labels[k].1;
            let mut p: usize = 0;
            proof {
                assert(uniq@.contains(l));
            }
            while p < uniq.len() && uniq[p] != l
                invariant
                    p <= uniq@.len(),
                    uniq@.contains(l),
                    forall|q: int| 0 <= q < p ==> #[trigger] uniq@[q] != l,
                decreases uniq@.len() - p,
            {
                p = p + 1;
            }
            let name = declarations[active[k]].name.as_str();
            let ghost before = r@;
            proof {
                assert(!tally_has(before, name@)) by {
                    if tally_has(before, name@) {
                        let j = choose|j: int| 0 <= j < k && s.declarations@[#[trigger] active@[j] as int].name@ == name@;
                        assert(active@[j] < active@[k as int]);
                    }
                }
                lemma_count_of_absent(before, name@);
            }
            tally_add(&mut r, name, p);
            proof {
                assert forall|name2: Seq<char>| #[trigger] tally_has(r@, name2) <==> exists|j: int| 0 <= j < k + 1
                    && s.declarations@[#[trigger] active@[j] as int].name@ == name2 by {
                    if name2 == name@ {
                        assert(s.declarations@[active@[k as int] as int].name@ == name2);
                    }
                }
                assert forall|j: int| 0 <= j < k + 1 implies #[trigger] count_of(r@, s.declarations@[active@[j] as int].name@) < uniq@.len()
                    && uniq@[count_of(r@, s.declarations@[active@[j] as int].name@) as int] == labels@[j].1 by {
                    if j < k {
                        assert(active@[j] < active@[k as int]);
                        assert(s.declarations@[active@[j] as int].name@ != name@);
                    }
                }
            }
            k = k + 1;
        }
        proof {
            let lb = lab@;
            assert forall|v: usize| #[trigger] uniq@.contains(v) <==> exists|j: int| 0 <= j < active@.len() && lb[#[trigger] active@[j] as int] == v by {
                if uniq@.contains(v) {
                    let j = choose|j: int| 0 <= j < labels@.len() && (#[trigger] labels@[j]).1 == v;
                    assert(lb[active@[j] as int] == v);
                }
                if exists|j: int| 0 <= j < active@.len() && lb[#[trigger] active@[j] as int] == v {
                    let j = choose|j: int| 0 <= j < active@.len() && lb[#[trigger] active@[j] as int] == v;
                    assert(labels@[j].1 == v);
                }
            }
            assert forall|j: int| 0 <= j < active@.len() implies #[trigger] count_of(r@, s.declarations@[active@[j] as int].name@) < uniq@.len()
                && uniq@[count_of(r@, s.declarations@[active@[j] as int].name@) as int] == lb[active@[j] as int] by {
                assert(lb[active@[j] as int] == labels@[j].1);
            }
            assert(increasing(uniq@) && uniq@.len() == uniq@.len());
        }
        r
    }
}


/// Whether the filter admits each declaration.
/// `d` lists, for every declaration, its row of the filtered graph.
pub open spec fn adjacency_rows(s: ExtractionSnapshot, edges: Seq<DependencyEdge>, f: AnalysisFilter, d: Seq<Vec<(usize, usize)>>) -> bool {
    &&& d.len() == s.declarations@.len()
    &&& forall|i: int| 0 <= i < d.len() ==> adjacency_row(s, edges, f, i, #[trigger] d[i]@)
}

/// Each component has a member from which a walk along filtered edges
/// between admitted declarations reaches every member.
pub open spec fn components_rooted(s: ExtractionSnapshot, edges: Seq<DependencyEdge>, f: AnalysisFilter, cs: Seq<Seq<usize>>) -> bool {
    exists|d: Seq<Vec<(usize, usize)>>| #[trigger] adjacency_rows(s, edges, f, d)
        && forall|k: int| 0 <= k < cs.len() ==> rooted(d, admitted_mask(s, f), #[trigger] cs[k])
}

pub open spec fn admitted_mask(s: ExtractionSnapshot, f: AnalysisFilter) -> Seq<bool> {
    Seq::new(s.declarations@.len(), |i: int| filter_matches_declaration(f, s.declarations@[i]))
}

impl AnalysisCorpus {
    /// Tarjan's strongly connected components of the filtered declarations,
    /// each in name order, larger components first, then in lexicographic
    /// order.
    pub fn strongly_connected_components(&self, config: &DependencyConfig) -> (r: ComponentResult)
        ensures
            same_config(r.config, *config),
            r.algorithm@ == "Tarjan strongly connected components"@,
            !r.external_symbols_included,
            exists|cs: Seq<Seq<usize>>| #![trigger components_disjoint(cs, admitted_mask(self.snapshot_view(), config.filter))]
                components_disjoint(cs, admitted_mask(self.snapshot_view(), config.filter))
                && components_cover(cs, admitted_mask(self.snapshot_view(), config.filter))
                && components_rooted(self.snapshot_view(), self.edges_view(), config.filter, cs)
                && components_named(self.snapshot_view(), cs, r.components@),
    {
        let ghost s = self.snapshot_view();
        let ghost all = self.edges_view();
        let ghost f = config.filter;
        let directed = self.graph_adjacency(config);
        let mask = self.declaration_mask(&config.filter);
        let active = self.filtered_declaration_ids(&config.filter);
        let n = directed.len();
        proof {
            lemma_matching_ids(s, f, n as int);
            assert forall|x: int, i: int| 0 <= x < directed@.len() && 0 <= i < directed@[x]@.len()
                implies (#[trigger] directed@[x]@[i]).0 < directed@.len() by {
                assert(adjacency_row(s, all, f, x, directed@[x]@));
                assert(entry_witnessed(s, all, f, x, directed@[x]@[i]));
            }
            assert forall|k: int| 0 <= k < active@.len() implies #[trigger] active@[k] < n && mask@[active@[k] as int] by {
                assert(active@.contains(active@[k]));
            }
            assert(mask@ == admitted_mask(s, f));
        }
        let ids = tarjan_components(&directed, &mask, &active);
        proof {
            let cs = ids@.map_values(|c: Vec<usize>| c@);
            assert forall|x: usize| x < mask@.len() && mask@[x as int] implies exists|k: int| 0 <= k < cs.len() && #[trigger] cs[k].contains(x) by {
                assert(active@.contains(x));
                let q = choose|q: int| 0 <= q < active@.len() && active@[q] == x;
                assert(in_some_component(ids@, active@[q]));
                let k = choose|k: int| 0 <= k < ids@.len() && #[trigger] ids@[k]@.contains(x);
                assert(cs[k] == ids@[k]@);
            }
            assert(components_cover(cs, mask@));
            assert(adjacency_rows(s, all, f, directed@));
            assert forall|k: int| 0 <= k < cs.len() implies rooted(directed@, admitted_mask(s, f), #[trigger] cs[k]) by {
                assert(cs[k] == ids@[k]@);
                assert(rooted(directed@, mask@, ids@[k]@));
            }
            assert(components_rooted(s, all, f, cs));
            assert forall|k: int, i: int| 0 <= k < ids@.len() && 0 <= i < ids@[k]@.len()
                implies #[trigger] ids@[k]@[i] < s.declarations@.len() by {
                assert(cs[k] == ids@[k]@);
                assert(cs[k].contains(ids@[k]@[i]));
            }
        }
        let components = self.name_components(&ids);
        ComponentResult {
            config: copy_config(config),
            algorithm: text_from("Tarjan strongly connected components"),
            external_symbols_included: false,
            components,
        }
    }
}


/// Names strictly increase.
pub open spec fn names_increasing(s: Seq<Seq<char>>) -> bool {
    forall|i: int, j: int| 0 <= i < j < s.len() ==> text_lt(#[trigger] s[i], #[trigger] s[j])
}

/// `t` is the target of one of the first `limit` records, those a summary
/// keeps.
pub open spec fn kept_target(records: Seq<DependencyRecord>, limit: usize, t: Seq<char>) -> bool {
    exists|i: int| 0 <= i < records.len() && i < limit && #[trigger] records[i].target@ == t
}

/// `v` holds, in name order, the first `limit` names kept as targets in
/// every listing; none where there are no listings.
pub open spec fn shared_of(listings: Seq<Seq<DependencyRecord>>, limit: usize, v: Seq<Seq<char>>) -> bool {
    &&& names_increasing(v)
    &&& v.len() <= limit
    &&& listings.len() == 0 ==> v.len() == 0
    &&& forall|i: int, k: int| 0 <= i < v.len() && 0 <= k < listings.len() ==> #[trigger] kept_target(listings[k], limit, v[i])
    &&& listings.len() > 0 ==> forall|t: Seq<char>| (forall|k: int| 0 <= k < listings.len() ==> kept_target(#[trigger] listings[k], limit, t))
        && !v.contains(t) ==> v.len() == limit && forall|i: int| 0 <= i < v.len() ==> text_lt(#[trigger] v[i], t)
}

/// `v` is what the shared dependencies of `names` are, for some direct
/// listing of each name.
pub open spec fn shared_listing(
    s: ExtractionSnapshot,
    edges: Seq<DependencyEdge>,
    config: DependencyConfig,
    names: Seq<String>,
    v: Seq<Seq<char>>,
) -> bool {
    exists|listings: Seq<Seq<DependencyRecord>>| #![trigger shared_of(listings, config.limit, v)]
        listings.len() == names.len()
        && (forall|i: int| 0 <= i < names.len() ==> lists_direct(s, edges, config.filter, false, #[trigger] names[i]@, listings[i]))
        && shared_of(listings, config.limit, v)
}

/// The distinct targets of the records, in name order.
fn record_targets(records: &Vec<DependencyRecord>) -> (r: Vec<String>)
    ensures
        names_increasing(texts_view(r@)),
        forall|t: Seq<char>| #[trigger] texts_view(r@).contains(t) <==> exists|i: int| 0 <= i < records@.len() && #[trigger] records@[i].target@ == t,
{
    let mut tally: Vec<(String, usize)> = Vec::new();
    let mut i: usize = 0;
    while i < records.len()
        invariant
            i <= records@.len(),
            tally_sorted(tally@),
            forall|k: int| 0 <= k < tally@.len() ==> (#[trigger] tally@[k]).1 == 0,
            forall|t: Seq<char>| #[trigger] tally_has(tally@, t) <==> exists|j: int| 0 <= j < i && #[trigger] records@[j].target@ == t,
        decreases records@.len() - i,
    {
        let ghost before = tally@;
        proof {
            lemma_count_of_zero(tally@, records@[i as int].target@);
        }
        tally_add(&mut tally, records[i].target.as_str(), 0);
        proof {
            assert forall|n: Seq<char>| #[trigger] count_of(tally@, n) == 0 by {
                lemma_count_of_zero(before, n);
            }
            assert forall|k: int| 0 <= k < tally@.len() implies (#[trigger] tally@[k]).1 == 0 by {
                lemma_count_of_entry_zero(tally@, k);
            }
            assert forall|t: Seq<char>| #[trigger] tally_has(tally@, t) <==> exists|j: int| 0 <= j < i + 1 && #[trigger] records@[j].target@ == t by {
                if t == records@[i as int].target@ {
                    assert(records@[i as int].target@ == t);
                }
            }
        }
        i = i + 1;
    }
    let mut r: Vec<String> = Vec::new();
    let mut k: usize = 0;
    while k < tally.len()
        invariant
            k <= tally@.len(),
            tally_sorted(tally@),
            r@.len() == k,
            forall|j: int| 0 <= j < k ==> (#[trigger] r@[j])@ == tally@[j].0@,
        decreases tally@.len() - k,
    {
        r.push(copy_text(&tally[k].0));
        k = k + 1;
    }
    proof {
        let t = texts_view(r@);
        assert forall|a: int, b: int| 0 <= a < b < t.len() implies text_lt(#[trigger] t[a], #[trigger] t[b]) by {
            assert(text_lt(tally@[a].0@, tally@[b].0@));
        }
        assert forall|x: Seq<char>| #[trigger] t.contains(x) <==> tally_has(tally@, x) by {
            if t.contains(x) {
                let a = choose|a: int| 0 <= a < t.len() && t[a] == x;
                assert(tally@[a].0@ == x);
            }
            if tally_has(tally@, x) {
                let a = choose|a: int| 0 <= a < tally@.len() && #[trigger] tally@[a].0@ == x;
                assert(t[a] == x);
            }
        }
    }
    r
}

proof fn lemma_count_of_zero(r: Seq<(String, usize)>, name: Seq<char>)
    requires
        forall|k: int| 0 <= k < r.len() ==> (#[trigger] r[k]).1 == 0,
    ensures
        count_of(r, name) == 0,
    decreases r.len(),
{
    if r.len() > 0 {
        lemma_count_of_zero(r.drop_last(), name);
        assert(r.last().1 == r[r.len() - 1].1);
    }
}

proof fn lemma_count_of_entry_zero(r: Seq<(String, usize)>, k: int)
    requires
        tally_sorted(r),
        0 <= k < r.len(),
        forall|n: Seq<char>| #[trigger] count_of(r, n) == 0,
    ensures
        r[k].1 == 0,
{
    lemma_count_of_entry(r, k);
    assert(count_of(r, r[k].0@) == 0);
}

/// The names of `a` that `b` holds too, in their order.
fn keep_common(a: &Vec<String>, b: &Vec<String>) -> (r: Vec<String>)
    requires
        names_increasing(texts_view(a@)),
    ensures
        names_increasing(texts_view(r@)),
        forall|t: Seq<char>| #[trigger] texts_view(r@).contains(t) <==> (texts_view(a@).contains(t) && texts_view(b@).contains(t)),
{
    let ghost ta = texts_view(a@);
    let mut r: Vec<String> = Vec::new();
    let ghost mut from: Seq<int> = Seq::empty();
    let mut i: usize = 0;
    while i < a.len()
        invariant
            ta == texts_view(a@),
            names_increasing(ta),
            i <= a@.len(),
            from.len() == r@.len(),
            forall|j: int| 0 <= j < from.len() ==> 0 <= #[trigger] from[j] < i && r@[j]@ == ta[from[j]],
            forall|j: int, l: int| 0 <= j < l < from.len() ==> #[trigger] from[j] < #[trigger] from[l],
            forall|t: Seq<char>| #[trigger] texts_view(r@).contains(t) <==> (ta.take(i as int).contains(t) && texts_view(b@).contains(t)),
        decreases a@.len() - i,
    {
        let ghost r0 = r@;
        let keep = crate::validation::texts_contain(b, a[i].as_str());
        if keep {
            r.push(copy_text(&a[i]));
            proof {
                from = from.push(i as int);
            }
        }
        proof {
            assert(ta.take(i + 1) == ta.take(i as int).push(ta[i as int]));
            assert forall|t: Seq<char>| #[trigger] texts_view(r@).contains(t) <==> (ta.take(i + 1).contains(t) && texts_view(b@).contains(t)) by {
                let t1 = ta.take(i + 1);
                let t0 = ta.take(i as int);
                if texts_view(r@).contains(t) {
                    let j = choose|j: int| 0 <= j < r@.len() && texts_view(r@)[j] == t;
                    if j < r0.len() {
                        assert(texts_view(r0)[j] == t);
                        assert(texts_view(r0).contains(t));
                        assert(t0.contains(t));
                        let m = choose|m: int| 0 <= m < t0.len() && #[trigger] t0[m] == t;
                        assert(t1[m] == t);
                    } else {
                        assert(t == ta[i as int]);
                        assert(t1[i as int] == t);
                    }
                }
                if t1.contains(t) && texts_view(b@).contains(t) {
                    let j = choose|j: int| 0 <= j < t1.len() && #[trigger] t1[j] == t;
                    if j == i {
                        assert(keep);
                        assert(texts_view(r@)[r@.len() - 1] == t);
                    } else {
                        assert(t0[j] == t);
                        assert(texts_view(r0).contains(t));
                        let m = choose|m: int| 0 <= m < r0.len() && texts_view(r0)[m] == t;
                        assert(texts_view(r@)[m] == t);
                    }
                }
            }
        }
        i = i + 1;
    }
    proof {
        assert(ta.take(i as int) == ta);
        let t = texts_view(r@);
        assert forall|x: int, y: int| 0 <= x < y < t.len() implies text_lt(#[trigger] t[x], #[trigger] t[y]) by {
            assert(from[x] < from[y]);
            assert(text_lt(ta[from[x]], ta[from[y]]));
        }
    }
    r
}

impl AnalysisCorpus {
    /// The dependencies that all the named declarations share, among those
    /// each summary keeps, in name order and at most `limit` of them; `None`
    /// where some name is no declaration.
    pub fn shared_dependencies(&self, names: &[String], config: &DependencyConfig) -> (r: Option<Vec<String>>)
        ensures
            r is None <==> exists|i: int| 0 <= i < names@.len() && !declaration_known(self.snapshot_view(), #[trigger] names@[i]@),
            r matches Some(v) ==> shared_listing(self.snapshot_view(), self.edges_view(), *config, names@, texts_view(v@)),
    {
        let ghost s = self.snapshot_view();
        let ghost all = self.edges_view();
        let mut have = false;
        let mut shared: Vec<String> = Vec::new();
        let ghost mut listings: Seq<Seq<DependencyRecord>> = Seq::empty();
        let mut k: usize = 0;
        while k < names.len()
            invariant
                s == self.snapshot_view(),
                all == self.edges_view(),
                k <= names@.len(),
                have == (k > 0),
                k == 0 ==> shared@.len() == 0,
                listings.len() == k,
                forall|i: int| 0 <= i < k ==> declaration_known(s, #[trigger] names@[i]@),
                forall|i: int| 0 <= i < k ==> lists_direct(s, all, config.filter, false, #[trigger] names@[i]@, listings[i]),
                names_increasing(texts_view(shared@)),
                k > 0 ==> forall|t: Seq<char>| #[trigger] texts_view(shared@).contains(t) <==> forall|j: int| 0 <= j < k
                    ==> kept_target(#[trigger] listings[j], config.limit, t),
            decreases names@.len() - k,
        {
            let summary = match self.direct_dependencies(names[k].as_str(), config) {
                Some(sm) => sm,
                None => {
                    return None;
                },
            };
            let ghost records = choose|records: Seq<DependencyRecord>|
                lists_direct(s, all, config.filter, false, names@[k as int]@, records) && #[trigger] summarizes(summary, names@[k as int]@, false, *config, records);
            let current = record_targets(&summary.edges);
            proof {
                assert forall|t: Seq<char>| #[trigger] texts_view(current@).contains(t) <==> kept_target(records, config.limit, t) by {
                    if texts_view(current@).contains(t) {
                        let i = choose|i: int| 0 <= i < summary.edges@.len() && #[trigger] summary.edges@[i].target@ == t;
                        assert(records[i].target@ == t);
                    }
                    if kept_target(records, config.limit, t) {
                        let i = choose|i: int| 0 <= i < records.len() && i < config.limit && #[trigger] records[i].target@ == t;
                        assert(summary.edges@[i].target@ == t);
                    }
                }
            }
            let ghost l0 = listings;
            proof {
                listings = listings.push(records);
            }
            if !have {
                shared = current;
                have = true;
                proof {
                    assert forall|t: Seq<char>| #[trigger] texts_view(shared@).contains(t) <==> forall|j: int| 0 <= j < k + 1
                        ==> kept_target(#[trigger] listings[j], config.limit, t) by {
                        assert(listings[0] == records);
                    }
                }
            } else {
                let next = keep_common(&shared, &current);
                proof {
                    assert forall|t: Seq<char>| #[trigger] texts_view(next@).contains(t) <==> forall|j: int| 0 <= j < k + 1
                        ==> kept_target(#[trigger] listings[j], config.limit, t) by {
                        assert(listings[k as int] == records);
                        if forall|j: int| 0 <= j < k + 1 ==> kept_target(#[trigger] listings[j], config.limit, t) {
                            assert forall|j: int| 0 <= j < k implies kept_target(#[trigger] l0[j], config.limit, t) by {
                                assert(l0[j] == listings[j]);
                            }
                            assert(kept_target(listings[k as int], config.limit, t));
                        }
                        if texts_view(shared@).contains(t) && texts_view(current@).contains(t) {
                            assert forall|j: int| 0 <= j < k + 1 implies kept_target(#[trigger] listings[j], config.limit, t) by {
                                if j < k {
                                    assert(listings[j] == l0[j]);
                                }
                            }
                        }
                    }
                }
                shared = next;
            }
            proof {
                assert forall|i: int| 0 <= i < k + 1 implies lists_direct(s, all, config.filter, false, #[trigger] names@[i]@, listings[i]) by {
                    if i < k {
                        assert(listings[i] == l0[i]);
                    }
                }
            }
            k = k + 1;
        }
        let mut out: Vec<String> = Vec::new();
        let mut i: usize = 0;
        while i < shared.len() && i < config.limit
            invariant
                i <= shared@.len(),
                i <= config.limit,
                out@.len() == i,
                forall|j: int| 0 <= j < i ==> (#[trigger] out@[j])@ == shared@[j]@,
            decreases shared@.len() - i,
        {
            out.push(copy_text(&shared[i]));
            i = i + 1;
        }
        proof {
            let v = texts_view(out@);
            let sh = texts_view(shared@);
            assert forall|a: int, b: int| 0 <= a < b < v.len() implies text_lt(#[trigger] v[a], #[trigger] v[b]) by {
                assert(v[a] == sh[a] && v[b] == sh[b]);
            }
            assert forall|a: int, kk: int| 0 <= a < v.len() && 0 <= kk < listings.len() implies #[trigger] kept_target(listings[kk], config.limit, v[a]) by {
                assert(v[a] == sh[a]);
                assert(sh.contains(sh[a]));
            }
            if listings.len() > 0 {
                assert forall|t: Seq<char>| (forall|kk: int| 0 <= kk < listings.len() ==> kept_target(#[trigger] listings[kk], config.limit, t))
                    && !v.contains(t) implies v.len() == config.limit && forall|a: int| 0 <= a < v.len() ==> text_lt(#[trigger] v[a], t) by {
                    assert(sh.contains(t));
                    let m = choose|m: int| 0 <= m < sh.len() && sh[m] == t;
                    if m < i {
                        assert(v[m] == t);
                    }
                    assert(m >= i);
                    assert(i == config.limit);
                    assert forall|a: int| 0 <= a < v.len() implies text_lt(#[trigger] v[a], t) by {
                        assert(v[a] == sh[a]);
                        assert(a < m);
                        assert(text_lt(sh[a], sh[m]));
                    }
                }
            }
            assert(names_increasing(v));
            assert(v.len() <= config.limit);
            assert(listings.len() == 0 ==> v.len() == 0);
            assert(listings.len() > 0 ==> forall|t: Seq<char>| (forall|kk: int| 0 <= kk < listings.len() ==> kept_target(#[trigger] listings[kk], config.limit, t))
                && !v.contains(t) ==> v.len() == config.limit && forall|a: int| 0 <= a < v.len() ==> text_lt(#[trigger] v[a], t));
            assert(shared_of(listings, config.limit, v));
            assert(listings.len() == names@.len());
            assert(forall|i: int| 0 <= i < names@.len() ==> lists_direct(s, all, config.filter, false,
                    #[trigger] names@[i]@, listings[i]));
            assert(s == self.snapshot_view() && all == self.edges_view());
            assert(exists|l: Seq<Seq<DependencyRecord>>| #![trigger shared_of(l, config.limit, texts_view(out@))]
                l.len() == names@.len()
                && (forall|i: int| 0 <= i < names@.len() ==> lists_direct(self.snapshot_view(), self.edges_view(), config.filter, false,
                    #[trigger] names@[i]@, l[i]))
                && shared_of(l, config.limit, texts_view(out@)));
        }
        proof {
            assert(shared_listing(self.snapshot_view(), self.edges_view(), *config, names@, texts_view(out@)));
        }
        Some(out)
    }
}


/// An edge the filter admits is listed among the dependencies of its source
/// declaration and among the dependents of its target, described alike.
pub proof fn lemma_edge_listed_both_ways(
    s: ExtractionSnapshot,
    edges: Seq<DependencyEdge>,
    f: AnalysisFilter,
    k: usize,
    forward: Seq<DependencyRecord>,
    backward: Seq<DependencyRecord>,
)
    requires
        k < edges.len(),
        edge_selected(s, f, edges[k as int]),
        lists_direct(s, edges, f, false, s.declarations@[edges[k as int].source as int].name@, forward),
        lists_direct(s, edges, f, true, edges[k as int].target@, backward),
    ensures
        exists|i: int| 0 <= i < forward.len() && record_describes(s, edges[k as int], #[trigger] forward[i]),
        exists|j: int| 0 <= j < backward.len() && record_describes(s, edges[k as int], #[trigger] backward[j]),
{
    let anchor = s.declarations@[edges[k as int].source as int].name@;
    let ids = choose|ids: Seq<usize>| #[trigger] direct_listing(s, edges, f, false, anchor, ids, forward);
    assert(direct_edge(s, edges, f, false, anchor, k as int));
    assert(ids.contains(k));
    let i = choose|i: int| 0 <= i < ids.len() && ids[i] == k;
    assert(direct_edge(s, edges, f, false, anchor, ids[i] as int) && record_describes(s, edges[ids[i] as int], forward[i]));
    assert(record_describes(s, edges[k as int], forward[i]));
    let rids = choose|ids: Seq<usize>| #[trigger] direct_listing(s, edges, f, true, edges[k as int].target@, ids, backward);
    assert(direct_edge(s, edges, f, true, edges[k as int].target@, k as int));
    assert(rids.contains(k));
    let j = choose|j: int| 0 <= j < rids.len() && rids[j] == k;
    assert(direct_edge(s, edges, f, true, edges[k as int].target@, rids[j] as int) && record_describes(s, edges[rids[j] as int], backward[j]));
    assert(record_describes(s, edges[k as int], backward[j]));
}

} // verus!
