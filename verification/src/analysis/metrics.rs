//! Whole-number metrics of declarations and their expressions.
use vstd::prelude::*;
use crate::analysis::corpus::{matching_declaration_ids, AnalysisCorpus};
use crate::analysis::filters::{AnalysisFilter, DependencyLayer};
use crate::sorting::{ranked_sorted, sort_ranked, Ranked};
use crate::strings::{compare_text, copy_text, text_eq, text_lt, Order};
use crate::model::{DeclarationSnapshot, ExprStats, ExpressionGraph};
use crate::tally::{tally_has, tally_sorted};
use crate::validation::{paths_sum, paths_to, constant_count, declaration_valid, graph_valid, has_constant, snapshot_valid, total_occurrences};
use crate::tally::{count_of, tally_add};
use crate::analysis::corpus::{layer_graph, layer_multiplicities, multiplicities_of};

verus! {

/// The visibility word of a declaration.
pub open spec fn visibility_text(d: DeclarationSnapshot) -> Seq<char> {
    if d.is_internal {
        "internal"@
    } else if d.is_private {
        "private"@
    } else {
        "public"@
    }
}

/// How a declaration is visible: internal, private or public.
pub fn declaration_visibility(declaration: &DeclarationSnapshot) -> (r: &'static str)
    ensures
        r@ == visibility_text(*declaration),
{
    if declaration.is_internal {
        "internal"
    } else if declaration.is_private {
        "private"
    } else {
        "public"
    }
}

/// The distinct constants an expression names.
pub open spec fn constant_names(g: ExpressionGraph) -> Set<Seq<char>> {
    Set::new(|n: Seq<char>| has_constant(g, n))
}

/// The whole-number measures of one expression.
#[derive(Clone, Copy, Debug, PartialEq, Eq, Structural)]
pub struct ExpressionCounts {
    /// Nodes of the expression tree.
    pub total_occurrences: usize,
    /// Nodes of the shared DAG.
    pub unique_nodes: usize,
    pub maximum_depth: usize,
    /// Distinct constants the expression names.
    pub direct_dependencies: usize,
}

/// `c` measures the expression `g` with statistics `stats`.
pub open spec fn counts_describe(g: ExpressionGraph, stats: ExprStats, c: ExpressionCounts) -> bool {
    &&& c.total_occurrences == stats.nodes
    &&& c.unique_nodes == g.nodes@.len()
    &&& c.maximum_depth == stats.max_depth
    &&& constant_names(g).finite()
    &&& c.direct_dependencies == constant_names(g).len()
}

/// The measures of an expression whose statistics agree with its DAG.
pub fn expression_counts_of(g: &ExpressionGraph, stats: &ExprStats) -> (r: ExpressionCounts)
    requires
        graph_valid(*g),
        total_occurrences(*g) == stats.nodes,
    ensures
        counts_describe(*g, *stats, r),
{
    let tally = g.constant_occurrences();
    proof {
        let names = tally@.map_values(|e: (String, usize)| e.0@);
        assert(names.no_duplicates()) by {
            assert forall|i: int, j: int| 0 <= i < names.len() && 0 <= j < names.len() && i != j implies names[i] != names[j] by {
                if i < j {
                    assert(crate::strings::text_lt(tally@[i].0@, tally@[j].0@));
                    crate::strings::lemma_text_lt_trichotomy(tally@[i].0@, tally@[j].0@);
                } else {
                    assert(crate::strings::text_lt(tally@[j].0@, tally@[i].0@));
                    crate::strings::lemma_text_lt_trichotomy(tally@[j].0@, tally@[i].0@);
                }
            }
        }
        assert(names.to_set() =~= constant_names(*g)) by {
            assert forall|n: Seq<char>| names.to_set().contains(n) <==> constant_names(*g).contains(n) by {
                if names.contains(n) {
                    let i = choose|i: int| 0 <= i < names.len() && names[i] == n;
                    assert(tally@[i].0@ == n);
                    assert(tally_has(tally@, n));
                }
                if has_constant(*g, n) {
                    assert(tally_has(tally@, n));
                    let i = choose|i: int| 0 <= i < tally@.len() && #[trigger] tally@[i].0@ == n;
                    assert(names[i] == n);
                }
            }
        }
        names.unique_seq_to_set();
    }
    ExpressionCounts {
        total_occurrences: stats.nodes,
        unique_nodes: g.nodes.len(),
        maximum_depth: stats.max_depth,
        direct_dependencies: tally.len(),
    }
}

/// The measures of a declaration's expression on `layer`: the statement
/// always, the value where the declaration has one.
pub open spec fn layer_counts(d: DeclarationSnapshot, layer: DependencyLayer, r: Option<ExpressionCounts>) -> bool {
    match layer {
        DependencyLayer::Statement => r matches Some(c) && counts_describe(d.type_graph, d.type_stats, c),
        DependencyLayer::Proof => match (d.value_graph, d.value_stats) {
            (Some(g), Some(stats)) => r matches Some(c) && counts_describe(g, stats, c),
            _ => r is None,
        },
    }
}

impl AnalysisCorpus {
    /// The measures of declaration `id` on `layer`.
    pub fn expression_counts(&self, id: usize, layer: DependencyLayer) -> (r: Option<ExpressionCounts>)
        requires
            id < self.snapshot_view().declarations@.len(),
        ensures
            layer_counts(self.snapshot_view().declarations@[id as int], layer, r),
    {
        proof {
            use_type_invariant(self);
            assert(snapshot_valid(self.snapshot_view()));
            assert(declaration_valid(self.snapshot_view().declarations@[id as int]));
        }
        let d = &self.declarations()[id];
        match layer {
            DependencyLayer::Statement => Some(expression_counts_of(&d.type_graph, &d.type_stats)),
            DependencyLayer::Proof => match (&d.value_graph, &d.value_stats) {
                (Some(g), Some(stats)) => Some(expression_counts_of(g, stats)),
                _ => None,
            },
        }
    }
}

/// The position of metric `m` among those a ranking can order by (a value
/// metric may be named "value-" or "proof-"); -1 for another name.
pub open spec fn metric_code_spec(m: Seq<char>) -> int {
    if m == "statement-occurrences"@ { 0 }
    else if m == "statement-unique-nodes"@ { 1 }
    else if m == "statement-depth"@ { 2 }
    else if m == "statement-dependencies"@ { 3 }
    else if m == "value-occurrences"@ || m == "proof-occurrences"@ { 4 }
    else if m == "value-unique-nodes"@ || m == "proof-unique-nodes"@ { 5 }
    else if m == "value-depth"@ || m == "proof-depth"@ { 6 }
    else if m == "value-dependencies"@ || m == "proof-dependencies"@ { 7 }
    else if m == "axioms"@ { 8 }
    else { -1 }
}

/// The metrics a ranking can order by.
pub open spec fn known_metric(m: Seq<char>) -> bool {
    metric_code_spec(m) >= 0
}

/// The value of metric `m` for a declaration: a measure of its statement or
/// of its value (0 without one), or its number of axioms.
pub open spec fn metric_value(d: DeclarationSnapshot, m: Seq<char>) -> nat {
    let code = metric_code_spec(m);
    let value = match (d.value_graph, d.value_stats) {
        (Some(g), Some(stats)) => Some((g, stats)),
        _ => None,
    };
    if code == 0 {
        d.type_stats.nodes as nat
    } else if code == 1 {
        d.type_graph.nodes@.len()
    } else if code == 2 {
        d.type_stats.max_depth as nat
    } else if code == 3 {
        constant_names(d.type_graph).len()
    } else if code == 4 {
        match value { Some((g, stats)) => stats.nodes as nat, None => 0 }
    } else if code == 5 {
        match value { Some((g, stats)) => g.nodes@.len(), None => 0 }
    } else if code == 6 {
        match value { Some((g, stats)) => stats.max_depth as nat, None => 0 }
    } else if code == 7 {
        match value { Some((g, stats)) => constant_names(g).len(), None => 0 }
    } else {
        d.axioms@.len()
    }
}

/// What each metric name measures: the statement's tree occurrences, DAG
/// nodes, depth and distinct constants; the same of the value (its tree
/// occurrences are its statistics' node count, its DAG nodes those of its
/// graph), 0 without a value; and the number of axioms. A "proof-" name
/// measures the value as its "value-" name does.
pub proof fn lemma_metric_meanings(d: DeclarationSnapshot)
    ensures
        metric_value(d, "statement-occurrences"@) == d.type_stats.nodes,
        metric_value(d, "statement-unique-nodes"@) == d.type_graph.nodes@.len(),
        metric_value(d, "statement-depth"@) == d.type_stats.max_depth,
        metric_value(d, "statement-dependencies"@) == constant_names(d.type_graph).len(),
        metric_value(d, "value-occurrences"@) == match d.value_stats { Some(st) => if d.value_graph is Some { st.nodes as nat } else { 0 }, None => 0 },
        metric_value(d, "proof-occurrences"@) == match d.value_stats { Some(st) => if d.value_graph is Some { st.nodes as nat } else { 0 }, None => 0 },
        metric_value(d, "value-unique-nodes"@) == match d.value_graph { Some(g) => if d.value_stats is Some { g.nodes@.len() } else { 0 }, None => 0 },
        metric_value(d, "proof-unique-nodes"@) == match d.value_graph { Some(g) => if d.value_stats is Some { g.nodes@.len() } else { 0 }, None => 0 },
        metric_value(d, "value-depth"@) == match d.value_stats { Some(st) => if d.value_graph is Some { st.max_depth as nat } else { 0 }, None => 0 },
        metric_value(d, "proof-depth"@) == match d.value_stats { Some(st) => if d.value_graph is Some { st.max_depth as nat } else { 0 }, None => 0 },
        metric_value(d, "value-dependencies"@) == match d.value_graph { Some(g) => if d.value_stats is Some { constant_names(g).len() } else { 0 }, None => 0 },
        metric_value(d, "proof-dependencies"@) == match d.value_graph { Some(g) => if d.value_stats is Some { constant_names(g).len() } else { 0 }, None => 0 },
        metric_value(d, "axioms"@) == d.axioms@.len(),
        known_metric("statement-occurrences"@) && known_metric("statement-unique-nodes"@) && known_metric("statement-depth"@)
            && known_metric("statement-dependencies"@) && known_metric("value-occurrences"@) && known_metric("proof-occurrences"@)
            && known_metric("value-unique-nodes"@) && known_metric("proof-unique-nodes"@) && known_metric("value-depth"@)
            && known_metric("proof-depth"@) && known_metric("value-dependencies"@) && known_metric("proof-dependencies"@)
            && known_metric("axioms"@),
{
    reveal_strlit("statement-occurrences");
    reveal_strlit("statement-unique-nodes");
    reveal_strlit("statement-depth");
    reveal_strlit("statement-dependencies");
    reveal_strlit("value-occurrences");
    reveal_strlit("proof-occurrences");
    reveal_strlit("value-unique-nodes");
    reveal_strlit("proof-unique-nodes");
    reveal_strlit("value-depth");
    reveal_strlit("proof-depth");
    reveal_strlit("value-dependencies");
    reveal_strlit("proof-dependencies");
    reveal_strlit("axioms");
    assert("statement-dependencies"@[10] != "statement-unique-nodes"@[10]);
    assert("statement-dependencies"@[10] != "statement-occurrences"@[10]);
    assert("statement-depth"@[10] != "statement-occurrences"@[10]);
    assert("statement-depth"@[10] != "statement-unique-nodes"@[10]);
    assert("statement-dependencies"@.len() != "statement-depth"@.len());
    assert("value-depth"@[0] != "statement-occurrences"@[0]);
    assert("value-depth"@[0] != "statement-unique-nodes"@[0]);
    assert("value-depth"@[0] != "statement-depth"@[0]);
    assert("value-depth"@[0] != "statement-dependencies"@[0]);
    assert("value-depth"@[6] != "value-occurrences"@[6]);
    assert("value-depth"@[0] != "proof-occurrences"@[0]);
    assert("value-depth"@[6] != "value-unique-nodes"@[6]);
    assert("value-depth"@[0] != "proof-unique-nodes"@[0]);
    assert("value-depth"@[9] != "value-dependencies"@[9]);
    assert("value-depth"@[0] != "proof-dependencies"@[0]);
    assert("value-depth"@[0] != "axioms"@[0]);
    assert("proof-depth"@[0] != "statement-occurrences"@[0]);
    assert("proof-depth"@[0] != "statement-unique-nodes"@[0]);
    assert("proof-depth"@[0] != "statement-depth"@[0]);
    assert("proof-depth"@[0] != "statement-dependencies"@[0]);
    assert("proof-depth"@[0] != "value-occurrences"@[0]);
    assert("proof-depth"@[6] != "proof-occurrences"@[6]);
    assert("proof-depth"@[0] != "value-unique-nodes"@[0]);
    assert("proof-depth"@[6] != "proof-unique-nodes"@[6]);
    assert("proof-depth"@[0] != "value-dependencies"@[0]);
    assert("proof-depth"@[9] != "proof-dependencies"@[9]);
    assert("proof-depth"@[0] != "axioms"@[0]);
    assert("value-dependencies"@[6] != "value-unique-nodes"@[6]);
    assert("value-dependencies"@[0] != "proof-unique-nodes"@[0]);
    assert("proof-dependencies"@[0] != "value-unique-nodes"@[0]);
    assert("proof-dependencies"@[6] != "proof-unique-nodes"@[6]);
}

/// The metrics a ranking accepts are exactly the thirteen names above.
pub proof fn lemma_known_metrics(m: Seq<char>)
    ensures
        known_metric(m) <==> (m == "statement-occurrences"@ || m == "statement-unique-nodes"@ || m == "statement-depth"@ || m == "statement-dependencies"@ || m == "value-occurrences"@ || m == "proof-occurrences"@ || m == "value-unique-nodes"@ || m == "proof-unique-nodes"@ || m == "value-depth"@ || m == "proof-depth"@ || m == "value-dependencies"@ || m == "proof-dependencies"@ || m == "axioms"@),
{
}

/// One declaration with the value a ranking orders it by.
#[derive(Debug)]
pub struct RankedCount {
    pub name: String,
    pub value: usize,
}

/// Larger values come first, then names in order.
pub open spec fn count_before(a: RankedCount, b: RankedCount) -> bool {
    a.value > b.value || (a.value == b.value && text_lt(a.name@, b.name@))
}

impl Ranked for RankedCount {
    open spec fn rank_lt(self, other: Self) -> bool {
        count_before(self, other)
    }

    fn precedes(&self, other: &Self) -> (r: bool) {
        if self.value != other.value {
            self.value > other.value
        } else {
            match compare_text(self.name.as_str(), other.name.as_str()) {
                Order::Less => true,
                _ => false,
            }
        }
    }

    proof fn lemma_rank_order(a: Self, b: Self, c: Self) {
        crate::strings::lemma_text_lt_trichotomy(a.name@, b.name@);
        crate::strings::lemma_text_lt_trichotomy(b.name@, c.name@);
        crate::strings::lemma_text_lt_trichotomy(a.name@, c.name@);
        if text_lt(a.name@, b.name@) && text_lt(b.name@, c.name@) {
            crate::strings::lemma_text_lt_transitive(a.name@, b.name@, c.name@);
        }
        if text_lt(c.name@, b.name@) && text_lt(b.name@, a.name@) {
            crate::strings::lemma_text_lt_transitive(c.name@, b.name@, a.name@);
        }
    }
}

/// `items` lists the admitted declarations in order, each with its value
/// of metric `m`.
pub open spec fn metric_items(s: crate::model::ExtractionSnapshot, f: AnalysisFilter, m: Seq<char>, items: Seq<RankedCount>) -> bool {
    let ids = matching_declaration_ids(s, f, s.declarations@.len() as int);
    &&& items.len() == ids.len()
    &&& forall|k: int| 0 <= k < items.len() ==> (#[trigger] items[k]).name@ == s.declarations@[ids[k] as int].name@
        && items[k].value == metric_value(s.declarations@[ids[k] as int], m)
}

/// `r` is the start, `limit` long where there is room, of an ordering of
/// `items` in which no entry comes before an earlier one.
pub open spec fn ranked_prefix(items: Seq<RankedCount>, limit: usize, r: Seq<RankedCount>) -> bool {
    &&& r.len() == if items.len() < limit { items.len() } else { limit as nat }
    &&& exists|w: Seq<RankedCount>| #![trigger w.to_multiset()]
        w.to_multiset() == items.to_multiset() && ranked_sorted(w) && r == w.take(r.len() as int)
}

/// Which metric a name selects, where it names one.
fn metric_code(metric: &str) -> (r: Option<u8>)
    ensures
        r is None <==> metric_code_spec(metric@) < 0,
        r matches Some(c) ==> c == metric_code_spec(metric@),
{
    if text_eq(metric, "statement-occurrences") {
        Some(0)
    } else if text_eq(metric, "statement-unique-nodes") {
        Some(1)
    } else if text_eq(metric, "statement-depth") {
        Some(2)
    } else if text_eq(metric, "statement-dependencies") {
        Some(3)
    } else if text_eq(metric, "value-occurrences") || text_eq(metric, "proof-occurrences") {
        Some(4)
    } else if text_eq(metric, "value-unique-nodes") || text_eq(metric, "proof-unique-nodes") {
        Some(5)
    } else if text_eq(metric, "value-depth") || text_eq(metric, "proof-depth") {
        Some(6)
    } else if text_eq(metric, "value-dependencies") || text_eq(metric, "proof-dependencies") {
        Some(7)
    } else if text_eq(metric, "axioms") {
        Some(8)
    } else {
        None
    }
}

impl AnalysisCorpus {
    /// The admitted declarations ranked by metric `metric`, larger values
    /// first and then by name, the first `limit` kept; none where the
    /// metric is unknown.
    pub fn rank(&self, metric: &str, filter: &AnalysisFilter, limit: usize) -> (r: Option<Vec<RankedCount>>)
        ensures
            r is None <==> !known_metric(metric@),
            r matches Some(v) ==> exists|items: Seq<RankedCount>| #[trigger] metric_items(self.snapshot_view(), *filter, metric@, items)
                && ranked_prefix(items, limit, v@),
    {
        let code = match metric_code(metric) {
            Some(c) => c,
            None => {
                return None;
            },
        };
        let ghost s = self.snapshot_view();
        let ids = self.filtered_declaration_ids(filter);
        let declaration_count = self.declarations().len();
        proof {
            crate::analysis::dependency::lemma_matching_ids(s, *filter, s.declarations@.len() as int);
        }
        let declarations = self.declarations();
        let mut items: Vec<RankedCount> = Vec::new();
        let mut k: usize = 0;
        while k < ids.len()
            invariant
                s == self.snapshot_view(),
                declarations@ == s.declarations@,
                ids@ == matching_declaration_ids(s, *filter, s.declarations@.len() as int),
                forall|j: int| 0 <= j < ids@.len() ==> #[trigger] ids@[j] < s.declarations@.len(),
                code < 9,
                code == metric_code_spec(metric@),
                k <= ids@.len(),
                items@.len() == k,
                forall|j: int| 0 <= j < k ==> (#[trigger] items@[j]).name@ == s.declarations@[ids@[j] as int].name@
                    && items@[j].value == metric_value(s.declarations@[ids@[j] as int], metric@),
            decreases ids@.len() - k,
        {
            let id = ids[k];
            let d = &declarations[id];
            let value: usize = if code <= 3 {
                let c = match self.expression_counts(id, DependencyLayer::Statement) {
                    Some(c) => c,
                    None => ExpressionCounts { total_occurrences: 0, unique_nodes: 0, maximum_depth: 0, direct_dependencies: 0 },
                };
                if code == 0 { c.total_occurrences } else if code == 1 { c.unique_nodes } else if code == 2 { c.maximum_depth } else { c.direct_dependencies }
            } else if code <= 7 {
                match self.expression_counts(id, DependencyLayer::Proof) {
                    Some(c) => if code == 4 { c.total_occurrences } else if code == 5 { c.unique_nodes } else if code == 6 { c.maximum_depth } else { c.direct_dependencies },
                    None => 0,
                }
            } else {
                d.axioms.len()
            };
            proof {
                assert(value == metric_value(s.declarations@[ids@[k as int] as int], metric@));
            }
            items.push(RankedCount { name: copy_text(&d.name), value });
            k = k + 1;
        }
        let ghost all = items@;
        let sorted = sort_ranked(items);
        let ghost w = sorted@;
        proof {
            vstd::seq_lib::to_multiset_len(w);
            vstd::seq_lib::to_multiset_len(all);
        }
        let keep = if sorted.len() < limit { sorted.len() } else { limit };
        let mut sorted = sorted;
        sorted.truncate(keep);
        proof {
            assert(metric_items(s, *filter, metric@, all));
            assert(sorted@ == w.take(keep as int));
        }
        Some(sorted)
    }
}

/// A constant with how often an expression names it.
#[derive(Debug)]
pub struct ConstantCount {
    pub name: String,
    pub occurrences: usize,
}

/// More frequent constants come first, then names in order.
pub open spec fn constant_before(a: ConstantCount, b: ConstantCount) -> bool {
    a.occurrences > b.occurrences || (a.occurrences == b.occurrences && text_lt(a.name@, b.name@))
}

impl Ranked for ConstantCount {
    open spec fn rank_lt(self, other: Self) -> bool {
        constant_before(self, other)
    }

    fn precedes(&self, other: &Self) -> (r: bool) {
        if self.occurrences != other.occurrences {
            self.occurrences > other.occurrences
        } else {
            match compare_text(self.name.as_str(), other.name.as_str()) {
                Order::Less => true,
                _ => false,
            }
        }
    }

    proof fn lemma_rank_order(a: Self, b: Self, c: Self) {
        crate::strings::lemma_text_lt_trichotomy(a.name@, b.name@);
        crate::strings::lemma_text_lt_trichotomy(b.name@, c.name@);
        crate::strings::lemma_text_lt_trichotomy(a.name@, c.name@);
        if text_lt(a.name@, b.name@) && text_lt(b.name@, c.name@) {
            crate::strings::lemma_text_lt_transitive(a.name@, b.name@, c.name@);
        }
        if text_lt(c.name@, b.name@) && text_lt(b.name@, a.name@) {
            crate::strings::lemma_text_lt_transitive(c.name@, b.name@, a.name@);
        }
    }
}

/// The constants an expression names, each once with how often the
/// expression tree names it, the most frequent first and then by name.
pub fn constant_frequencies(g: &ExpressionGraph) -> (r: Vec<ConstantCount>)
    requires
        graph_valid(*g),
        total_occurrences(*g) <= usize::MAX,
    ensures
        r@.len() == constant_names(*g).len(),
        ranked_sorted(r@),
        forall|n: Seq<char>| has_constant(*g, n) <==> exists|i: int| 0 <= i < r@.len() && #[trigger] r@[i].name@ == n,
        forall|i: int| 0 <= i < r@.len() ==> (#[trigger] r@[i]).occurrences == constant_count(*g, r@[i].name@, g.nodes@.len() as int),
        forall|i: int, j: int| 0 <= i < r@.len() && 0 <= j < r@.len() && i != j ==> (#[trigger] r@[i]).name@ != (#[trigger] r@[j]).name@,
{
    broadcast use vstd::seq_lib::group_to_multiset_ensures;
    let tally = g.constant_occurrences();
    let mut items: Vec<ConstantCount> = Vec::new();
    let mut k: usize = 0;
    while k < tally.len()
        invariant
            k <= tally@.len(),
            items@.len() == k,
            forall|j: int| 0 <= j < k ==> (#[trigger] items@[j]).name@ == tally@[j].0@ && items@[j].occurrences == tally@[j].1,
        decreases tally@.len() - k,
    {
        items.push(ConstantCount { name: copy_text(&tally[k].0), occurrences: tally[k].1 });
        k = k + 1;
    }
    let ghost unsorted = items@;
    let sorted = sort_ranked(items);
    proof {
        let w = sorted@;
        vstd::seq_lib::to_multiset_len(w);
        vstd::seq_lib::to_multiset_len(unsorted);
        assert forall|i: int| 0 <= i < w.len() implies exists|a: int| 0 <= a < unsorted.len() && #[trigger] unsorted[a] == #[trigger] w[i] by {
            assert(w.to_multiset().count(w[i]) > 0);
            assert(unsorted.contains(w[i]));
        }
        assert(unsorted.no_duplicates()) by {
            assert forall|a: int, b: int| 0 <= a < unsorted.len() && 0 <= b < unsorted.len() && a != b implies unsorted[a] != unsorted[b] by {
                if a < b {
                    crate::strings::lemma_text_lt_trichotomy(tally@[a].0@, tally@[b].0@);
                } else {
                    crate::strings::lemma_text_lt_trichotomy(tally@[b].0@, tally@[a].0@);
                }
            }
        }
        unsorted.lemma_multiset_has_no_duplicates();
        assert forall|x: ConstantCount| w.to_multiset().contains(x) implies w.to_multiset().count(x) == 1 by {
            assert(unsorted.to_multiset().contains(x));
        }
        w.lemma_multiset_has_no_duplicates_conv();
        assert forall|i: int, j: int| 0 <= i < w.len() && 0 <= j < w.len() && i != j implies (#[trigger] w[i]).name@ != (#[trigger] w[j]).name@ by {
            let a = choose|a: int| 0 <= a < unsorted.len() && #[trigger] unsorted[a] == #[trigger] w[i];
            let b = choose|b: int| 0 <= b < unsorted.len() && #[trigger] unsorted[b] == #[trigger] w[j];
            assert(w[i] != w[j]);
            if a < b {
                crate::strings::lemma_text_lt_trichotomy(tally@[a].0@, tally@[b].0@);
            } else if b < a {
                crate::strings::lemma_text_lt_trichotomy(tally@[b].0@, tally@[a].0@);
            }
        }
        assert forall|i: int| 0 <= i < w.len() implies (#[trigger] w[i]).occurrences == constant_count(*g, w[i].name@, g.nodes@.len() as int) by {
            let a = choose|a: int| 0 <= a < unsorted.len() && #[trigger] unsorted[a] == #[trigger] w[i];
            crate::tally::lemma_count_of_entry(tally@, a);
        }
        assert forall|n: Seq<char>| has_constant(*g, n) <==> exists|i: int| 0 <= i < w.len() && #[trigger] w[i].name@ == n by {
            if has_constant(*g, n) {
                assert(tally_has(tally@, n));
                let a = choose|a: int| 0 <= a < tally@.len() && #[trigger] tally@[a].0@ == n;
                assert(unsorted[a].name@ == n);
                assert(unsorted.to_multiset().count(unsorted[a]) > 0);
                assert(w.contains(unsorted[a]));
                let i = choose|i: int| 0 <= i < w.len() && w[i] == unsorted[a];
                assert(w[i].name@ == n);
            }
            if exists|i: int| 0 <= i < w.len() && #[trigger] w[i].name@ == n {
                let i = choose|i: int| 0 <= i < w.len() && #[trigger] w[i].name@ == n;
                let a = choose|a: int| 0 <= a < unsorted.len() && #[trigger] unsorted[a] == #[trigger] w[i];
                assert(tally@[a].0@ == n);
                assert(tally_has(tally@, n));
            }
        }
        lemma_tally_names(*g, tally@);
    }
    sorted
}

/// A sorted tally of an expression's constants lists as many names as the
/// expression has distinct constants.
proof fn lemma_tally_names(g: ExpressionGraph, tally: Seq<(String, usize)>)
    requires
        tally_sorted(tally),
        forall|n: Seq<char>| #[trigger] tally_has(tally, n) <==> has_constant(g, n),
    ensures
        constant_names(g).finite(),
        tally.len() == constant_names(g).len(),
{
    let names = tally.map_values(|e: (String, usize)| e.0@);
    assert(names.no_duplicates()) by {
        assert forall|i: int, j: int| 0 <= i < names.len() && 0 <= j < names.len() && i != j implies names[i] != names[j] by {
            if i < j {
                crate::strings::lemma_text_lt_trichotomy(tally[i].0@, tally[j].0@);
            } else {
                crate::strings::lemma_text_lt_trichotomy(tally[j].0@, tally[i].0@);
            }
        }
    }
    assert(names.to_set() =~= constant_names(g)) by {
        assert forall|n: Seq<char>| names.to_set().contains(n) <==> constant_names(g).contains(n) by {
            if names.contains(n) {
                let i = choose|i: int| 0 <= i < names.len() && names[i] == n;
                assert(tally[i].0@ == n);
                assert(tally_has(tally, n));
            }
            if has_constant(g, n) {
                assert(tally_has(tally, n));
                let i = choose|i: int| 0 <= i < tally.len() && #[trigger] tally[i].0@ == n;
                assert(names[i] == n);
            }
        }
    }
    names.unique_seq_to_set();
}

/// How often the expression tree of `g` holds a node of kind `name`, over
/// its first `n` nodes.
pub open spec fn kind_weight(g: ExpressionGraph, name: Seq<char>, n: int) -> nat
    decreases n,
{
    if n <= 0 {
        0
    } else {
        kind_weight(g, name, n - 1) + if g.nodes@[n - 1].kind@ == name { paths_to(g, n - 1) } else { 0nat }
    }
}

proof fn lemma_kind_weight_bound(g: ExpressionGraph, name: Seq<char>, n: int)
    ensures
        kind_weight(g, name, n) <= paths_sum(g, n),
    decreases n,
{
    if n > 0 {
        lemma_kind_weight_bound(g, name, n - 1);
    }
}

proof fn lemma_paths_sum_grows(g: ExpressionGraph, a: int, b: int)
    requires
        a <= b,
    ensures
        paths_sum(g, a) <= paths_sum(g, b),
    decreases b - a,
{
    if a < b {
        lemma_paths_sum_grows(g, a, b - 1);
    }
}

impl AnalysisCorpus {
    /// How often each kind of node occurs in the expression tree of
    /// declaration `id` on `layer`, by kind name; none without an
    /// expression there.
    pub fn kind_occurrences(&self, id: usize, layer: DependencyLayer) -> (r: Option<Vec<(String, usize)>>)
        requires
            id < self.snapshot_view().declarations@.len(),
        ensures
            match layer_graph(self.snapshot_view().declarations@[id as int], layer) {
                Some(g) => r matches Some(t) && tally_sorted(t@)
                    && (forall|n: Seq<char>| #[trigger] count_of(t@, n) == kind_weight(g, n, g.nodes@.len() as int))
                    && (forall|n: Seq<char>| #[trigger] tally_has(t@, n) <==> exists|x: int| 0 <= x < g.nodes@.len() && #[trigger] g.nodes@[x].kind@ == n),
                None => r is None,
            },
    {
        proof {
            use_type_invariant(self);
            assert(declaration_valid(self.snapshot_view().declarations@[id as int]));
        }
        let g = match self.graph(id, layer) {
            Some(g) => g,
            None => {
                return None;
            },
        };
        let m = match self.multiplicities(id, layer) {
            Some(m) => m,
            None => {
                return None;
            },
        };
        proof {
            assert(multiplicities_of(*g, m@));
            assert(total_occurrences(*g) <= usize::MAX);
        }
        let mut t: Vec<(String, usize)> = Vec::new();
        let mut x: usize = 0;
        while x < g.nodes.len()
            invariant
                multiplicities_of(*g, m@),
                total_occurrences(*g) <= usize::MAX,
                x <= g.nodes@.len(),
                tally_sorted(t@),
                forall|n: Seq<char>| #[trigger] count_of(t@, n) == kind_weight(*g, n, x as int),
                forall|n: Seq<char>| #[trigger] tally_has(t@, n) <==> exists|y: int| 0 <= y < x && #[trigger] g.nodes@[y].kind@ == n,
            decreases g.nodes@.len() - x,
        {
            let name = g.nodes[x].kind.as_str();
            proof {
                lemma_kind_weight_bound(*g, name@, x as int);
                lemma_paths_sum_grows(*g, x + 1, g.nodes@.len() as int);
                assert(m@[x as int] == paths_to(*g, x as int));
            }
            let ghost t0 = t@;
            tally_add(&mut t, name, m[x]);
            proof {
                assert forall|n: Seq<char>| #[trigger] tally_has(t@, n) <==> exists|y: int| 0 <= y < x + 1 && #[trigger] g.nodes@[y].kind@ == n by {
                    if tally_has(t0, n) {
                        let y = choose|y: int| 0 <= y < x && #[trigger] g.nodes@[y].kind@ == n;
                    }
                    if exists|y: int| 0 <= y < x + 1 && #[trigger] g.nodes@[y].kind@ == n {
                        let y = choose|y: int| 0 <= y < x + 1 && #[trigger] g.nodes@[y].kind@ == n;
                        if y < x {
                            assert(tally_has(t0, n));
                        }
                    }
                }
            }
            x = x + 1;
        }
        Some(t)
    }
}

} // verus!


