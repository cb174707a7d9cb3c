//! The whole-number totals of a corpus summary: counts, sizes, and the
//! tallies by declaration kind and by module.
use vstd::prelude::*;
use crate::analysis::corpus::{
    declaration_known, matching_declaration_ids, selected_edge_ids, AnalysisCorpus, DependencyEdge,
};
use crate::analysis::dependency::capped;
use crate::analysis::filters::{copy_filter, filter_matches_symbol, same_filter, AnalysisFilter};
use crate::analysis::modules::module_or_unknown;
use crate::model::{DeclarationSnapshot, ExtractionSnapshot};
use crate::strings::{opt_view, text_eq, text_from};
use crate::tally::{count_of, tally_add, tally_has, tally_sorted};

verus! {

/// How many of `ids` satisfy `p`.
pub open spec fn count_ids(ids: Seq<usize>, p: spec_fn(usize) -> bool) -> nat
    decreases ids.len(),
{
    if ids.len() == 0 {
        0
    } else {
        count_ids(ids.drop_last(), p) + if p(ids.last()) { 1nat } else { 0nat }
    }
}

/// The sum of `f` over `ids`.
pub open spec fn sum_ids(ids: Seq<usize>, f: spec_fn(usize) -> nat) -> nat
    decreases ids.len(),
{
    if ids.len() == 0 {
        0
    } else {
        sum_ids(ids.drop_last(), f) + f(ids.last())
    }
}

/// The value sizes of the declarations `ids` that have a value, in order.
pub open spec fn value_sizes_of(s: ExtractionSnapshot, ids: Seq<usize>) -> Seq<usize>
    decreases ids.len(),
{
    if ids.len() == 0 {
        Seq::empty()
    } else {
        let prev = value_sizes_of(s, ids.drop_last());
        match s.declarations@[ids.last() as int].value_stats {
            Some(st) => prev.push(st.nodes),
            None => prev,
        }
    }
}

/// The module a declaration is counted under.
pub open spec fn counted_module(d: DeclarationSnapshot) -> Seq<char> {
    module_or_unknown(opt_view(&d.module_name))
}

/// The number of occurrence nodes of a declaration's value, if any.
pub open spec fn value_occurrences_of(d: DeclarationSnapshot) -> nat {
    match d.value_stats {
        Some(st) => st.nodes as nat,
        None => 0,
    }
}

/// The number of distinct nodes of a declaration's value graph, if any.
pub open spec fn value_nodes_of(d: DeclarationSnapshot) -> nat {
    match d.value_graph {
        Some(g) => g.nodes@.len(),
        None => 0,
    }
}

/// The ids of every symbol.
pub open spec fn symbol_ids(s: ExtractionSnapshot) -> Seq<usize> {
    Seq::new(s.symbols@.len(), |k: int| k as usize)
}

/// The whole-number totals of the declarations, symbols and dependency
/// edges that a filter admits.
#[derive(Clone, Debug)]
pub struct CorpusCounts {
    pub filter: AnalysisFilter,
    pub declaration_count: usize,
    pub theorem_count: usize,
    pub generated_count: usize,
    pub symbol_count: usize,
    pub statement_occurrences: usize,
    pub value_occurrences: usize,
    pub statement_unique_nodes: usize,
    pub value_unique_nodes: usize,
    pub dependency_edges: usize,
    pub dependency_occurrences: usize,
    pub internal_dependency_edges: usize,
    pub by_kind: Vec<(String, usize)>,
    pub by_module: Vec<(String, usize)>,
    /// The statement size of each counted declaration, in order.
    pub statement_sizes: Vec<usize>,
    /// The value size of each counted declaration with a value, in order.
    pub value_sizes: Vec<usize>,
}

/// `c` holds the totals over the declarations `ids` and the edges `eids`
/// (sums saturate at the largest machine word).
pub open spec fn counts_describe(
    s: ExtractionSnapshot,
    edges: Seq<DependencyEdge>,
    f: AnalysisFilter,
    ids: Seq<usize>,
    eids: Seq<usize>,
    c: CorpusCounts,
) -> bool {
    let d = |i: usize| s.declarations@[i as int];
    &&& same_filter(c.filter, f)
    &&& c.declaration_count == ids.len()
    &&& c.theorem_count == count_ids(ids, |i: usize| s.declarations@[i as int].kind@ == "theorem"@)
    &&& c.generated_count == count_ids(ids, |i: usize| crate::model::declaration_hidden(s.declarations@[i as int]))
    &&& c.symbol_count == count_ids(symbol_ids(s), |k: usize| filter_matches_symbol(f, s.symbols@[k as int], declaration_known(s, s.symbols@[k as int].name@)))
    &&& c.statement_occurrences == capped(sum_ids(ids, |i: usize| s.declarations@[i as int].type_stats.nodes as nat))
    &&& c.value_occurrences == capped(sum_ids(ids, |i: usize| value_occurrences_of(s.declarations@[i as int])))
    &&& c.statement_unique_nodes == capped(sum_ids(ids, |i: usize| s.declarations@[i as int].type_graph.nodes@.len()))
    &&& c.value_unique_nodes == capped(sum_ids(ids, |i: usize| value_nodes_of(s.declarations@[i as int])))
    &&& c.dependency_edges == eids.len()
    &&& c.dependency_occurrences == capped(sum_ids(eids, |k: usize| edges[k as int].occurrences as nat))
    &&& c.internal_dependency_edges == count_ids(eids, |k: usize| edges[k as int].target_in_corpus)
    &&& tally_sorted(c.by_kind@)
    &&& forall|name: Seq<char>| #[trigger] count_of(c.by_kind@, name) == count_ids(ids, |i: usize| s.declarations@[i as int].kind@ == name)
    &&& forall|name: Seq<char>| #[trigger] tally_has(c.by_kind@, name) <==> count_of(c.by_kind@, name) > 0
    &&& tally_sorted(c.by_module@)
    &&& forall|name: Seq<char>| #[trigger] count_of(c.by_module@, name) == count_ids(ids, |i: usize| counted_module(s.declarations@[i as int]) == name)
    &&& forall|name: Seq<char>| #[trigger] tally_has(c.by_module@, name) <==> count_of(c.by_module@, name) > 0
    &&& c.statement_sizes@ == ids.map_values(|i: usize| s.declarations@[i as int].type_stats.nodes)
    &&& c.value_sizes@ == value_sizes_of(s, ids)
}

proof fn lemma_count_step(ids: Seq<usize>, p: spec_fn(usize) -> bool, j: int)
    requires
        0 <= j < ids.len(),
    ensures
        count_ids(ids.take(j + 1), p) == count_ids(ids.take(j), p) + if p(ids[j]) { 1nat } else { 0nat },
        count_ids(ids.take(j), p) <= j,
{
    assert(ids.take(j + 1).drop_last() =~= ids.take(j));
    lemma_count_bound(ids.take(j), p);
}

proof fn lemma_count_bound(ids: Seq<usize>, p: spec_fn(usize) -> bool)
    ensures
        count_ids(ids, p) <= ids.len(),
    decreases ids.len(),
{
    if ids.len() > 0 {
        lemma_count_bound(ids.drop_last(), p);
    }
}

proof fn lemma_sum_step(ids: Seq<usize>, f: spec_fn(usize) -> nat, j: int)
    requires
        0 <= j < ids.len(),
    ensures
        sum_ids(ids.take(j + 1), f) == sum_ids(ids.take(j), f) + f(ids[j]),
{
    assert(ids.take(j + 1).drop_last() =~= ids.take(j));
}

proof fn lemma_value_sizes_step(s: ExtractionSnapshot, ids: Seq<usize>, j: int)
    requires
        0 <= j < ids.len(),
    ensures
        value_sizes_of(s, ids.take(j + 1)) == match s.declarations@[ids[j] as int].value_stats {
            Some(st) => value_sizes_of(s, ids.take(j)).push(st.nodes),
            None => value_sizes_of(s, ids.take(j)),
        },
{
    assert(ids.take(j + 1).drop_last() =~= ids.take(j));
}

/// Adds with saturation.
fn add_capped(a: usize, b: usize) -> (r: usize)
    ensures
        r == capped((a + b) as nat),
{
    if a > usize::MAX - b {
        usize::MAX
    } else {
        a + b
    }
}


impl AnalysisCorpus {
    /// The counts and sums over the declarations `ids`.
    fn declaration_sums(&self, ids: &Vec<usize>) -> (r: (usize, usize, usize, usize, usize, usize))
        requires
            forall|k: int| 0 <= k < ids@.len() ==> #[trigger] ids@[k] < self.snapshot_view().declarations@.len(),
        ensures
            r.0 == count_ids(ids@, |i: usize| self.snapshot_view().declarations@[i as int].kind@ == "theorem"@),
            r.1 == count_ids(ids@, |i: usize| crate::model::declaration_hidden(self.snapshot_view().declarations@[i as int])),
            r.2 == capped(sum_ids(ids@, |i: usize| self.snapshot_view().declarations@[i as int].type_stats.nodes as nat)),
            r.3 == capped(sum_ids(ids@, |i: usize| value_occurrences_of(self.snapshot_view().declarations@[i as int]))),
            r.4 == capped(sum_ids(ids@, |i: usize| self.snapshot_view().declarations@[i as int].type_graph.nodes@.len())),
            r.5 == capped(sum_ids(ids@, |i: usize| value_nodes_of(self.snapshot_view().declarations@[i as int]))),
    {
        let ghost s = self.snapshot_view();
        let ghost theorem = |i: usize| s.declarations@[i as int].kind@ == "theorem"@;
        let ghost generated = |i: usize| crate::model::declaration_hidden(s.declarations@[i as int]);
        let ghost stmt = |i: usize| s.declarations@[i as int].type_stats.nodes as nat;
        let ghost valocc = |i: usize| value_occurrences_of(s.declarations@[i as int]);
        let ghost stmt_nodes = |i: usize| s.declarations@[i as int].type_graph.nodes@.len();
        let ghost val_nodes = |i: usize| value_nodes_of(s.declarations@[i as int]);
        let ds = self.declarations();
        let mut theorems: usize = 0;
        let mut hidden: usize = 0;
        let mut a: usize = 0;
        let mut b: usize = 0;
        let mut c: usize = 0;
        let mut d: usize = 0;
        let mut j: usize = 0;
        while j < ids.len()
            invariant
                s == self.snapshot_view(),
                ds@ == s.declarations@,
                theorem == |i: usize| s.declarations@[i as int].kind@ == "theorem"@,
                generated == |i: usize| crate::model::declaration_hidden(s.declarations@[i as int]),
                stmt == |i: usize| s.declarations@[i as int].type_stats.nodes as nat,
                valocc == |i: usize| value_occurrences_of(s.declarations@[i as int]),
                stmt_nodes == |i: usize| s.declarations@[i as int].type_graph.nodes@.len(),
                val_nodes == |i: usize| value_nodes_of(s.declarations@[i as int]),
                forall|k: int| 0 <= k < ids@.len() ==> #[trigger] ids@[k] < s.declarations@.len(),
                j <= ids@.len(),
                theorems == count_ids(ids@.take(j as int), theorem),
                hidden == count_ids(ids@.take(j as int), generated),
                a == capped(sum_ids(ids@.take(j as int), stmt)),
                b == capped(sum_ids(ids@.take(j as int), valocc)),
                c == capped(sum_ids(ids@.take(j as int), stmt_nodes)),
                d == capped(sum_ids(ids@.take(j as int), val_nodes)),
            decreases ids.len() - j,
        {
            let decl = &ds[ids[j]];
            proof {
                lemma_count_step(ids@, theorem, j as int);
                lemma_count_step(ids@, generated, j as int);
                lemma_sum_step(ids@, stmt, j as int);
                lemma_sum_step(ids@, valocc, j as int);
                lemma_sum_step(ids@, stmt_nodes, j as int);
                lemma_sum_step(ids@, val_nodes, j as int);
                assert(*decl == s.declarations@[ids@[j as int] as int]);
                assert(theorem(ids@[j as int]) == (decl.kind@ == "theorem"@));
                assert(stmt(ids@[j as int]) == decl.type_stats.nodes as nat);
            }
            if text_eq(decl.kind.as_str(), "theorem") {
                theorems = theorems + 1;
            }
            if decl.is_hidden_by_default() {
                hidden = hidden + 1;
            }
            a = add_capped(a, decl.type_stats.nodes);
            let vo = match &decl.value_stats {
                Some(st) => st.nodes,
                None => 0,
            };
            b = add_capped(b, vo);
            c = add_capped(c, decl.type_graph.nodes.len());
            let vn = match &decl.value_graph {
                Some(g) => g.nodes.len(),
                None => 0,
            };
            d = add_capped(d, vn);
            j = j + 1;
        }
        proof {
            assert(ids@.take(ids@.len() as int) =~= ids@);
        }
        (theorems, hidden, a, b, c, d)
    }
}


impl AnalysisCorpus {
    /// The tallies by kind and by module over the declarations `ids`.
    fn declaration_tallies(&self, ids: &Vec<usize>) -> (r: (Vec<(String, usize)>, Vec<(String, usize)>))
        requires
            forall|k: int| 0 <= k < ids@.len() ==> #[trigger] ids@[k] < self.snapshot_view().declarations@.len(),
        ensures
            tally_sorted(r.0@),
            forall|name: Seq<char>| #[trigger] count_of(r.0@, name) == count_ids(ids@, |i: usize| self.snapshot_view().declarations@[i as int].kind@ == name),
            forall|name: Seq<char>| #[trigger] tally_has(r.0@, name) <==> count_of(r.0@, name) > 0,
            tally_sorted(r.1@),
            forall|name: Seq<char>| #[trigger] count_of(r.1@, name) == count_ids(ids@, |i: usize| counted_module(self.snapshot_view().declarations@[i as int]) == name),
            forall|name: Seq<char>| #[trigger] tally_has(r.1@, name) <==> count_of(r.1@, name) > 0,
    {
        let ghost s = self.snapshot_view();
        let ds = self.declarations();
        let mut kinds: Vec<(String, usize)> = Vec::new();
        let mut modules: Vec<(String, usize)> = Vec::new();
        let mut j: usize = 0;
        while j < ids.len()
            invariant
                s == self.snapshot_view(),
                ds@ == s.declarations@,
                forall|k: int| 0 <= k < ids@.len() ==> #[trigger] ids@[k] < s.declarations@.len(),
                j <= ids@.len(),
                tally_sorted(kinds@),
                forall|name: Seq<char>| #[trigger] count_of(kinds@, name) == count_ids(ids@.take(j as int), |i: usize| s.declarations@[i as int].kind@ == name),
                forall|name: Seq<char>| #[trigger] tally_has(kinds@, name) <==> count_of(kinds@, name) > 0,
                tally_sorted(modules@),
                forall|name: Seq<char>| #[trigger] count_of(modules@, name) == count_ids(ids@.take(j as int), |i: usize| counted_module(s.declarations@[i as int]) == name),
                forall|name: Seq<char>| #[trigger] tally_has(modules@, name) <==> count_of(modules@, name) > 0,
            decreases ids.len() - j,
        {
            let decl = &ds[ids[j]];
            let module = match &decl.module_name {
                Some(m) => text_from(m.as_str()),
                None => text_from("<unknown>"),
            };
            proof {
                assert(*decl == s.declarations@[ids@[j as int] as int]);
                assert(module@ == counted_module(*decl));
                lemma_count_step(ids@, |i: usize| s.declarations@[i as int].kind@ == decl.kind@, j as int);
                lemma_count_step(ids@, |i: usize| counted_module(s.declarations@[i as int]) == module@, j as int);
            }
            let ghost k0 = kinds@;
            let ghost m0 = modules@;
            tally_add(&mut kinds, decl.kind.as_str(), 1);
            tally_add(&mut modules, module.as_str(), 1);
            proof {
                assert forall|name: Seq<char>| #[trigger] count_of(kinds@, name)
                    == count_ids(ids@.take(j + 1), |i: usize| s.declarations@[i as int].kind@ == name) by {
                    lemma_count_step(ids@, |i: usize| s.declarations@[i as int].kind@ == name, j as int);
                }
                assert forall|name: Seq<char>| #[trigger] count_of(modules@, name)
                    == count_ids(ids@.take(j + 1), |i: usize| counted_module(s.declarations@[i as int]) == name) by {
                    lemma_count_step(ids@, |i: usize| counted_module(s.declarations@[i as int]) == name, j as int);
                }
                assert forall|name: Seq<char>| #[trigger] tally_has(kinds@, name) <==> count_of(kinds@, name) > 0 by {
                    assert(tally_has(k0, name) <==> count_of(k0, name) > 0);
                }
                assert forall|name: Seq<char>| #[trigger] tally_has(modules@, name) <==> count_of(modules@, name) > 0 by {
                    assert(tally_has(m0, name) <==> count_of(m0, name) > 0);
                }
            }
            j = j + 1;
        }
        proof {
            assert(ids@.take(ids@.len() as int) =~= ids@);
        }
        (kinds, modules)
    }

    /// The statement sizes of the declarations `ids`, and the value sizes of
    /// those with a value.
    fn declaration_sizes(&self, ids: &Vec<usize>) -> (r: (Vec<usize>, Vec<usize>))
        requires
            forall|k: int| 0 <= k < ids@.len() ==> #[trigger] ids@[k] < self.snapshot_view().declarations@.len(),
        ensures
            r.0@ == ids@.map_values(|i: usize| self.snapshot_view().declarations@[i as int].type_stats.nodes),
            r.1@ == value_sizes_of(self.snapshot_view(), ids@),
    {
        let ghost s = self.snapshot_view();
        let ds = self.declarations();
        let mut statement: Vec<usize> = Vec::new();
        let mut value: Vec<usize> = Vec::new();
        let mut j: usize = 0;
        while j < ids.len()
            invariant
                s == self.snapshot_view(),
                ds@ == s.declarations@,
                forall|k: int| 0 <= k < ids@.len() ==> #[trigger] ids@[k] < s.declarations@.len(),
                j <= ids@.len(),
                statement@ == ids@.take(j as int).map_values(|i: usize| s.declarations@[i as int].type_stats.nodes),
                value@ == value_sizes_of(s, ids@.take(j as int)),
            decreases ids.len() - j,
        {
            let decl = &ds[ids[j]];
            proof {
                assert(*decl == s.declarations@[ids@[j as int] as int]);
                lemma_value_sizes_step(s, ids@, j as int);
                assert(ids@.take(j + 1) =~= ids@.take(j as int).push(ids@[j as int]));
            }
            statement.push(decl.type_stats.nodes);
            match &decl.value_stats {
                Some(st) => value.push(st.nodes),
                None => {},
            }
            proof {
                assert(statement@ =~= ids@.take(j + 1).map_values(|i: usize| s.declarations@[i as int].type_stats.nodes));
            }
            j = j + 1;
        }
        proof {
            assert(ids@.take(ids@.len() as int) =~= ids@);
        }
        (statement, value)
    }
}


impl AnalysisCorpus {
    /// How many symbols the filter admits.
    fn admitted_symbols(&self, filter: &AnalysisFilter) -> (r: usize)
        ensures
            r == count_ids(symbol_ids(self.snapshot_view()), |k: usize| filter_matches_symbol(*filter, self.snapshot_view().symbols@[k as int], declaration_known(self.snapshot_view(), self.snapshot_view().symbols@[k as int].name@))),
    {
        let ghost s = self.snapshot_view();
        let ghost p = |k: usize| filter_matches_symbol(*filter, s.symbols@[k as int], declaration_known(s, s.symbols@[k as int].name@));
        let ghost all = symbol_ids(s);
        let syms = self.symbols();
        let mut count: usize = 0;
        let mut k: usize = 0;
        while k < syms.len()
            invariant
                s == self.snapshot_view(),
                syms@ == s.symbols@,
                all == symbol_ids(s),
                p == |k: usize| filter_matches_symbol(*filter, s.symbols@[k as int], declaration_known(s, s.symbols@[k as int].name@)),
                k <= syms@.len(),
                count == count_ids(all.take(k as int), p),
            decreases syms.len() - k,
        {
            proof {
                lemma_count_step(all, p, k as int);
                assert(all[k as int] == k);
            }
            let known = self.declaration_id(syms[k].name.as_str()).is_some();
            if filter.matches_symbol(&syms[k], known) {
                count = count + 1;
            }
            k = k + 1;
        }
        proof {
            assert(all.take(syms@.len() as int) =~= all);
        }
        count
    }

    /// The number, total weight and internal count of the edges the filter
    /// admits.
    fn admitted_edge_totals(&self, filter: &AnalysisFilter) -> (r: (usize, usize, usize))
        ensures
            ({
                let eids = selected_edge_ids(self.snapshot_view(), *filter, self.edges_view(), self.edges_view().len() as int);
                &&& r.0 == eids.len()
                &&& r.1 == capped(sum_ids(eids, |k: usize| self.edges_view()[k as int].occurrences as nat))
                &&& r.2 == count_ids(eids, |k: usize| self.edges_view()[k as int].target_in_corpus)
            }),
    {
        let ghost eids = selected_edge_ids(self.snapshot_view(), *filter, self.edges_view(), self.edges_view().len() as int);
        let ghost edges = self.edges_view();
        let ghost weight = |k: usize| edges[k as int].occurrences as nat;
        let ghost internal = |k: usize| edges[k as int].target_in_corpus;
        let selected = self.filtered_edges(filter);
        let mut total: usize = 0;
        let mut inside: usize = 0;
        let mut j: usize = 0;
        while j < selected.len()
            invariant
                selected@.len() == eids.len(),
                forall|i: int| 0 <= i < selected@.len() ==> *(#[trigger] selected@[i]) == edges[eids[i] as int],
                weight == |k: usize| edges[k as int].occurrences as nat,
                internal == |k: usize| edges[k as int].target_in_corpus,
                j <= selected@.len(),
                total == capped(sum_ids(eids.take(j as int), weight)),
                inside == count_ids(eids.take(j as int), internal),
            decreases selected.len() - j,
        {
            proof {
                lemma_sum_step(eids, weight, j as int);
                lemma_count_step(eids, internal, j as int);
                assert(*selected@[j as int] == edges[eids[j as int] as int]);
            }
            total = add_capped(total, selected[j].occurrences);
            if selected[j].target_in_corpus {
                inside = inside + 1;
            }
            j = j + 1;
        }
        proof {
            assert(eids.take(eids.len() as int) =~= eids);
        }
        (selected.len(), total, inside)
    }

    /// The whole-number totals of the declarations, symbols and dependency
    /// edges the filter admits: counts, saturating sums, tallies by kind and
    /// by module (`<unknown>` where none is recorded), and the sizes from
    /// which distributions are drawn.
    pub fn corpus_counts(&self, filter: &AnalysisFilter) -> (c: CorpusCounts)
        ensures
            counts_describe(
                self.snapshot_view(),
                self.edges_view(),
                *filter,
                matching_declaration_ids(self.snapshot_view(), *filter, self.snapshot_view().declarations@.len() as int),
                selected_edge_ids(self.snapshot_view(), *filter, self.edges_view(), self.edges_view().len() as int),
                c,
            ),
    {
        let n = self.declarations().len();
        let ids = self.filtered_declaration_ids(filter);
        proof {
            crate::analysis::dependency::lemma_matching_ids(self.snapshot_view(), *filter, n as int);
        }
        let sums = self.declaration_sums(&ids);
        let tallies = self.declaration_tallies(&ids);
        let sizes = self.declaration_sizes(&ids);
        let symbols = self.admitted_symbols(filter);
        let edges = self.admitted_edge_totals(filter);
        CorpusCounts {
            filter: copy_filter(filter),
            declaration_count: ids.len(),
            theorem_count: sums.0,
            generated_count: sums.1,
            symbol_count: symbols,
            statement_occurrences: sums.2,
            value_occurrences: sums.3,
            statement_unique_nodes: sums.4,
            value_unique_nodes: sums.5,
            dependency_edges: edges.0,
            dependency_occurrences: edges.1,
            internal_dependency_edges: edges.2,
            by_kind: tallies.0,
            by_module: tallies.1,
            statement_sizes: sizes.0,
            value_sizes: sizes.1,
        }
    }
}

} // verus!
