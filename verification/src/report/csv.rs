//! CSV exports.
use vstd::prelude::*;
use crate::analysis::corpus::{edge_selected, matching_declaration_ids, selected_edge_ids, AnalysisCorpus, DependencyEdge};
use crate::analysis::filters::{AnalysisFilter, DependencyLayer};
use crate::analysis::modules::module_table;
use crate::analysis::structure::{RepeatedSubexpression, StructuralMatch, StructureLocation};
use crate::model::{declaration_hidden, join, join_texts, DeclarationSnapshot, ExprStats, ExpressionGraph, ExtractionSnapshot};
use crate::analysis::metrics::{constant_names, layer_counts, ExpressionCounts};
use crate::report::{bool_string, bool_text, concat, concat_texts, layer_debug, layer_string};
use crate::strings::{chars_of, copy_text, decimal, decimal_text, opt_view, push_char, text_from, texts_view};

verus! {

/// Characters that make a cell need quotes.
pub open spec fn special(c: char) -> bool {
    c == ',' || c == '"' || c == '\n' || c == '\r'
}

/// The text holds a character that needs quoting.
pub open spec fn needs_quoting(s: Seq<char>) -> bool {
    exists|i: int| 0 <= i < s.len() && special(#[trigger] s[i])
}

/// The text with each double quote doubled.
pub open spec fn doubled_quotes(s: Seq<char>) -> Seq<char>
    decreases s.len(),
{
    if s.len() == 0 {
        Seq::empty()
    } else {
        doubled_quotes(s.drop_last()) + if s.last() == '"' { seq!['"', '"'] } else { seq![s.last()] }
    }
}

/// The CSV cell of a text: quoted, with doubled quotes, where it holds a
/// comma, quote or line break; as it is otherwise.
pub open spec fn cell_text(s: Seq<char>) -> Seq<char> {
    if needs_quoting(s) { seq!['"'] + doubled_quotes(s) + seq!['"'] } else { s }
}

/// The CSV cell of a text.
pub fn cell(value: &str) -> (r: String)
    ensures
        r@ == cell_text(value@),
{
    let chars = chars_of(value);
    let mut quoted = String::new();
    push_char(&mut quoted, '"');
    let mut special_seen = false;
    let mut i: usize = 0;
    while i < chars.len()
        invariant
            chars@ == value@,
            i <= chars@.len(),
            quoted@ == seq!['"'] + doubled_quotes(chars@.take(i as int)),
            special_seen == exists|j: int| 0 <= j < i && special(#[trigger] chars@[j]),
        decreases chars@.len() - i,
    {
        let c = chars[i];
        proof {
            assert(chars@.take(i + 1).drop_last() == chars@.take(i as int));
            assert(chars@.take(i + 1).last() == c);
        }
        if c == '"' {
            push_char(&mut quoted, '"');
            push_char(&mut quoted, '"');
        } else {
            push_char(&mut quoted, c);
        }
        if c == ',' || c == '"' || c == '\n' || c == '\r' {
            special_seen = true;
        }
        proof {
            assert(quoted@ =~= seq!['"'] + doubled_quotes(chars@.take(i + 1)));
            if !special_seen {
                assert(!(exists|j: int| 0 <= j < i + 1 && special(#[trigger] chars@[j]))) by {
                    if exists|j: int| 0 <= j < i + 1 && special(#[trigger] chars@[j]) {
                        let j = choose|j: int| 0 <= j < i + 1 && special(#[trigger] chars@[j]);
                    }
                }
            }
        }
        i = i + 1;
    }
    proof {
        assert(chars@.take(i as int) == chars@);
    }
    if special_seen {
        push_char(&mut quoted, '"');
        quoted
    } else {
        text_from(value)
    }
}

/// The header of the node export.
pub open spec fn nodes_header() -> Seq<char> {
    "id,display_name,module,kind,generated,source_backed,statement_occurrences,value_occurrences\n"@
}

/// The row of one declaration.
pub open spec fn node_row(id: usize, d: DeclarationSnapshot) -> Seq<char> {
    concat(seq![
        decimal(id as nat), ","@, cell_text(d.name@), ","@,
        cell_text(match opt_view(&d.module_name) { Some(m) => m, None => ""@ }), ","@, cell_text(d.kind@), ","@,
        bool_text(d.generation_kind.is_some()), ","@, bool_text(d.source_range.is_some()), ","@, decimal(d.type_stats.nodes as nat), ","@,
        decimal(match d.value_stats { Some(st) => st.nodes as nat, None => 0nat }), "\n"@,
    ])
}

/// The node export: a header and a row per admitted declaration.
pub open spec fn nodes_csv(s: ExtractionSnapshot, f: AnalysisFilter) -> Seq<char> {
    concat(seq![nodes_header()] + matching_declaration_ids(s, f, s.declarations@.len() as int).map_values(
        |id: usize| node_row(id, s.declarations@[id as int])))
}

fn node_row_text(id: usize, d: &DeclarationSnapshot) -> (r: String)
    ensures
        r@ == node_row(id, *d),
{
    let mut p: Vec<String> = Vec::new();
    p.push(decimal_text(id));
    p.push(text_from(","));
    p.push(cell(d.name.as_str()));
    p.push(text_from(","));
    p.push(match &d.module_name {
        Some(m) => cell(m.as_str()),
        None => cell(""),
    });
    p.push(text_from(","));
    p.push(cell(d.kind.as_str()));
    p.push(text_from(","));
    p.push(bool_string(d.is_generated()));
    p.push(text_from(","));
    p.push(bool_string(d.source_range.is_some()));
    p.push(text_from(","));
    p.push(decimal_text(d.type_stats.nodes));
    p.push(text_from(","));
    p.push(decimal_text(match &d.value_stats {
        Some(st) => st.nodes,
        None => 0,
    }));
    p.push(text_from("\n"));
    let r = concat_texts(&p);
    proof {
        assert(texts_view(p@) =~= seq![
            decimal(id as nat), ","@, cell_text(d.name@), ","@,
            cell_text(match opt_view(&d.module_name) { Some(m) => m, None => ""@ }), ","@, cell_text(d.kind@), ","@,
            bool_text(d.generation_kind.is_some()), ","@, bool_text(d.source_range.is_some()), ","@, decimal(d.type_stats.nodes as nat), ","@,
            decimal(match d.value_stats { Some(st) => st.nodes as nat, None => 0nat }), "\n"@,
        ]);
    }
    r
}

/// The node export.
pub fn nodes(corpus: &AnalysisCorpus, filter: &AnalysisFilter) -> (r: String)
    ensures
        r@ == nodes_csv(corpus.snapshot_view(), *filter),
{
    let ghost s = corpus.snapshot_view();
    let ids = corpus.filtered_declaration_ids(filter);
    let declarations = corpus.declarations();
    let n = declarations.len();
    proof {
        crate::analysis::dependency::lemma_matching_ids(s, *filter, n as int);
    }
    let mut lines: Vec<String> = Vec::new();
    lines.push(text_from("id,display_name,module,kind,generated,source_backed,statement_occurrences,value_occurrences\n"));
    let mut i: usize = 0;
    while i < ids.len()
        invariant
            declarations@ == s.declarations@,
            ids@ == matching_declaration_ids(s, *filter, s.declarations@.len() as int),
            forall|j: int| 0 <= j < ids@.len() ==> #[trigger] ids@[j] < s.declarations@.len(),
            i <= ids@.len(),
            lines@.len() == i + 1,
            lines@[0]@ == nodes_header(),
            forall|j: int| 0 <= j < i ==> (#[trigger] lines@[j + 1])@ == node_row(ids@[j], s.declarations@[ids@[j] as int]),
        decreases ids@.len() - i,
    {
        lines.push(node_row_text(ids[i], &declarations[ids[i]]));
        i = i + 1;
    }
    let r = concat_texts(&lines);
    proof {
        let want = seq![nodes_header()] + ids@.map_values(|id: usize| node_row(id, s.declarations@[id as int]));
        assert forall|j: int| 0 <= j < want.len() implies texts_view(lines@)[j] == want[j] by {
            if j >= 1 {
                assert(lines@[(j - 1) + 1]@ == node_row(ids@[j - 1], s.declarations@[ids@[j - 1] as int]));
            }
        }
        assert(texts_view(lines@) =~= want);
    }
    r
}

/// The header of the metrics export.
pub open spec fn metrics_header() -> Seq<char> {
    "name,module,kind,generated,source_backed,has_documentation,axiom_count,statement_occurrences,statement_unique_nodes,statement_depth,statement_dependencies,value_occurrences,value_unique_nodes,value_depth,value_dependencies\n"@
}

/// The four measures of an expression, in export order.
pub open spec fn measure_cells(g: ExpressionGraph, stats: ExprStats) -> Seq<Seq<char>> {
    seq![decimal(stats.nodes as nat), ","@, decimal(g.nodes@.len()), ","@, decimal(stats.max_depth as nat), ","@,
        decimal(constant_names(g).len())]
}

/// The measures of a declaration's value, zeros without one.
pub open spec fn value_cells(d: DeclarationSnapshot) -> Seq<Seq<char>> {
    match (d.value_graph, d.value_stats) {
        (Some(g), Some(stats)) => measure_cells(g, stats),
        _ => seq!["0"@, ","@, "0"@, ","@, "0"@, ","@, "0"@],
    }
}

/// The metrics row of one declaration.
pub open spec fn metric_row(d: DeclarationSnapshot) -> Seq<char> {
    concat(seq![
        cell_text(d.name@), ","@, cell_text(match opt_view(&d.module_name) { Some(m) => m, None => ""@ }), ","@,
        cell_text(d.kind@), ","@, bool_text(declaration_hidden(d)), ","@, bool_text(d.source_range.is_some()), ","@,
        bool_text(d.doc_string.is_some()), ","@, decimal(d.axioms@.len()), ","@,
    ] + measure_cells(d.type_graph, d.type_stats) + seq![","@] + value_cells(d) + seq!["\n"@])
}

/// The metrics export: a header and a row per admitted declaration.
pub open spec fn metrics_csv(s: ExtractionSnapshot, f: AnalysisFilter) -> Seq<char> {
    concat(seq![metrics_header()] + matching_declaration_ids(s, f, s.declarations@.len() as int).map_values(
        |id: usize| metric_row(s.declarations@[id as int])))
}

fn measure_texts(p: &mut Vec<String>, c: ExpressionCounts)
    ensures
        texts_view(final(p)@) == texts_view(old(p)@) + seq![decimal(c.total_occurrences as nat), ","@, decimal(c.unique_nodes as nat),
            ","@, decimal(c.maximum_depth as nat), ","@, decimal(c.direct_dependencies as nat)],
{
    let ghost start = texts_view(p@);
    p.push(decimal_text(c.total_occurrences));
    p.push(text_from(","));
    p.push(decimal_text(c.unique_nodes));
    p.push(text_from(","));
    p.push(decimal_text(c.maximum_depth));
    p.push(text_from(","));
    p.push(decimal_text(c.direct_dependencies));
    proof {
        assert(texts_view(p@) =~= start + seq![decimal(c.total_occurrences as nat), ","@, decimal(c.unique_nodes as nat),
            ","@, decimal(c.maximum_depth as nat), ","@, decimal(c.direct_dependencies as nat)]);
    }
}

fn metric_row_text(d: &DeclarationSnapshot, statement: ExpressionCounts, value: Option<ExpressionCounts>) -> (r: String)
    requires
        layer_counts(*d, DependencyLayer::Statement, Some(statement)),
        layer_counts(*d, DependencyLayer::Proof, value),
    ensures
        r@ == metric_row(*d),
{
    let mut p: Vec<String> = Vec::new();
    p.push(cell(d.name.as_str()));
    p.push(text_from(","));
    p.push(match &d.module_name {
        Some(m) => cell(m.as_str()),
        None => cell(""),
    });
    p.push(text_from(","));
    p.push(cell(d.kind.as_str()));
    p.push(text_from(","));
    p.push(bool_string(d.is_hidden_by_default()));
    p.push(text_from(","));
    p.push(bool_string(d.source_range.is_some()));
    p.push(text_from(","));
    p.push(bool_string(d.doc_string.is_some()));
    p.push(text_from(","));
    p.push(decimal_text(d.axioms.len()));
    p.push(text_from(","));
    let ghost head = texts_view(p@);
    proof {
        assert(head =~= seq![
            cell_text(d.name@), ","@, cell_text(match opt_view(&d.module_name) { Some(m) => m, None => ""@ }), ","@,
            cell_text(d.kind@), ","@, bool_text(declaration_hidden(*d)), ","@, bool_text(d.source_range.is_some()), ","@,
            bool_text(d.doc_string.is_some()), ","@, decimal(d.axioms@.len()), ","@,
        ]);
    }
    measure_texts(&mut p, statement);
    proof {
        assert(texts_view(p@) =~= head + measure_cells(d.type_graph, d.type_stats));
    }
    p.push(text_from(","));
    let ghost mid = texts_view(p@);
    proof {
        assert(mid =~= head + measure_cells(d.type_graph, d.type_stats) + seq![","@]);
    }
    match value {
        Some(c) => {
            measure_texts(&mut p, c);
        },
        None => {
            p.push(text_from("0"));
            p.push(text_from(","));
            p.push(text_from("0"));
            p.push(text_from(","));
            p.push(text_from("0"));
            p.push(text_from(","));
            p.push(text_from("0"));
        },
    }
    proof {
        assert(texts_view(p@) =~= mid + value_cells(*d));
    }
    p.push(text_from("\n"));
    let r = concat_texts(&p);
    proof {
        let want = seq![
            cell_text(d.name@), ","@, cell_text(match opt_view(&d.module_name) { Some(m) => m, None => ""@ }), ","@,
            cell_text(d.kind@), ","@, bool_text(declaration_hidden(*d)), ","@, bool_text(d.source_range.is_some()), ","@,
            bool_text(d.doc_string.is_some()), ","@, decimal(d.axioms@.len()), ","@,
        ] + measure_cells(d.type_graph, d.type_stats) + seq![","@] + value_cells(*d) + seq!["\n"@];
        assert(texts_view(p@) =~= want);
    }
    r
}

/// The metrics export.
pub fn metrics(corpus: &AnalysisCorpus, filter: &AnalysisFilter) -> (r: String)
    ensures
        r@ == metrics_csv(corpus.snapshot_view(), *filter),
{
    let ghost s = corpus.snapshot_view();
    let ids = corpus.filtered_declaration_ids(filter);
    let declarations = corpus.declarations();
    let n = declarations.len();
    proof {
        crate::analysis::dependency::lemma_matching_ids(s, *filter, n as int);
    }
    let mut lines: Vec<String> = Vec::new();
    lines.push(text_from("name,module,kind,generated,source_backed,has_documentation,axiom_count,statement_occurrences,statement_unique_nodes,statement_depth,statement_dependencies,value_occurrences,value_unique_nodes,value_depth,value_dependencies\n"));
    let mut i: usize = 0;
    while i < ids.len()
        invariant
            s == corpus.snapshot_view(),
            declarations@ == s.declarations@,
            ids@ == matching_declaration_ids(s, *filter, s.declarations@.len() as int),
            forall|j: int| 0 <= j < ids@.len() ==> #[trigger] ids@[j] < s.declarations@.len(),
            i <= ids@.len(),
            lines@.len() == i + 1,
            lines@[0]@ == metrics_header(),
            forall|j: int| 0 <= j < i ==> (#[trigger] lines@[j + 1])@ == metric_row(s.declarations@[ids@[j] as int]),
        decreases ids@.len() - i,
    {
        let id = ids[i];
        let statement = match corpus.expression_counts(id, DependencyLayer::Statement) {
            Some(c) => c,
            None => ExpressionCounts { total_occurrences: 0, unique_nodes: 0, maximum_depth: 0, direct_dependencies: 0 },
        };
        let value = corpus.expression_counts(id, DependencyLayer::Proof);
        lines.push(metric_row_text(&declarations[id], statement, value));
        i = i + 1;
    }
    let r = concat_texts(&lines);
    proof {
        let want = seq![metrics_header()] + ids@.map_values(|id: usize| metric_row(s.declarations@[id as int]));
        assert forall|j: int| 0 <= j < want.len() implies texts_view(lines@)[j] == want[j] by {
            if j >= 1 {
                assert(lines@[(j - 1) + 1]@ == metric_row(s.declarations@[ids@[j - 1] as int]));
            }
        }
        assert(texts_view(lines@) =~= want);
    }
    r
}

/// The header of the edge export.
pub open spec fn edges_header() -> Seq<char> {
    "source,target,layer,weight,target_in_corpus,source_module,target_module,target_kind,is_class,is_instance,is_projection\n"@
}

/// The row of one edge.
pub open spec fn edge_row(s: ExtractionSnapshot, e: DependencyEdge) -> Seq<char> {
    concat(seq![
        cell_text(s.declarations@[e.source as int].name@), ","@, cell_text(e.target@), ","@, layer_debug(e.layer), ","@,
        decimal(e.occurrences as nat), ","@, bool_text(e.target_in_corpus), ","@,
        cell_text(match opt_view(&e.source_module) { Some(m) => m, None => ""@ }), ","@,
        cell_text(match opt_view(&e.target_module) { Some(m) => m, None => ""@ }), ","@, cell_text(e.target_kind@), ","@,
        bool_text(e.target_is_class), ","@, bool_text(e.target_is_instance), ","@, bool_text(e.target_is_projection), "\n"@,
    ])
}

/// The edge export: a header and a row per admitted edge.
pub open spec fn edges_csv(s: ExtractionSnapshot, edges: Seq<DependencyEdge>, f: AnalysisFilter) -> Seq<char> {
    concat(seq![edges_header()] + selected_edge_ids(s, f, edges, edges.len() as int).map_values(|k: usize| edge_row(s, edges[k as int])))
}

/// The edge export.
pub fn edges(corpus: &AnalysisCorpus, filter: &AnalysisFilter) -> (r: String)
    ensures
        r@ == edges_csv(corpus.snapshot_view(), corpus.edges_view(), *filter),
{
    let ghost s = corpus.snapshot_view();
    let ghost all = corpus.edges_view();
    let ghost ids = selected_edge_ids(s, *filter, all, all.len() as int);
    let selected = corpus.filtered_edges(filter);
    let declarations = corpus.declarations();
    let total = corpus.edges().len();
    let mut lines: Vec<String> = Vec::new();
    lines.push(text_from("source,target,layer,weight,target_in_corpus,source_module,target_module,target_kind,is_class,is_instance,is_projection\n"));
    let mut i: usize = 0;
    proof {
        use_type_invariant(corpus);
        lemma_selected_ids_bound(s, *filter, all, all.len() as int);
    }
    while i < selected.len()
        invariant
            declarations@ == s.declarations@,
            crate::analysis::corpus::edges_describe(s, all),
            selected@.len() == ids.len(),
            forall|j: int| 0 <= j < selected@.len() ==> *(#[trigger] selected@[j]) == all[ids[j] as int],
            forall|j: int| 0 <= j < ids.len() ==> #[trigger] ids[j] < all.len(),
            i <= selected@.len(),
            lines@.len() == i + 1,
            lines@[0]@ == edges_header(),
            forall|j: int| 0 <= j < i ==> (#[trigger] lines@[j + 1])@ == edge_row(s, all[ids[j] as int]),
        decreases selected@.len() - i,
    {
        let e = selected[i];
        proof {
            assert(crate::analysis::corpus::edge_describes(s, *e));
        }
        let mut p: Vec<String> = Vec::new();
        p.push(cell(declarations[e.source].name.as_str()));
        p.push(text_from(","));
        p.push(cell(e.target.as_str()));
        p.push(text_from(","));
        p.push(layer_string(e.layer));
        p.push(text_from(","));
        p.push(decimal_text(e.occurrences));
        p.push(text_from(","));
        p.push(bool_string(e.target_in_corpus));
        p.push(text_from(","));
        p.push(match &e.source_module {
            Some(m) => cell(m.as_str()),
            None => cell(""),
        });
        p.push(text_from(","));
        p.push(match &e.target_module {
            Some(m) => cell(m.as_str()),
            None => cell(""),
        });
        p.push(text_from(","));
        p.push(cell(e.target_kind.as_str()));
        p.push(text_from(","));
        p.push(bool_string(e.target_is_class));
        p.push(text_from(","));
        p.push(bool_string(e.target_is_instance));
        p.push(text_from(","));
        p.push(bool_string(e.target_is_projection));
        p.push(text_from("\n"));
        let line = concat_texts(&p);
        proof {
            assert(texts_view(p@) =~= seq![
                cell_text(s.declarations@[e.source as int].name@), ","@, cell_text(e.target@), ","@, layer_debug(e.layer), ","@,
                decimal(e.occurrences as nat), ","@, bool_text(e.target_in_corpus), ","@,
                cell_text(match opt_view(&e.source_module) { Some(m) => m, None => ""@ }), ","@,
                cell_text(match opt_view(&e.target_module) { Some(m) => m, None => ""@ }), ","@, cell_text(e.target_kind@), ","@,
                bool_text(e.target_is_class), ","@, bool_text(e.target_is_instance), ","@, bool_text(e.target_is_projection), "\n"@,
            ]);
        }
        lines.push(line);
        i = i + 1;
    }
    let r = concat_texts(&lines);
    proof {
        let want = seq![edges_header()] + ids.map_values(|k: usize| edge_row(s, all[k as int]));
        assert forall|j: int| 0 <= j < want.len() implies texts_view(lines@)[j] == want[j] by {
            if j >= 1 {
                assert(lines@[(j - 1) + 1]@ == edge_row(s, all[ids[j - 1] as int]));
            }
        }
        assert(texts_view(lines@) =~= want);
    }
    r
}

proof fn lemma_selected_ids_bound(s: ExtractionSnapshot, f: AnalysisFilter, edges: Seq<DependencyEdge>, n: int)
    requires
        n <= edges.len(),
        edges.len() <= usize::MAX,
    ensures
        forall|j: int| 0 <= j < selected_edge_ids(s, f, edges, n).len() ==> #[trigger] selected_edge_ids(s, f, edges, n)[j] < edges.len(),
    decreases n,
{
    if n > 0 {
        lemma_selected_ids_bound(s, f, edges, n - 1);
        let prev = selected_edge_ids(s, f, edges, n - 1);
        if edge_selected(s, f, edges[n - 1]) {
            assert(selected_edge_ids(s, f, edges, n) == prev.push((n - 1) as usize));
        }
    }
}

/// The row of one module pair.
pub open spec fn module_row(e: ((String, String, DependencyLayer), usize)) -> Seq<char> {
    concat(seq![cell_text(e.0.0@), ","@, cell_text(e.0.1@), ","@, layer_debug(e.0.2), ","@, decimal(e.1 as nat), "\n"@])
}

/// The module export: a header and a row per entry of the module table.
pub open spec fn modules_csv(table: Seq<((String, String, DependencyLayer), usize)>) -> Seq<char> {
    concat(seq!["source_module,target_module,layer,weight\n"@] + table.map_values(|e: ((String, String, DependencyLayer), usize)| module_row(e)))
}

/// The module export.
pub fn modules(corpus: &AnalysisCorpus, filter: &AnalysisFilter) -> (r: String)
    ensures
        exists|table: Seq<((String, String, DependencyLayer), usize)>|
            module_table(corpus.snapshot_view(), corpus.edges_view(), *filter, table, corpus.edges_view().len() as int)
            && #[trigger] modules_csv(table) == r@,
{
    let table = corpus.module_dependency_occurrences(filter);
    let mut lines: Vec<String> = Vec::new();
    lines.push(text_from("source_module,target_module,layer,weight\n"));
    let mut i: usize = 0;
    while i < table.len()
        invariant
            i <= table@.len(),
            lines@.len() == i + 1,
            lines@[0]@ == "source_module,target_module,layer,weight\n"@,
            forall|j: int| 0 <= j < i ==> (#[trigger] lines@[j + 1])@ == module_row(table@[j]),
        decreases table@.len() - i,
    {
        let e = &table[i];
        let mut p: Vec<String> = Vec::new();
        p.push(cell(e.0.0.as_str()));
        p.push(text_from(","));
        p.push(cell(e.0.1.as_str()));
        p.push(text_from(","));
        p.push(layer_string(e.0.2));
        p.push(text_from(","));
        p.push(decimal_text(e.1));
        p.push(text_from("\n"));
        let line = concat_texts(&p);
        proof {
            assert(texts_view(p@) =~= seq![cell_text(e.0.0@), ","@, cell_text(e.0.1@), ","@, layer_debug(e.0.2), ","@, decimal(e.1 as nat), "\n"@]);
        }
        lines.push(line);
        i = i + 1;
    }
    let r = concat_texts(&lines);
    proof {
        let want = seq!["source_module,target_module,layer,weight\n"@] + table@.map_values(|e: ((String, String, DependencyLayer), usize)| module_row(e));
        assert forall|j: int| 0 <= j < want.len() implies texts_view(lines@)[j] == want[j] by {
            if j >= 1 {
                assert(lines@[(j - 1) + 1]@ == module_row(table@[j - 1]));
            }
        }
        assert(texts_view(lines@) =~= want);
        assert(modules_csv(table@) == r@);
    }
    r
}

/// The row of one duplicate group.
pub open spec fn match_row(m: StructuralMatch) -> Seq<char> {
    concat(seq![
        m.fingerprint@, ","@, decimal(m.expression_size as nat), ","@, decimal(m.expression_depth as nat), ","@,
        decimal(m.total_occurrences as nat), ","@, cell_text(join(texts_view(m.declarations@), ";"@)), "\n"@,
    ])
}

/// The duplicate export: a header and a row per group.
pub open spec fn matches_csv(ms: Seq<StructuralMatch>) -> Seq<char> {
    concat(seq!["fingerprint,expression_size,expression_depth,total_occurrences,declarations\n"@]
        + ms.map_values(|m: StructuralMatch| match_row(m)))
}

/// The duplicate export.
pub fn structural_matches(matches: &[StructuralMatch]) -> (r: String)
    ensures
        r@ == matches_csv(matches@),
{
    let mut lines: Vec<String> = Vec::new();
    lines.push(text_from("fingerprint,expression_size,expression_depth,total_occurrences,declarations\n"));
    let mut i: usize = 0;
    while i < matches.len()
        invariant
            i <= matches@.len(),
            lines@.len() == i + 1,
            lines@[0]@ == "fingerprint,expression_size,expression_depth,total_occurrences,declarations\n"@,
            forall|j: int| 0 <= j < i ==> (#[trigger] lines@[j + 1])@ == match_row(matches@[j]),
        decreases matches@.len() - i,
    {
        let m = &matches[i];
        let joined = join_texts(&m.declarations, ";");
        let mut p: Vec<String> = Vec::new();
        p.push(copy_text(&m.fingerprint));
        p.push(text_from(","));
        p.push(decimal_text(m.expression_size));
        p.push(text_from(","));
        p.push(decimal_text(m.expression_depth));
        p.push(text_from(","));
        p.push(decimal_text(m.total_occurrences));
        p.push(text_from(","));
        p.push(cell(joined.as_str()));
        p.push(text_from("\n"));
        let line = concat_texts(&p);
        proof {
            assert(texts_view(p@) =~= seq![
                m.fingerprint@, ","@, decimal(m.expression_size as nat), ","@, decimal(m.expression_depth as nat), ","@,
                decimal(m.total_occurrences as nat), ","@, cell_text(join(texts_view(m.declarations@), ";"@)), "\n"@,
            ]);
        }
        lines.push(line);
        i = i + 1;
    }
    let r = concat_texts(&lines);
    proof {
        let want = seq!["fingerprint,expression_size,expression_depth,total_occurrences,declarations\n"@]
            + matches@.map_values(|m: StructuralMatch| match_row(m));
        assert forall|j: int| 0 <= j < want.len() implies texts_view(lines@)[j] == want[j] by {
            if j >= 1 {
                assert(lines@[(j - 1) + 1]@ == match_row(matches@[j - 1]));
            }
        }
        assert(texts_view(lines@) =~= want);
    }
    r
}

/// The row of one location of a repeated subexpression.
pub open spec fn occurrence_row(x: RepeatedSubexpression, l: StructureLocation) -> Seq<char> {
    concat(seq![
        x.fingerprint@, ","@, decimal(x.expression_size as nat), ","@, decimal(x.expression_depth as nat), ","@,
        decimal(x.unique_declarations as nat), ","@, decimal(x.total_occurrences as nat), ","@, cell_text(l.declaration@), ","@,
        layer_debug(l.layer), ","@, decimal(l.node as nat), ","@, decimal(l.occurrences as nat), "\n"@,
    ])
}

/// The rows of one repeated subexpression, one per location.
pub open spec fn occurrence_rows(x: RepeatedSubexpression) -> Seq<char> {
    concat(x.locations@.map_values(|l: StructureLocation| occurrence_row(x, l)))
}

/// The repeated subexpression export: a header and a row per location.
pub open spec fn occurrences_csv(xs: Seq<RepeatedSubexpression>) -> Seq<char> {
    concat(seq!["fingerprint,expression_size,expression_depth,unique_declarations,total_occurrences,declaration,layer,node,location_occurrences\n"@]
        + xs.map_values(|x: RepeatedSubexpression| occurrence_rows(x)))
}

fn occurrence_rows_text(x: &RepeatedSubexpression) -> (r: String)
    ensures
        r@ == occurrence_rows(*x),
{
    let mut lines: Vec<String> = Vec::new();
    let mut i: usize = 0;
    while i < x.locations.len()
        invariant
            i <= x.locations@.len(),
            lines@.len() == i,
            forall|j: int| 0 <= j < i ==> (#[trigger] lines@[j])@ == occurrence_row(*x, x.locations@[j]),
        decreases x.locations@.len() - i,
    {
        let l = &x.locations[i];
        let mut p: Vec<String> = Vec::new();
        p.push(copy_text(&x.fingerprint));
        p.push(text_from(","));
        p.push(decimal_text(x.expression_size));
        p.push(text_from(","));
        p.push(decimal_text(x.expression_depth));
        p.push(text_from(","));
        p.push(decimal_text(x.unique_declarations));
        p.push(text_from(","));
        p.push(decimal_text(x.total_occurrences));
        p.push(text_from(","));
        p.push(cell(l.declaration.as_str()));
        p.push(text_from(","));
        p.push(layer_string(l.layer));
        p.push(text_from(","));
        p.push(decimal_text(l.node));
        p.push(text_from(","));
        p.push(decimal_text(l.occurrences));
        p.push(text_from("\n"));
        let line = concat_texts(&p);
        proof {
            assert(texts_view(p@) =~= seq![
                x.fingerprint@, ","@, decimal(x.expression_size as nat), ","@, decimal(x.expression_depth as nat), ","@,
                decimal(x.unique_declarations as nat), ","@, decimal(x.total_occurrences as nat), ","@, cell_text(l.declaration@), ","@,
                layer_debug(l.layer), ","@, decimal(l.node as nat), ","@, decimal(l.occurrences as nat), "\n"@,
            ]);
        }
        lines.push(line);
        i = i + 1;
    }
    let r = concat_texts(&lines);
    proof {
        assert(texts_view(lines@) =~= x.locations@.map_values(|l: StructureLocation| occurrence_row(*x, l)));
    }
    r
}

/// The repeated subexpression export.
pub fn repeated_occurrences(repeated: &[RepeatedSubexpression]) -> (r: String)
    ensures
        r@ == occurrences_csv(repeated@),
{
    let mut lines: Vec<String> = Vec::new();
    lines.push(text_from("fingerprint,expression_size,expression_depth,unique_declarations,total_occurrences,declaration,layer,node,location_occurrences\n"));
    let mut i: usize = 0;
    while i < repeated.len()
        invariant
            i <= repeated@.len(),
            lines@.len() == i + 1,
            lines@[0]@ == "fingerprint,expression_size,expression_depth,unique_declarations,total_occurrences,declaration,layer,node,location_occurrences\n"@,
            forall|j: int| 0 <= j < i ==> (#[trigger] lines@[j + 1])@ == occurrence_rows(repeated@[j]),
        decreases repeated@.len() - i,
    {
        lines.push(occurrence_rows_text(&repeated[i]));
        i = i + 1;
    }
    let r = concat_texts(&lines);
    proof {
        let want = seq!["fingerprint,expression_size,expression_depth,unique_declarations,total_occurrences,declaration,layer,node,location_occurrences\n"@]
            + repeated@.map_values(|x: RepeatedSubexpression| occurrence_rows(x));
        assert forall|j: int| 0 <= j < want.len() implies texts_view(lines@)[j] == want[j] by {
            if j >= 1 {
                assert(lines@[(j - 1) + 1]@ == occurrence_rows(repeated@[j - 1]));
            }
        }
        assert(texts_view(lines@) =~= want);
    }
    r
}

} // verus!
