//! The analysis corpus: a validated snapshot with its typed dependency edges,
//! forward and reverse edge indexes and occurrence multiplicities.
use vstd::prelude::*;
use crate::analysis::filters::{
    all_filter_spec, filter_matches_declaration, filter_matches_symbol, layer_rank, selection_includes,
    AnalysisFilter, DependencyLayer,
};
use crate::error::SieveError;
use crate::hashing::NameIndex;
use crate::model::{DeclarationSnapshot, ExpressionGraph, ExtractionSnapshot, SymbolSnapshot};
use crate::strings::{copy_opt_text, copy_text, opt_view, text_from, text_lt, texts_view};
use crate::tally::{count_of, lemma_count_of_entry, tally_has, tally_sorted};
use crate::validation::{
    constant_count, declaration_valid, expression_consistent, graph_valid, has_constant,
    lemma_total_bounds_multiplicities, multiplicities_fit, paths_to, snapshot_valid, symbol_known, total_occurrences,
    validate_snapshot,
};

verus! {

/// One typed dependency: declaration `source` refers to the symbol `target`
/// `occurrences` times (counted over the expression tree) in one layer.
#[derive(Clone, Debug)]
pub struct DependencyEdge {
    pub source: usize,
    pub target: String,
    pub layer: DependencyLayer,
    pub occurrences: usize,
    pub target_in_corpus: bool,
    pub source_module: Option<String>,
    pub target_module: Option<String>,
    pub target_kind: String,
    pub target_is_class: bool,
    pub target_is_instance: bool,
    pub target_is_projection: bool,
}

/// The expression a declaration has in a layer: its type for the statement,
/// its value for the proof.
pub open spec fn layer_graph(d: DeclarationSnapshot, layer: DependencyLayer) -> Option<ExpressionGraph> {
    match layer {
        DependencyLayer::Statement => Some(d.type_graph),
        DependencyLayer::Proof => d.value_graph,
    }
}

/// The declaration's expression in the layer refers to the constant `n`.
pub open spec fn layer_has_constant(d: DeclarationSnapshot, layer: DependencyLayer, n: Seq<char>) -> bool {
    match layer_graph(d, layer) {
        Some(g) => has_constant(g, n),
        None => false,
    }
}

/// Occurrences of the constant `n` in the declaration's expression in the layer.
pub open spec fn layer_constant_count(d: DeclarationSnapshot, layer: DependencyLayer, n: Seq<char>) -> nat {
    match layer_graph(d, layer) {
        Some(g) => constant_count(g, n, g.nodes@.len() as int),
        None => 0,
    }
}

/// The corpus defines a declaration called `name`.
pub open spec fn declaration_known(s: ExtractionSnapshot, name: Seq<char>) -> bool {
    exists|i: int| 0 <= i < s.declarations@.len() && #[trigger] s.declarations@[i].name@ == name
}

/// The edge's target metadata is that of the symbol.
pub open spec fn edge_matches_symbol_metadata(e: DependencyEdge, sym: SymbolSnapshot) -> bool {
    &&& sym.name@ == e.target@
    &&& opt_view(&e.target_module) == opt_view(&sym.module_name)
    &&& e.target_kind@ == sym.kind@
    &&& e.target_is_class == sym.is_class
    &&& e.target_is_instance == sym.is_instance
    &&& e.target_is_projection == sym.is_projection
}

/// The edge records a constant of its source's expression in its layer, with
/// the constant's occurrence count and the metadata of source and target.
pub open spec fn edge_describes(s: ExtractionSnapshot, e: DependencyEdge) -> bool {
    &&& e.source < s.declarations@.len()
    &&& layer_has_constant(s.declarations@[e.source as int], e.layer, e.target@)
    &&& e.occurrences == layer_constant_count(s.declarations@[e.source as int], e.layer, e.target@)
    &&& e.target_in_corpus == declaration_known(s, e.target@)
    &&& opt_view(&e.source_module) == opt_view(&s.declarations@[e.source as int].module_name)
    &&& exists|y: int| 0 <= y < s.symbols@.len() && edge_matches_symbol_metadata(e, #[trigger] s.symbols@[y])
}

/// Edges are ordered by source, then layer (statement first), then target name.
pub open spec fn edge_key_lt(a: DependencyEdge, b: DependencyEdge) -> bool {
    a.source < b.source || (a.source == b.source && (layer_rank(a.layer) < layer_rank(b.layer)
        || (a.layer == b.layer && text_lt(a.target@, b.target@))))
}

/// `edges` is exactly the set of (declaration, layer, constant) dependencies
/// of the snapshot, each once, in key order.
pub open spec fn edges_describe(s: ExtractionSnapshot, edges: Seq<DependencyEdge>) -> bool {
    &&& forall|k: int| 0 <= k < edges.len() ==> edge_describes(s, #[trigger] edges[k])
    &&& forall|i: int, j: int| 0 <= i < j < edges.len() ==> edge_key_lt(#[trigger] edges[i], #[trigger] edges[j])
    &&& forall|d: int, layer: DependencyLayer, n: Seq<char>|
        0 <= d < s.declarations@.len() && #[trigger] layer_has_constant(s.declarations@[d], layer, n) ==> exists|k: int|
            0 <= k < edges.len() && (#[trigger] edges[k]).source == d && edges[k].layer == layer && edges[k].target@ == n
}

/// Every constant of every expression occurs at least once in its tree.
pub open spec fn constants_reachable(s: ExtractionSnapshot) -> bool {
    forall|d: int, layer: DependencyLayer, n: Seq<char>|
        0 <= d < s.declarations@.len() && #[trigger] layer_has_constant(s.declarations@[d], layer, n)
            ==> layer_constant_count(s.declarations@[d], layer, n) > 0
}

/// `ids` strictly increase.
pub open spec fn increasing(ids: Seq<usize>) -> bool {
    forall|i: int, j: int| 0 <= i < j < ids.len() ==> #[trigger] ids[i] < #[trigger] ids[j]
}

/// `out[s]` lists, in order, the edges whose source is `s`.
pub open spec fn outgoing_describes(edges: Seq<DependencyEdge>, out: Seq<Vec<usize>>, n: int) -> bool {
    &&& out.len() == n
    &&& forall|s: int| 0 <= s < n ==> increasing(#[trigger] out[s]@)
    &&& forall|s: int, j: int| 0 <= s < n && 0 <= j < out[s]@.len() ==> (#[trigger] out[s]@[j]) < edges.len()
        && edges[out[s]@[j] as int].source == s
    &&& forall|k: int| 0 <= k < edges.len() ==> edges[k].source < n && out[(#[trigger] edges[k]).source as int]@.contains(k as usize)
}

/// `inc[y]` lists, in order, the edges whose target is symbol `y`.
pub open spec fn incoming_describes(s: ExtractionSnapshot, edges: Seq<DependencyEdge>, inc: Seq<Vec<usize>>) -> bool {
    &&& inc.len() == s.symbols@.len()
    &&& forall|y: int| 0 <= y < inc.len() ==> increasing(#[trigger] inc[y]@)
    &&& forall|y: int, j: int| 0 <= y < inc.len() && 0 <= j < inc[y]@.len() ==> (#[trigger] inc[y]@[j]) < edges.len()
        && edges[inc[y]@[j] as int].target@ == s.symbols@[y].name@
    &&& forall|k: int, y: int| 0 <= k < edges.len() && 0 <= y < inc.len() && #[trigger] edges[k].target@
        == #[trigger] s.symbols@[y].name@ ==> inc[y]@.contains(k as usize)
}

/// The cached multiplicities are the occurrence counts of every node.
pub open spec fn multiplicities_of(g: ExpressionGraph, m: Seq<usize>) -> bool {
    m.len() == g.nodes@.len() && forall|x: int| 0 <= x < m.len() ==> #[trigger] m[x] == paths_to(g, x)
}

/// The characters of every declaration's name.
pub open spec fn declaration_name_seq(s: ExtractionSnapshot) -> Seq<Seq<char>> {
    s.declarations@.map_values(|d: DeclarationSnapshot| d.name@)
}

/// The characters of every symbol's name.
pub open spec fn symbol_name_seq(s: ExtractionSnapshot) -> Seq<Seq<char>> {
    s.symbols@.map_values(|d: SymbolSnapshot| d.name@)
}

/// A validated snapshot, indexed for analysis.
pub struct AnalysisCorpus {
    snapshot: ExtractionSnapshot,
    declaration_names: Vec<String>,
    declaration_index: NameIndex,
    symbol_names: Vec<String>,
    symbol_index: NameIndex,
    dependency_edges: Vec<DependencyEdge>,
    outgoing_edges: Vec<Vec<usize>>,
    incoming_edges: Vec<Vec<usize>>,
    statement_multiplicities: Vec<Vec<usize>>,
    proof_multiplicities: Vec<Option<Vec<usize>>>,
}

/// The names of a list of declarations.
fn names_of_declarations(s: &ExtractionSnapshot) -> (r: Vec<String>)
    ensures
        texts_view(r@) == declaration_name_seq(*s),
{
    let mut r: Vec<String> = Vec::new();
    let mut i: usize = 0;
    while i < s.declarations.len()
        invariant
            i <= s.declarations@.len(),
            r@.len() == i,
            forall|j: int| 0 <= j < i ==> #[trigger] r@[j]@ == s.declarations@[j].name@,
        decreases s.declarations@.len() - i,
    {
        r.push(copy_text(&s.declarations[i].name));
        i = i + 1;
    }
    assert(texts_view(r@) =~= declaration_name_seq(*s));
    r
}

/// The names of the symbol table.
fn names_of_symbols(s: &ExtractionSnapshot) -> (r: Vec<String>)
    ensures
        texts_view(r@) == symbol_name_seq(*s),
{
    let mut r: Vec<String> = Vec::new();
    let mut i: usize = 0;
    while i < s.symbols.len()
        invariant
            i <= s.symbols@.len(),
            r@.len() == i,
            forall|j: int| 0 <= j < i ==> #[trigger] r@[j]@ == s.symbols@[j].name@,
        decreases s.symbols@.len() - i,
    {
        r.push(copy_text(&s.symbols[i].name));
        i = i + 1;
    }
    assert(texts_view(r@) =~= symbol_name_seq(*s));
    r
}

/// The edges before the (source, layer) region in key order.
pub open spec fn edge_before(e: DependencyEdge, source: int, layer: DependencyLayer) -> bool {
    e.source < source || (e.source == source && layer_rank(e.layer) < layer_rank(layer))
}

/// What the edge construction has established so far.
pub open spec fn edges_built(
    s: ExtractionSnapshot,
    edges: Seq<DependencyEdge>,
    incoming: Seq<Vec<usize>>,
) -> bool {
    &&& forall|k: int| 0 <= k < edges.len() ==> edge_describes(s, #[trigger] edges[k])
    &&& forall|i: int, j: int| 0 <= i < j < edges.len() ==> edge_key_lt(#[trigger] edges[i], #[trigger] edges[j])
    &&& incoming_describes(s, edges, incoming)
}

/// Appends the edges of one layer of one declaration.
fn append_layer_edges(
    snapshot: &ExtractionSnapshot,
    decl_names: &Vec<String>,
    declaration_index: &NameIndex,
    sym_names: &Vec<String>,
    symbol_index: &NameIndex,
    source: usize,
    layer: DependencyLayer,
    graph: &ExpressionGraph,
    edges: &mut Vec<DependencyEdge>,
    out_list: &mut Vec<usize>,
    incoming: &mut Vec<Vec<usize>>,
)
    requires
        snapshot_valid(*snapshot),
        texts_view(decl_names@) == declaration_name_seq(*snapshot),
        declaration_index.indexes(texts_view(decl_names@)),
        texts_view(sym_names@) == symbol_name_seq(*snapshot),
        symbol_index.indexes(texts_view(sym_names@)),
        source < snapshot.declarations@.len(),
        layer_graph(snapshot.declarations@[source as int], layer) == Some(*graph),
        edges_built(*snapshot, old(edges)@, old(incoming)@),
        forall|k: int| 0 <= k < old(edges)@.len() ==> edge_before(#[trigger] old(edges)@[k], source as int, layer),
        increasing(old(out_list)@),
        forall|j: int| 0 <= j < old(out_list)@.len() ==> #[trigger] old(out_list)@[j] < old(edges)@.len()
            && old(edges)@[old(out_list)@[j] as int].source == source,
        forall|k: int| 0 <= k < old(edges)@.len() && (#[trigger] old(edges)@[k]).source == source ==> old(out_list)@.contains(k as usize),
    ensures
        edges_built(*snapshot, final(edges)@, final(incoming)@),
        final(edges)@.len() >= old(edges)@.len(),
        final(edges)@.subrange(0, old(edges)@.len() as int) == old(edges)@,
        forall|k: int| old(edges)@.len() <= k < final(edges)@.len() ==> (#[trigger] final(edges)@[k]).source == source
            && final(edges)@[k].layer == layer,
        forall|n: Seq<char>| #[trigger] has_constant(*graph, n) ==> exists|k: int|
            old(edges)@.len() <= k < final(edges)@.len() && (#[trigger] final(edges)@[k]).target@ == n,
        increasing(final(out_list)@),
        forall|j: int| 0 <= j < final(out_list)@.len() ==> #[trigger] final(out_list)@[j] < final(edges)@.len()
            && final(edges)@[final(out_list)@[j] as int].source == source,
        forall|k: int| 0 <= k < final(edges)@.len() && (#[trigger] final(edges)@[k]).source == source ==> final(out_list)@.contains(k as usize),
{
    let declaration = &snapshot.declarations[source];
    proof {
        assert(declaration_valid(*declaration));
        match layer {
            DependencyLayer::Statement => {},
            DependencyLayer::Proof => {},
        }
        assert(graph_valid(*graph) && total_occurrences(*graph) <= usize::MAX);
    }
    let occurrences = graph.constant_occurrences();
    let ghost old_edges = edges@;
    let ghost old_out = out_list@;
    let mut t: usize = 0;
    while t < occurrences.len()
        invariant
            snapshot_valid(*snapshot),
            texts_view(decl_names@) == declaration_name_seq(*snapshot),
            declaration_index.indexes(texts_view(decl_names@)),
            texts_view(sym_names@) == symbol_name_seq(*snapshot),
            symbol_index.indexes(texts_view(sym_names@)),
            source < snapshot.declarations@.len(),
            declaration == snapshot.declarations@[source as int],
            layer_graph(*declaration, layer) == Some(*graph),
            tally_sorted(occurrences@),
            forall|n: Seq<char>| #[trigger] tally_has(occurrences@, n) <==> has_constant(*graph, n),
            forall|n: Seq<char>| #[trigger] count_of(occurrences@, n) == constant_count(*graph, n, graph.nodes@.len() as int),
            t <= occurrences@.len(),
            edges_built(*snapshot, edges@, incoming@),
            edges@.len() == old_edges.len() + t,
            edges@.subrange(0, old_edges.len() as int) == old_edges,
            forall|k: int| 0 <= k < old_edges.len() ==> edge_before(#[trigger] old_edges[k], source as int, layer),
            forall|j: int| 0 <= j < t ==> (#[trigger] edges@[old_edges.len() + j]).source == source
                && edges@[old_edges.len() + j].layer == layer
                && edges@[old_edges.len() + j].target@ == occurrences@[j].0@,
            increasing(out_list@),
            forall|j: int| 0 <= j < out_list@.len() ==> #[trigger] out_list@[j] < edges@.len()
                && edges@[out_list@[j] as int].source == source,
            forall|k: int| 0 <= k < edges@.len() && (#[trigger] edges@[k]).source == source ==> out_list@.contains(k as usize),
        decreases occurrences@.len() - t,
    {
        let target = &occurrences[t].0;
        let count = occurrences[t].1;
        proof {
            lemma_count_of_entry(occurrences@, t as int);
            assert(tally_has(occurrences@, target@));
            assert(texts_view(sym_names@).len() == sym_names@.len());
            assert(symbol_name_seq(*snapshot).len() == snapshot.symbols@.len());
            assert(texts_view(decl_names@).len() == decl_names@.len());
            assert(declaration_name_seq(*snapshot).len() == snapshot.declarations@.len());
        }
        let symbol_id = match symbol_index.find(sym_names, target.as_str()) {
            Some(y) => y,
            None => {
                proof {
                    let d = source as int;
                    let n = target@;
                    let x = choose|x: int| 0 <= x < graph.nodes@.len() && #[trigger] crate::validation::names_constant(graph.nodes@[x], n);
                    match layer {
                        DependencyLayer::Statement => {
                            assert(texts_view(declaration.statement_dependencies@).contains(n));
                            let k = choose|k: int| 0 <= k < declaration.statement_dependencies@.len() && texts_view(declaration.statement_dependencies@)[k] == n;
                            assert(symbol_known(*snapshot, declaration.statement_dependencies@[k]@));
                        },
                        DependencyLayer::Proof => {
                            assert(texts_view(declaration.proof_dependencies@).contains(n));
                            let k = choose|k: int| 0 <= k < declaration.proof_dependencies@.len() && texts_view(declaration.proof_dependencies@)[k] == n;
                            assert(symbol_known(*snapshot, declaration.proof_dependencies@[k]@));
                        },
                    }
                    let y = choose|y: int| 0 <= y < snapshot.symbols@.len() && #[trigger] snapshot.symbols@[y].name@ == n;
                    assert(texts_view(sym_names@).len() == sym_names@.len());
                    assert(symbol_name_seq(*snapshot).len() == snapshot.symbols@.len());
                    assert(sym_names@[y]@ == texts_view(sym_names@)[y]);
                    assert(false);
                }
                0
            },
        };
        let symbol = &snapshot.symbols[symbol_id];
        proof {
            assert(sym_names@[symbol_id as int]@ == texts_view(sym_names@)[symbol_id as int]);
        }
        let in_corpus = declaration_index.find(decl_names, target.as_str()).is_some();
        proof {
            if in_corpus != declaration_known(*snapshot, target@) {
                if declaration_known(*snapshot, target@) {
                    let i = choose|i: int| 0 <= i < snapshot.declarations@.len() && #[trigger] snapshot.declarations@[i].name@ == target@;
                    assert(texts_view(decl_names@)[i] == declaration_name_seq(*snapshot)[i]);
                    assert(decl_names@[i]@ == target@);
                } else {
                    let i = choose|i: int| 0 <= i < decl_names@.len() && decl_names@[i]@ == target@;
                    assert(texts_view(decl_names@)[i] == declaration_name_seq(*snapshot)[i]);
                }
            }
        }
        let edge = DependencyEdge {
            source,
            target: copy_text(target),
            layer,
            occurrences: count,
            target_in_corpus: in_corpus,
            source_module: copy_opt_text(&declaration.module_name),
            target_module: copy_opt_text(&symbol.module_name),
            target_kind: copy_text(&symbol.kind),
            target_is_class: symbol.is_class,
            target_is_instance: symbol.is_instance,
            target_is_projection: symbol.is_projection,
        };
        let edge_id = edges.len();
        let ghost before_edges = edges@;
        let ghost before_incoming = incoming@;
        let ghost before_out = out_list@;
        proof {
            assert(edge_matches_symbol_metadata(edge, snapshot.symbols@[symbol_id as int]));
            assert(edge_describes(*snapshot, edge));
        }
        edges.push(edge);
        out_list.push(edge_id);
        incoming[symbol_id].push(edge_id);
        proof {
            let e = edges@[edge_id as int];
            assert(edges@ == before_edges.push(e));
            // ordering: every earlier edge precedes the new one
            assert forall|i: int, j: int| 0 <= i < j < edges@.len() implies edge_key_lt(#[trigger] edges@[i], #[trigger] edges@[j]) by {
                if j == edge_id as int {
                    if i < old_edges.len() {
                        assert(edges@[i] == old_edges[i]);
                        assert(edge_before(old_edges[i], source as int, layer));
                    } else {
                        let ji = i - old_edges.len();
                        assert(edges@[old_edges.len() + ji].target@ == occurrences@[ji].0@);
                        assert(text_lt(occurrences@[ji].0@, occurrences@[t as int].0@));
                    }
                } else {
                    assert(edges@[i] == before_edges[i] && edges@[j] == before_edges[j]);
                }
            }
            assert forall|k: int| 0 <= k < edges@.len() implies edge_describes(*snapshot, #[trigger] edges@[k]) by {
                if k < edge_id {
                    assert(edges@[k] == before_edges[k]);
                }
            }
            // the reverse index
            assert forall|y: int| 0 <= y < incoming@.len() implies increasing(#[trigger] incoming@[y]@) by {
                if y != symbol_id {
                    assert(incoming@[y] == before_incoming[y]);
                } else {
                    assert forall|i: int, j: int| 0 <= i < j < incoming@[y]@.len() implies #[trigger] incoming@[y]@[i] < #[trigger] incoming@[y]@[j] by {
                        if j == incoming@[y]@.len() - 1 {
                            assert(before_incoming[y]@[i] < before_edges.len());
                        }
                    }
                }
            }
            assert forall|y: int, j: int| 0 <= y < incoming@.len() && 0 <= j < incoming@[y]@.len() implies (#[trigger] incoming@[y]@[j]) < edges@.len()
                && edges@[incoming@[y]@[j] as int].target@ == snapshot.symbols@[y].name@ by {
                if y != symbol_id {
                    assert(incoming@[y] == before_incoming[y]);
                } else if j < before_incoming[y]@.len() {
                    assert(incoming@[y]@[j] == before_incoming[y]@[j]);
                }
            }
            assert forall|k: int, y: int| 0 <= k < edges@.len() && 0 <= y < incoming@.len() && #[trigger] edges@[k].target@
                == #[trigger] snapshot.symbols@[y].name@ implies incoming@[y]@.contains(k as usize) by {
                if k < edge_id {
                    assert(edges@[k] == before_edges[k]);
                    assert(before_incoming[y]@.contains(k as usize));
                    let j = choose|j: int| 0 <= j < before_incoming[y]@.len() && before_incoming[y]@[j] == k as usize;
                    if y == symbol_id {
                        assert(incoming@[y]@[j] == k as usize);
                    } else {
                        assert(incoming@[y] == before_incoming[y]);
                    }
                } else {
                    if y != symbol_id {
                        assert(snapshot.symbols@[y].name@ == snapshot.symbols@[symbol_id as int].name@);
                    }
                    assert(incoming@[y]@[incoming@[y]@.len() - 1] == k as usize);
                }
            }
            // the forward list
            assert forall|i: int, j: int| 0 <= i < j < out_list@.len() implies #[trigger] out_list@[i] < #[trigger] out_list@[j] by {
                if j == out_list@.len() - 1 {
                    assert(before_out[i] < before_edges.len());
                }
            }
            assert forall|j: int| 0 <= j < out_list@.len() implies #[trigger] out_list@[j] < edges@.len()
                && edges@[out_list@[j] as int].source == source by {
                if j < before_out.len() {
                    assert(out_list@[j] == before_out[j]);
                }
            }
            assert forall|k: int| 0 <= k < edges@.len() && (#[trigger] edges@[k]).source == source implies out_list@.contains(k as usize) by {
                if k < edge_id {
                    assert(edges@[k] == before_edges[k]);
                    let j = choose|j: int| 0 <= j < before_out.len() && before_out[j] == k as usize;
                    assert(out_list@[j] == k as usize);
                } else {
                    assert(out_list@[out_list@.len() - 1] == k as usize);
                }
            }
            assert forall|j: int| 0 <= j < t + 1 implies (#[trigger] edges@[old_edges.len() + j]).source == source
                && edges@[old_edges.len() + j].layer == layer
                && edges@[old_edges.len() + j].target@ == occurrences@[j].0@ by {
                if j < t {
                    assert(edges@[old_edges.len() + j] == before_edges[old_edges.len() + j]);
                }
            }
            assert(edges@.subrange(0, old_edges.len() as int) =~= old_edges);
        }
        t = t + 1;
    }
    proof {
        assert forall|n: Seq<char>| #[trigger] has_constant(*graph, n) implies exists|k: int|
            old_edges.len() <= k < edges@.len() && (#[trigger] edges@[k]).target@ == n by {
            assert(tally_has(occurrences@, n));
            let j = choose|j: int| 0 <= j < occurrences@.len() && #[trigger] occurrences@[j].0@ == n;
            assert(edges@[old_edges.len() + j].target@ == n);
        }
        assert forall|k: int| old_edges.len() <= k < edges@.len() implies (#[trigger] edges@[k]).source == source
            && edges@[k].layer == layer by {
            let j = k - old_edges.len();
            assert(edges@[old_edges.len() + j].source == source);
        }
    }
}


/// Every dependency of the first `upto` declarations has an edge.
pub open spec fn edges_cover(s: ExtractionSnapshot, edges: Seq<DependencyEdge>, upto: int) -> bool {
    forall|d: int, layer: DependencyLayer, n: Seq<char>|
        0 <= d < upto && #[trigger] layer_has_constant(s.declarations@[d], layer, n) ==> exists|k: int|
            0 <= k < edges.len() && (#[trigger] edges[k]).source == d && edges[k].layer == layer && edges[k].target@ == n
}

/// Appends the edges of both layers of one declaration and its forward list.
fn append_declaration_edges(
    snapshot: &ExtractionSnapshot,
    decl_names: &Vec<String>,
    declaration_index: &NameIndex,
    sym_names: &Vec<String>,
    symbol_index: &NameIndex,
    source: usize,
    edges: &mut Vec<DependencyEdge>,
    outgoing: &mut Vec<Vec<usize>>,
    incoming: &mut Vec<Vec<usize>>,
)
    requires
        snapshot_valid(*snapshot),
        texts_view(decl_names@) == declaration_name_seq(*snapshot),
        declaration_index.indexes(texts_view(decl_names@)),
        texts_view(sym_names@) == symbol_name_seq(*snapshot),
        symbol_index.indexes(texts_view(sym_names@)),
        source < snapshot.declarations@.len(),
        edges_built(*snapshot, old(edges)@, old(incoming)@),
        outgoing_describes(old(edges)@, old(outgoing)@, source as int),
        edges_cover(*snapshot, old(edges)@, source as int),
    ensures
        edges_built(*snapshot, final(edges)@, final(incoming)@),
        outgoing_describes(final(edges)@, final(outgoing)@, source + 1),
        edges_cover(*snapshot, final(edges)@, source + 1),
{
    let declaration = &snapshot.declarations[source];
    let ghost e0 = edges@;
    let ghost o0 = outgoing@;
    let mut out_list: Vec<usize> = Vec::new();
    proof {
        assert forall|k: int| 0 <= k < e0.len() implies edge_before(#[trigger] e0[k], source as int, DependencyLayer::Statement) by {
            assert(e0[k].source < source);
        }
    }
    append_layer_edges(
        snapshot, decl_names, declaration_index, sym_names, symbol_index, source,
        DependencyLayer::Statement, &declaration.type_graph, edges, &mut out_list, incoming,
    );
    let ghost e1 = edges@;
    proof {
        assert forall|i: int| 0 <= i < e0.len() implies #[trigger] e1[i] == e0[i] by {
            assert(e1.subrange(0, e0.len() as int)[i] == e1[i]);
        }
    }
    match &declaration.value_graph {
        Some(g) => {
            proof {
                assert forall|k: int| 0 <= k < e1.len() implies edge_before(#[trigger] e1[k], source as int, DependencyLayer::Proof) by {
                    if k < e0.len() {
                        assert(e0[k].source < source);
                    }
                }
            }
            append_layer_edges(
                snapshot, decl_names, declaration_index, sym_names, symbol_index, source,
                DependencyLayer::Proof, g, edges, &mut out_list, incoming,
            );
        },
        None => {},
    }
    let ghost e2 = edges@;
    proof {
        assert forall|i: int| 0 <= i < e1.len() implies #[trigger] e2[i] == e1[i] by {
            assert(e2.subrange(0, e1.len() as int)[i] == e2[i]);
        }
        assert forall|k: int| e0.len() <= k < e2.len() implies (#[trigger] e2[k]).source == source by {
            if k < e1.len() {
                assert(e2[k] == e1[k]);
            }
        }
    }
    outgoing.push(out_list);
    proof {
        let out = outgoing@;
        assert(out.len() == source + 1);
        assert forall|s: int| 0 <= s < source + 1 implies increasing(#[trigger] out[s]@) by {
            if s < source {
                assert(out[s] == o0[s]);
            }
        }
        assert forall|s: int, j: int| 0 <= s < source + 1 && 0 <= j < out[s]@.len() implies (#[trigger] out[s]@[j]) < e2.len()
            && e2[out[s]@[j] as int].source == s by {
            if s < source {
                assert(out[s] == o0[s]);
                assert(o0[s]@[j] < e0.len());
                assert(e2[o0[s]@[j] as int] == e1[o0[s]@[j] as int]);
            }
        }
        assert forall|k: int| 0 <= k < e2.len() implies e2[k].source < source + 1 && out[(#[trigger] e2[k]).source as int]@.contains(k as usize) by {
            if k < e0.len() {
                assert(e2[k] == e1[k]);
                assert(e0[k].source < source);
                assert(out[e0[k].source as int] == o0[e0[k].source as int]);
            }
        }
        assert forall|d: int, layer: DependencyLayer, n: Seq<char>|
            0 <= d < source + 1 && #[trigger] layer_has_constant(snapshot.declarations@[d], layer, n) implies exists|k: int|
                0 <= k < e2.len() && (#[trigger] e2[k]).source == d && e2[k].layer == layer && e2[k].target@ == n by {
            if d < source {
                let k = choose|k: int| 0 <= k < e0.len() && (#[trigger] e0[k]).source == d && e0[k].layer == layer && e0[k].target@ == n;
                assert(e2[k] == e1[k]);
            } else {
                match layer {
                    DependencyLayer::Statement => {
                        assert(has_constant(declaration.type_graph, n));
                        let k = choose|k: int| e0.len() <= k < e1.len() && (#[trigger] e1[k]).target@ == n;
                        assert(e2[k] == e1[k]);
                    },
                    DependencyLayer::Proof => {
                        let g = declaration.value_graph.unwrap();
                        assert(has_constant(g, n));
                        let k = choose|k: int| e1.len() <= k < e2.len() && (#[trigger] e2[k]).target@ == n;
                    },
                }
            }
        }
    }
}


/// The multiplicities cached for every declaration and layer.
pub open spec fn multiplicities_recorded(
    s: ExtractionSnapshot,
    statement: Seq<Vec<usize>>,
    proof: Seq<Option<Vec<usize>>>,
) -> bool {
    &&& statement.len() == s.declarations@.len()
    &&& proof.len() == s.declarations@.len()
    &&& forall|d: int| 0 <= d < statement.len() ==> multiplicities_of(s.declarations@[d].type_graph, #[trigger] statement[d]@)
    &&& forall|d: int| 0 <= d < proof.len() ==> match (s.declarations@[d].value_graph, #[trigger] proof[d]) {
        (Some(g), Some(m)) => multiplicities_of(g, m@),
        (None, None) => true,
        _ => false,
    }
}

/// The edge passes the filter: its layer is selected, and the filter admits
/// its source declaration and its target symbol.
pub open spec fn edge_selected(s: ExtractionSnapshot, f: AnalysisFilter, e: DependencyEdge) -> bool {
    &&& selection_includes(f.layer, e.layer)
    &&& filter_matches_declaration(f, s.declarations@[e.source as int])
    &&& exists|y: int| 0 <= y < s.symbols@.len() && #[trigger] s.symbols@[y].name@ == e.target@
        && filter_matches_symbol(f, s.symbols@[y], e.target_in_corpus)
}

/// The ids below `n` of the declarations that the filter admits, in order.
pub open spec fn matching_declaration_ids(s: ExtractionSnapshot, f: AnalysisFilter, n: int) -> Seq<usize>
    decreases n,
{
    if n <= 0 {
        Seq::empty()
    } else if filter_matches_declaration(f, s.declarations@[n - 1]) {
        matching_declaration_ids(s, f, n - 1).push((n - 1) as usize)
    } else {
        matching_declaration_ids(s, f, n - 1)
    }
}

/// The ids below `n` of the edges that the filter admits, in order.
pub open spec fn selected_edge_ids(s: ExtractionSnapshot, f: AnalysisFilter, edges: Seq<DependencyEdge>, n: int) -> Seq<usize>
    decreases n,
{
    if n <= 0 {
        Seq::empty()
    } else if edge_selected(s, f, edges[n - 1]) {
        selected_edge_ids(s, f, edges, n - 1).push((n - 1) as usize)
    } else {
        selected_edge_ids(s, f, edges, n - 1)
    }
}

impl AnalysisCorpus {
    /// The snapshot the corpus was built from.
    pub closed spec fn snapshot_view(&self) -> ExtractionSnapshot {
        self.snapshot
    }

    /// The dependency edges, in order of source, layer and target.
    pub closed spec fn edges_view(&self) -> Seq<DependencyEdge> {
        self.dependency_edges@
    }

    /// For every declaration, the ids of its outgoing edges.
    pub closed spec fn outgoing_view(&self) -> Seq<Vec<usize>> {
        self.outgoing_edges@
    }

    /// For every symbol, the ids of the edges that point at it.
    pub closed spec fn incoming_view(&self) -> Seq<Vec<usize>> {
        self.incoming_edges@
    }

    /// The statement-layer occurrence multiplicities of every declaration.
    pub closed spec fn statement_multiplicities_view(&self) -> Seq<Vec<usize>> {
        self.statement_multiplicities@
    }

    /// The proof-layer occurrence multiplicities of every declaration.
    pub closed spec fn proof_multiplicities_view(&self) -> Seq<Option<Vec<usize>>> {
        self.proof_multiplicities@
    }

    /// The name lookups agree with the snapshot.
    pub closed spec fn lookups_ready(&self) -> bool {
        &&& texts_view(self.declaration_names@) == declaration_name_seq(self.snapshot)
        &&& self.declaration_index.indexes(texts_view(self.declaration_names@))
        &&& texts_view(self.symbol_names@) == symbol_name_seq(self.snapshot)
        &&& self.symbol_index.indexes(texts_view(self.symbol_names@))
    }

    /// What every corpus satisfies: a valid snapshot whose edges are exactly
    /// its dependencies, each with a positive weight, indexed both ways.
    #[verifier::type_invariant]
    pub open spec fn wf(&self) -> bool {
        &&& snapshot_valid(self.snapshot_view())
        &&& constants_reachable(self.snapshot_view())
        &&& edges_describe(self.snapshot_view(), self.edges_view())
        &&& outgoing_describes(self.edges_view(), self.outgoing_view(), self.snapshot_view().declarations@.len() as int)
        &&& incoming_describes(self.snapshot_view(), self.edges_view(), self.incoming_view())
        &&& multiplicities_recorded(self.snapshot_view(), self.statement_multiplicities_view(), self.proof_multiplicities_view())
        &&& self.lookups_ready()
    }

    /// Validates the snapshot and indexes its dependencies.
    #[verifier::loop_isolation(false)]
    pub fn new(snapshot: ExtractionSnapshot) -> (r: Result<AnalysisCorpus, SieveError>)
        ensures
            r is Ok <==> snapshot_valid(snapshot) && constants_reachable(snapshot),
            r matches Ok(c) ==> c.snapshot_view() == snapshot,
    {
        match validate_snapshot(&snapshot) {
            Ok(()) => {},
            Err(e) => {
                return Err(e);
            },
        }
        let declaration_names = names_of_declarations(&snapshot);
        let declaration_index = NameIndex::build(&declaration_names);
        let symbol_names = names_of_symbols(&snapshot);
        let symbol_index = NameIndex::build(&symbol_names);
        let mut dependency_edges: Vec<DependencyEdge> = Vec::new();
        let mut outgoing_edges: Vec<Vec<usize>> = Vec::new();
        let mut incoming_edges: Vec<Vec<usize>> = Vec::new();
        let mut statement_multiplicities: Vec<Vec<usize>> = Vec::new();
        let mut proof_multiplicities: Vec<Option<Vec<usize>>> = Vec::new();
        let mut y: usize = 0;
        while y < snapshot.symbols.len()
            invariant
                y <= snapshot.symbols@.len(),
                incoming_edges@.len() == y,
                forall|j: int| 0 <= j < y ==> (#[trigger] incoming_edges@[j])@.len() == 0,
            decreases snapshot.symbols@.len() - y,
        {
            incoming_edges.push(Vec::new());
            y = y + 1;
        }
        proof {
            assert(incoming_describes(snapshot, dependency_edges@, incoming_edges@));
        }
        let mut source: usize = 0;
        while source < snapshot.declarations.len()
            invariant
                source <= snapshot.declarations@.len(),
                snapshot_valid(snapshot),
                texts_view(declaration_names@) == declaration_name_seq(snapshot),
                declaration_index.indexes(texts_view(declaration_names@)),
                texts_view(symbol_names@) == symbol_name_seq(snapshot),
                symbol_index.indexes(texts_view(symbol_names@)),
                edges_built(snapshot, dependency_edges@, incoming_edges@),
                outgoing_describes(dependency_edges@, outgoing_edges@, source as int),
                edges_cover(snapshot, dependency_edges@, source as int),
                statement_multiplicities@.len() == source,
                proof_multiplicities@.len() == source,
                forall|d: int| 0 <= d < source ==> multiplicities_of(snapshot.declarations@[d].type_graph, #[trigger] statement_multiplicities@[d]@),
                forall|d: int| 0 <= d < source ==> match (snapshot.declarations@[d].value_graph, #[trigger] proof_multiplicities@[d]) {
                    (Some(g), Some(m)) => multiplicities_of(g, m@),
                    (None, None) => true,
                    _ => false,
                },
            decreases snapshot.declarations@.len() - source,
        {
            let declaration = &snapshot.declarations[source];
            proof {
                assert(declaration_valid(*declaration));
                lemma_total_bounds_multiplicities(declaration.type_graph);
            }
            statement_multiplicities.push(declaration.type_graph.occurrence_multiplicities());
            match &declaration.value_graph {
                Some(g) => {
                    proof {
                        lemma_total_bounds_multiplicities(*g);
                    }
                    proof_multiplicities.push(Some(g.occurrence_multiplicities()));
                },
                None => {
                    proof_multiplicities.push(None);
                },
            }
            append_declaration_edges(
                &snapshot, &declaration_names, &declaration_index, &symbol_names, &symbol_index,
                source, &mut dependency_edges, &mut outgoing_edges, &mut incoming_edges,
            );
            source = source + 1;
        }
        let mut k: usize = 0;
        while k < dependency_edges.len()
            invariant
                k <= dependency_edges@.len(),
                forall|j: int| 0 <= j < k ==> (#[trigger] dependency_edges@[j]).occurrences > 0,
            decreases dependency_edges@.len() - k,
        {
            if dependency_edges[k].occurrences == 0 {
                proof {
                    let e = dependency_edges@[k as int];
                    assert(edge_describes(snapshot, e));
                }
                return Err(SieveError::new("zero-weight dependency edge"));
            }
            k = k + 1;
        }
        proof {
            assert forall|d: int, layer: DependencyLayer, n: Seq<char>|
                0 <= d < snapshot.declarations@.len() && #[trigger] layer_has_constant(snapshot.declarations@[d], layer, n)
                    implies layer_constant_count(snapshot.declarations@[d], layer, n) > 0 by {
                let j = choose|j: int| 0 <= j < dependency_edges@.len() && (#[trigger] dependency_edges@[j]).source == d
                    && dependency_edges@[j].layer == layer && dependency_edges@[j].target@ == n;
                assert(edge_describes(snapshot, dependency_edges@[j]));
            }
        }
        Ok(AnalysisCorpus {
            snapshot,
            declaration_names,
            declaration_index,
            symbol_names,
            symbol_index,
            dependency_edges,
            outgoing_edges,
            incoming_edges,
            statement_multiplicities,
            proof_multiplicities,
        })
    }
}


/// `m` holds the occurrence multiplicities of the declaration's expression in the layer.
pub open spec fn layer_multiplicities(d: DeclarationSnapshot, layer: DependencyLayer, m: Seq<usize>) -> bool {
    match layer_graph(d, layer) {
        Some(g) => multiplicities_of(g, m),
        None => false,
    }
}

/// The number of the first `n` edges whose target the corpus defines.
pub open spec fn internal_edge_count(edges: Seq<DependencyEdge>, n: int) -> nat
    decreases n,
{
    if n <= 0 {
        0
    } else {
        internal_edge_count(edges, n - 1) + if edges[n - 1].target_in_corpus { 1nat } else { 0nat }
    }
}

impl AnalysisCorpus {
    /// The snapshot the corpus was built from.
    pub fn snapshot(&self) -> (r: &ExtractionSnapshot)
        ensures
            *r == self.snapshot_view(),
    {
        &self.snapshot
    }

    /// The declarations of the snapshot.
    pub fn declarations(&self) -> (r: &[DeclarationSnapshot])
        ensures
            r@ == self.snapshot_view().declarations@,
    {
        self.snapshot.declarations.as_slice()
    }

    /// The symbol table of the snapshot.
    pub fn symbols(&self) -> (r: &[SymbolSnapshot])
        ensures
            r@ == self.snapshot_view().symbols@,
    {
        self.snapshot.symbols.as_slice()
    }

    /// Every dependency edge, in order of source, layer and target name.
    pub fn edges(&self) -> (r: &[DependencyEdge])
        ensures
            r@ == self.edges_view(),
            edges_describe(self.snapshot_view(), r@),
    {
        proof {
            use_type_invariant(self);
        }
        self.dependency_edges.as_slice()
    }

    /// The position of the declaration called `name`.
    pub fn declaration_id(&self, name: &str) -> (r: Option<usize>)
        ensures
            r matches Some(i) ==> i < self.snapshot_view().declarations@.len()
                && self.snapshot_view().declarations@[i as int].name@ == name@,
            r is None <==> !declaration_known(self.snapshot_view(), name@),
            forall|i: int| 0 <= i < self.snapshot_view().declarations@.len()
                && #[trigger] self.snapshot_view().declarations@[i].name@ == name@ ==> r == Some(i as usize),
    {
        proof {
            use_type_invariant(self);
        }
        let r = self.declaration_index.find(&self.declaration_names, name);
        proof {
            let names = texts_view(self.declaration_names@);
            assert(names.len() == self.snapshot.declarations@.len());
            if let Some(i) = r {
                assert(names[i as int] == declaration_name_seq(self.snapshot)[i as int]);
            } else if declaration_known(self.snapshot, name@) {
                let i = choose|i: int| 0 <= i < self.snapshot.declarations@.len() && #[trigger] self.snapshot.declarations@[i].name@ == name@;
                assert(names[i] == declaration_name_seq(self.snapshot)[i]);
                assert(self.declaration_names@[i]@ == name@);
            }
        }
        r
    }

    /// The declaration called `name`.
    pub fn declaration(&self, name: &str) -> (r: Option<&DeclarationSnapshot>)
        ensures
            r matches Some(d) ==> d.name@ == name@ && exists|i: int|
                0 <= i < self.snapshot_view().declarations@.len() && self.snapshot_view().declarations@[i] == *d,
            r is None <==> !declaration_known(self.snapshot_view(), name@),
    {
        match self.declaration_id(name) {
            Some(id) => Some(&self.snapshot.declarations[id]),
            None => None,
        }
    }

    /// The position of the symbol called `name` in the symbol table.
    pub fn symbol_id(&self, name: &str) -> (r: Option<usize>)
        ensures
            r matches Some(i) ==> i < self.snapshot_view().symbols@.len()
                && self.snapshot_view().symbols@[i as int].name@ == name@,
            r is None <==> !symbol_known(self.snapshot_view(), name@),
    {
        proof {
            use_type_invariant(self);
        }
        let r = self.symbol_index.find(&self.symbol_names, name);
        proof {
            let names = texts_view(self.symbol_names@);
            assert(names.len() == self.snapshot.symbols@.len());
            if let Some(i) = r {
                assert(names[i as int] == symbol_name_seq(self.snapshot)[i as int]);
            } else if symbol_known(self.snapshot, name@) {
                let i = choose|i: int| 0 <= i < self.snapshot.symbols@.len() && #[trigger] self.snapshot.symbols@[i].name@ == name@;
                assert(names[i] == symbol_name_seq(self.snapshot)[i]);
                assert(self.symbol_names@[i]@ == name@);
            }
        }
        r
    }

    /// The symbol-table entry called `name`.
    pub fn symbol(&self, name: &str) -> (r: Option<&SymbolSnapshot>)
        ensures
            r matches Some(y) ==> y.name@ == name@ && exists|i: int|
                0 <= i < self.snapshot_view().symbols@.len() && self.snapshot_view().symbols@[i] == *y,
            r is None <==> !symbol_known(self.snapshot_view(), name@),
    {
        match self.symbol_id(name) {
            Some(id) => Some(&self.snapshot.symbols[id]),
            None => None,
        }
    }

    /// The expression of a declaration in a layer: its type for the
    /// statement, its value (where it has one) for the proof.
    pub fn graph(&self, declaration: usize, layer: DependencyLayer) -> (r: Option<&ExpressionGraph>)
        requires
            declaration < self.snapshot_view().declarations@.len(),
        ensures
            match r {
                Some(g) => layer_graph(self.snapshot_view().declarations@[declaration as int], layer) == Some(*g),
                None => layer_graph(self.snapshot_view().declarations@[declaration as int], layer) is None,
            },
    {
        let d = &self.snapshot.declarations[declaration];
        match layer {
            DependencyLayer::Statement => Some(&d.type_graph),
            DependencyLayer::Proof => match &d.value_graph {
                Some(g) => Some(g),
                None => None,
            },
        }
    }

    /// The occurrence multiplicity of every node of a declaration's expression
    /// in a layer, where the declaration and the expression exist.
    pub fn multiplicities(&self, declaration: usize, layer: DependencyLayer) -> (r: Option<&[usize]>)
        ensures
            match r {
                Some(m) => declaration < self.snapshot_view().declarations@.len()
                    && layer_multiplicities(self.snapshot_view().declarations@[declaration as int], layer, m@),
                None => declaration >= self.snapshot_view().declarations@.len()
                    || layer_graph(self.snapshot_view().declarations@[declaration as int], layer) is None,
            },
    {
        proof {
            use_type_invariant(self);
        }
        if declaration >= self.statement_multiplicities.len() {
            return None;
        }
        match layer {
            DependencyLayer::Statement => {
                let m = self.statement_multiplicities[declaration].as_slice();
                proof {
                    let g = self.snapshot.declarations@[declaration as int].type_graph;
                    assert(layer_graph(self.snapshot.declarations@[declaration as int], layer) == Some(g));
                    assert(multiplicities_of(g, m@));
                }
                Some(m)
            },
            DependencyLayer::Proof => match &self.proof_multiplicities[declaration] {
                Some(m) => {
                    proof {
                        let g = self.snapshot.declarations@[declaration as int].value_graph.unwrap();
                        assert(multiplicities_of(g, m@));
                        assert(layer_graph(self.snapshot.declarations@[declaration as int], layer) == Some(g));
                    }
                    Some(m.as_slice())
                },
                None => {
                    proof {
                        assert(self.snapshot.declarations@[declaration as int].value_graph is None);
                    }
                    None
                },
            },
        }
    }

    /// The ids of the edges that leave a declaration, in increasing order.
    pub fn outgoing_edge_ids(&self, declaration: usize) -> (r: &[usize])
        requires
            declaration < self.snapshot_view().declarations@.len(),
        ensures
            increasing(r@),
            forall|j: int| 0 <= j < r@.len() ==> #[trigger] r@[j] < self.edges_view().len()
                && self.edges_view()[r@[j] as int].source == declaration,
            forall|k: int| 0 <= k < self.edges_view().len() && (#[trigger] self.edges_view()[k]).source == declaration
                ==> r@.contains(k as usize),
    {
        proof {
            use_type_invariant(self);
        }
        self.outgoing_edges[declaration].as_slice()
    }

    /// The ids of the edges that point at the symbol `symbol`, in increasing order.
    pub fn incoming_edge_ids(&self, symbol: &str) -> (r: &[usize])
        ensures
            increasing(r@),
            forall|j: int| 0 <= j < r@.len() ==> #[trigger] r@[j] < self.edges_view().len()
                && self.edges_view()[r@[j] as int].target@ == symbol@,
            forall|k: int| 0 <= k < self.edges_view().len() && (#[trigger] self.edges_view()[k]).target@ == symbol@
                ==> r@.contains(k as usize),
    {
        proof {
            use_type_invariant(self);
        }
        let r = self.symbol_index.find(&self.symbol_names, symbol);
        let names = Ghost(texts_view(self.symbol_names@));
        proof {
            assert(names@.len() == self.snapshot.symbols@.len());
        }
        match r {
            Some(y) => {
                proof {
                    assert(names@[y as int] == symbol_name_seq(self.snapshot)[y as int]);
                }
                self.incoming_edges[y].as_slice()
            },
            None => {
                proof {
                    assert forall|k: int| 0 <= k < self.dependency_edges@.len()
                        implies (#[trigger] self.dependency_edges@[k]).target@ != symbol@ by {
                        assert(edge_describes(self.snapshot, self.dependency_edges@[k]));
                        let y = choose|y: int| 0 <= y < self.snapshot.symbols@.len()
                            && edge_matches_symbol_metadata(self.dependency_edges@[k], #[trigger] self.snapshot.symbols@[y]);
                        assert(names@[y] == symbol_name_seq(self.snapshot)[y]);
                        assert(self.symbol_names@[y]@ != symbol@);
                    }
                }
                &[]
            },
        }
    }

    /// The ids of the declarations that the filter admits, in order.
    pub fn filtered_declaration_ids(&self, filter: &AnalysisFilter) -> (r: Vec<usize>)
        ensures
            r@ == matching_declaration_ids(self.snapshot_view(), *filter, self.snapshot_view().declarations@.len() as int),
    {
        let mut r: Vec<usize> = Vec::new();
        let mut i: usize = 0;
        while i < self.snapshot.declarations.len()
            invariant
                i <= self.snapshot.declarations@.len(),
                r@ == matching_declaration_ids(self.snapshot, *filter, i as int),
            decreases self.snapshot.declarations@.len() - i,
        {
            if filter.matches_declaration(&self.snapshot.declarations[i]) {
                r.push(i);
            }
            i = i + 1;
        }
        r
    }

    /// Whether the filter admits the edge.
    pub fn edge_matches(&self, edge: &DependencyEdge, filter: &AnalysisFilter) -> (r: bool)
        requires
            edge.source < self.snapshot_view().declarations@.len(),
            symbol_known(self.snapshot_view(), edge.target@),
        ensures
            r == edge_selected(self.snapshot_view(), *filter, *edge),
    {
        proof {
            use_type_invariant(self);
        }
        if !filter.layer.includes(edge.layer) {
            return false;
        }
        if !filter.matches_declaration(&self.snapshot.declarations[edge.source]) {
            return false;
        }
        let names = Ghost(texts_view(self.symbol_names@));
        proof {
            assert(names@.len() == self.snapshot.symbols@.len());
        }
        match self.symbol_index.find(&self.symbol_names, edge.target.as_str()) {
            Some(y) => {
                proof {
                    assert(names@[y as int] == symbol_name_seq(self.snapshot)[y as int]);
                    assert forall|z: int| 0 <= z < self.snapshot.symbols@.len() && #[trigger] self.snapshot.symbols@[z].name@ == edge.target@
                        implies z == y by {
                        if z != y {
                            if z < y {
                                assert(self.snapshot.symbols@[z].name@ != self.snapshot.symbols@[y as int].name@);
                            } else {
                                assert(self.snapshot.symbols@[y as int].name@ != self.snapshot.symbols@[z].name@);
                            }
                        }
                    }
                }
                filter.matches_symbol(&self.snapshot.symbols[y], edge.target_in_corpus)
            },
            None => {
                proof {
                    let z = choose|z: int| 0 <= z < self.snapshot.symbols@.len() && #[trigger] self.snapshot.symbols@[z].name@ == edge.target@;
                    assert(names@[z] == symbol_name_seq(self.snapshot)[z]);
                    assert(self.symbol_names@[z]@ == edge.target@);
                }
                false
            },
        }
    }

    /// The edges that the filter admits, in order.
    pub fn filtered_edges(&self, filter: &AnalysisFilter) -> (r: Vec<&DependencyEdge>)
        ensures
            r@.len() == selected_edge_ids(self.snapshot_view(), *filter, self.edges_view(), self.edges_view().len() as int).len(),
            forall|i: int| 0 <= i < r@.len() ==> *(#[trigger] r@[i]) == self.edges_view()[
                selected_edge_ids(self.snapshot_view(), *filter, self.edges_view(), self.edges_view().len() as int)[i] as int],
    {
        proof {
            use_type_invariant(self);
        }
        let ghost ids = selected_edge_ids(self.snapshot, *filter, self.dependency_edges@, self.dependency_edges@.len() as int);
        let mut r: Vec<&DependencyEdge> = Vec::new();
        let mut k: usize = 0;
        while k < self.dependency_edges.len()
            invariant
                k <= self.dependency_edges@.len(),
                edges_describe(self.snapshot, self.dependency_edges@),
                snapshot_valid(self.snapshot),
                r@.len() == selected_edge_ids(self.snapshot, *filter, self.dependency_edges@, k as int).len(),
                forall|i: int| 0 <= i < r@.len() ==> *(#[trigger] r@[i]) == self.dependency_edges@[
                    selected_edge_ids(self.snapshot, *filter, self.dependency_edges@, k as int)[i] as int],
            decreases self.dependency_edges@.len() - k,
        {
            let edge = &self.dependency_edges[k];
            proof {
                assert(edge_describes(self.snapshot, *edge));
                let y = choose|y: int| 0 <= y < self.snapshot.symbols@.len()
                    && edge_matches_symbol_metadata(*edge, #[trigger] self.snapshot.symbols@[y]);
                assert(self.snapshot.symbols@[y].name@ == edge.target@);
            }
            if self.edge_matches(edge, filter) {
                r.push(edge);
            }
            k = k + 1;
        }
        r
    }

    /// The number of edges whose target the corpus defines.
    pub fn internal_dependency_edge_count(&self) -> (r: usize)
        ensures
            r == internal_edge_count(self.edges_view(), self.edges_view().len() as int),
    {
        let mut r: usize = 0;
        let mut k: usize = 0;
        while k < self.dependency_edges.len()
            invariant
                k <= self.dependency_edges@.len(),
                r == internal_edge_count(self.dependency_edges@, k as int),
                r <= k,
            decreases self.dependency_edges@.len() - k,
        {
            if self.dependency_edges[k].target_in_corpus {
                r = r + 1;
            }
            k = k + 1;
        }
        r
    }
}


/// Filtering with the filter `all` keeps every declaration, in order.
pub proof fn lemma_all_keeps_every_declaration(s: ExtractionSnapshot, f: AnalysisFilter, n: int)
    requires
        all_filter_spec(f),
        0 <= n <= s.declarations@.len(),
    ensures
        matching_declaration_ids(s, f, n) == Seq::new(n as nat, |i: int| i as usize),
    decreases n,
{
    if n > 0 {
        lemma_all_keeps_every_declaration(s, f, n - 1);
        assert(filter_matches_declaration(f, s.declarations@[n - 1]));
        assert(matching_declaration_ids(s, f, n) =~= Seq::new(n as nat, |i: int| i as usize));
    } else {
        assert(matching_declaration_ids(s, f, n) =~= Seq::new(n as nat, |i: int| i as usize));
    }
}

} // verus!
