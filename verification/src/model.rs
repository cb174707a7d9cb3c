//! The extraction snapshot: elaborated declarations, their expression DAGs,
//! proof steps and the symbol table, as the Lean extractor reports them.
use vstd::prelude::*;
use crate::strings::{append_text, copy_opt_text, copy_text, copy_texts, decimal, decimal_text, opt_view, push_char, texts_view};

verus! {

/// Aggregate shape statistics of one expression, counted over occurrences.
#[derive(Clone, Debug)]
pub struct ExprStats {
    pub nodes: usize,
    pub max_depth: usize,
    pub bound_variables: usize,
    pub free_variables: usize,
    pub metavariables: usize,
    pub sorts: usize,
    pub constants: usize,
    pub applications: usize,
    pub lambdas: usize,
    pub foralls: usize,
    pub lets: usize,
    pub literals: usize,
    pub metadata: usize,
    pub projections: usize,
}

/// One hash-consed expression node; `children` refer to earlier nodes.
#[derive(Clone, Debug)]
pub struct ExpressionNode {
    pub id: usize,
    pub kind: String,
    pub children: Vec<usize>,
    pub name: Option<String>,
    pub index: Option<usize>,
    pub value: Option<String>,
    pub binder_info: Option<String>,
    pub universe_levels: Vec<String>,
}

/// An expression DAG stored in postorder.
#[derive(Clone, Debug)]
pub struct ExpressionGraph {
    pub root: usize,
    pub nodes: Vec<ExpressionNode>,
}

/// One local hypothesis or variable visible at a proof step.
#[derive(Clone, Debug)]
pub struct ProofContextEntry {
    pub id: String,
    pub user_name: String,
    pub kind: String,
    pub binder_info: String,
    pub type_: String,
    pub type_graph: ExpressionGraph,
    pub value: Option<String>,
}

/// One intermediate claim of an elaborated proof.
#[derive(Clone, Debug)]
pub struct ProofStep {
    pub id: usize,
    pub kind: String,
    pub proposition: String,
    pub proposition_graph: ExpressionGraph,
    pub context: Vec<ProofContextEntry>,
    pub scope: Vec<String>,
    pub proof_term_path: Vec<usize>,
    pub prerequisite_steps: Vec<usize>,
    pub hypothesis_references: Vec<String>,
    pub named_references: Vec<String>,
}

/// The statement of a named result used by some proof step.
#[derive(Clone, Debug)]
pub struct NamedResultSnapshot {
    pub name: String,
    pub kind: String,
    pub module_name: Option<String>,
    pub type_: String,
    pub type_graph: ExpressionGraph,
}

/// The proof steps extracted from one proof term.
#[derive(Clone, Debug)]
pub struct ProofStepExtraction {
    pub complete: bool,
    pub truncation_reason: Option<String>,
    pub visited_terms: usize,
    pub conclusion_step: Option<usize>,
    pub steps: Vec<ProofStep>,
    pub named_results: Vec<NamedResultSnapshot>,
}

#[derive(Clone, Debug)]
pub struct SourcePosition {
    pub line: usize,
    pub column: usize,
}

#[derive(Clone, Debug)]
pub struct SourceRange {
    pub start: SourcePosition,
    pub end: SourcePosition,
}

/// One declaration defined directly in an imported module.
#[derive(Clone, Debug)]
pub struct DeclarationSnapshot {
    pub name: String,
    pub kind: String,
    pub module_name: Option<String>,
    pub generation_kind: Option<String>,
    pub is_internal: bool,
    pub is_private: bool,
    pub is_unsafe: bool,
    pub is_partial: bool,
    pub doc_string: Option<String>,
    pub source_range: Option<SourceRange>,
    pub level_parameters: Vec<String>,
    pub type_: String,
    pub has_value: bool,
    pub type_stats: ExprStats,
    pub value_stats: Option<ExprStats>,
    pub type_graph: ExpressionGraph,
    pub value_graph: Option<ExpressionGraph>,
    pub statement_dependencies: Vec<String>,
    pub proof_dependencies: Vec<String>,
    pub axioms: Vec<String>,
    pub proof_steps: Option<ProofStepExtraction>,
}

/// Metadata of a declaration referenced by the corpus.
#[derive(Clone, Debug)]
pub struct SymbolSnapshot {
    pub name: String,
    pub kind: String,
    pub module_name: Option<String>,
    pub generation_kind: Option<String>,
    pub is_internal: bool,
    pub is_private: bool,
    pub is_unsafe: bool,
    pub is_partial: bool,
    pub is_class: bool,
    pub is_instance: bool,
    pub is_projection: bool,
}

/// Everything the extractor reports for one run.
#[derive(Clone, Debug)]
pub struct ExtractionSnapshot {
    pub schema_version: usize,
    pub lean_version: String,
    pub imported_modules: Vec<String>,
    pub declarations: Vec<DeclarationSnapshot>,
    pub symbols: Vec<SymbolSnapshot>,
}

/// Joins `parts` with `sep` between consecutive parts.
pub open spec fn join(parts: Seq<Seq<char>>, sep: Seq<char>) -> Seq<char>
    decreases parts.len(),
{
    if parts.len() == 0 {
        Seq::empty()
    } else if parts.len() == 1 {
        parts[0]
    } else {
        join(parts.drop_last(), sep) + sep + parts.last()
    }
}

/// Joins texts with a separator.
pub fn join_texts(parts: &Vec<String>, sep: &str) -> (r: String)
    ensures
        r@ == join(texts_view(parts@), sep@),
{
    let mut r = String::new();
    let mut i: usize = 0;
    let ghost all = texts_view(parts@);
    while i < parts.len()
        invariant
            i <= parts@.len(),
            all == texts_view(parts@),
            r@ == join(all.take(i as int), sep@),
        decreases parts@.len() - i,
    {
        assert(all.take(i + 1).drop_last() =~= all.take(i as int));
        if i > 0 {
            append_text(&mut r, sep);
        } else {
            assert(r@ =~= Seq::<char>::empty());
        }
        append_text(&mut r, parts[i].as_str());
        proof {
            if i == 0 {
                assert(r@ =~= all.take(1)[0]);
            }
        }
        i = i + 1;
    }
    assert(all.take(parts@.len() as int) =~= all);
    r
}

/// A present text as a one-element list, an absent one as the empty list.
pub open spec fn opt_part(o: Option<String>) -> Seq<Seq<char>> {
    match o {
        Some(n) => seq![n@],
        None => Seq::empty(),
    }
}

/// The `#index` detail of a label.
pub open spec fn index_part(o: Option<usize>) -> Seq<Seq<char>> {
    match o {
        Some(i) => seq![seq!['#'] + decimal(i as nat)],
        None => Seq::empty(),
    }
}

/// The details that follow a node's kind in its label.
pub open spec fn label_details(node: ExpressionNode) -> Seq<Seq<char>> {
    let a = opt_part(node.name);
    let b = index_part(node.index);
    let c = opt_part(node.binder_info);
    let d = opt_part(node.value);
    let e = if node.universe_levels@.len() == 0 {
        Seq::empty()
    } else {
        seq![seq!['l', 'e', 'v', 'e', 'l', 's', '='] + join(texts_view(node.universe_levels@), seq![','])]
    };
    a + b + c + d + e
}

/// A node's label: its kind, then its details separated by spaces.
pub open spec fn node_label(node: ExpressionNode) -> Seq<char> {
    let details = label_details(node);
    if details.len() == 0 {
        node.kind@
    } else {
        node.kind@ + seq![' '] + join(details, seq![' '])
    }
}

impl ExpressionNode {
    /// A one-line human-readable rendering of the node.
    pub fn label(&self) -> (r: String)
        ensures
            r@ == node_label(*self),
    {
        let mut details: Vec<String> = Vec::new();
        let ghost a = opt_part(self.name);
        if let Some(name) = &self.name {
            details.push(name.clone());
        }
        assert(texts_view(details@) =~= a);
        let ghost b = index_part(self.index);
        if let Some(index) = self.index {
            let mut s = String::new();
            push_char(&mut s, '#');
            assert(s@ =~= seq!['#']);
            let digits = decimal_text(index);
            append_text(&mut s, digits.as_str());
            details.push(s);
        }
        assert(texts_view(details@) =~= a + b);
        let ghost c = opt_part(self.binder_info);
        if let Some(binder_info) = &self.binder_info {
            details.push(binder_info.clone());
        }
        assert(texts_view(details@) =~= a + b + c);
        let ghost d = opt_part(self.value);
        if let Some(value) = &self.value {
            details.push(value.clone());
        }
        assert(texts_view(details@) =~= a + b + c + d);
        if self.universe_levels.len() > 0 {
            let mut s = String::new();
            push_char(&mut s, 'l');
            push_char(&mut s, 'e');
            push_char(&mut s, 'v');
            push_char(&mut s, 'e');
            push_char(&mut s, 'l');
            push_char(&mut s, 's');
            push_char(&mut s, '=');
            assert(s@ =~= seq!['l', 'e', 'v', 'e', 'l', 's', '=']);
            let mut comma = String::new();
            push_char(&mut comma, ',');
            assert(comma@ =~= seq![',']);
            let joined = join_texts(&self.universe_levels, comma.as_str());
            append_text(&mut s, joined.as_str());
            details.push(s);
        }
        assert(texts_view(details@) =~= label_details(*self));
        if details.len() == 0 {
            self.kind.clone()
        } else {
            let mut out = self.kind.clone();
            push_char(&mut out, ' ');
            let mut space = String::new();
            push_char(&mut space, ' ');
            assert(space@ =~= seq![' ']);
            let joined = join_texts(&details, space.as_str());
            append_text(&mut out, joined.as_str());
            out
        }
    }
}

impl SymbolSnapshot {
    /// Type classes, instances and projections: elaboration machinery.
    pub fn is_infrastructure(&self) -> (r: bool)
        ensures
            r == (self.is_class || self.is_instance || self.is_projection),
    {
        self.is_class || self.is_instance || self.is_projection
    }

    /// The extractor recorded generated provenance for the symbol.
    pub fn is_generated(&self) -> (r: bool)
        ensures
            r == self.generation_kind.is_some(),
    {
        self.generation_kind.is_some()
    }

    /// Generated, internal and private symbols are left out unless asked for.
    pub fn is_hidden_by_default(&self) -> (r: bool)
        ensures
            r == symbol_hidden(*self),
    {
        self.generation_kind.is_some() || self.is_internal || self.is_private
    }
}

impl DeclarationSnapshot {
    /// The extractor recorded generated provenance for the declaration.
    pub fn is_generated(&self) -> (r: bool)
        ensures
            r == self.generation_kind.is_some(),
    {
        self.generation_kind.is_some()
    }

    /// Generated, internal and private declarations are left out unless asked for.
    pub fn is_hidden_by_default(&self) -> (r: bool)
        ensures
            r == declaration_hidden(*self),
    {
        self.generation_kind.is_some() || self.is_internal || self.is_private
    }
}

/// A declaration that default analyses leave out.
pub open spec fn declaration_hidden(d: DeclarationSnapshot) -> bool {
    d.generation_kind.is_some() || d.is_internal || d.is_private
}

/// A symbol that default analyses leave out.
pub open spec fn symbol_hidden(s: SymbolSnapshot) -> bool {
    s.generation_kind.is_some() || s.is_internal || s.is_private
}

/// Two nodes agree field by field.
pub open spec fn same_node(a: ExpressionNode, b: ExpressionNode) -> bool {
    &&& a.id == b.id
    &&& a.kind@ == b.kind@
    &&& a.children@ == b.children@
    &&& opt_view(&a.name) == opt_view(&b.name)
    &&& a.index == b.index
    &&& opt_view(&a.value) == opt_view(&b.value)
    &&& opt_view(&a.binder_info) == opt_view(&b.binder_info)
    &&& texts_view(a.universe_levels@) == texts_view(b.universe_levels@)
}

/// Two graphs agree node by node.
pub open spec fn same_graph(a: ExpressionGraph, b: ExpressionGraph) -> bool {
    &&& a.root == b.root
    &&& a.nodes@.len() == b.nodes@.len()
    &&& forall|i: int| 0 <= i < a.nodes@.len() ==> same_node(#[trigger] a.nodes@[i], b.nodes@[i])
}

/// Two context entries agree field by field.
pub open spec fn same_entry(a: ProofContextEntry, b: ProofContextEntry) -> bool {
    &&& a.id@ == b.id@
    &&& a.user_name@ == b.user_name@
    &&& a.kind@ == b.kind@
    &&& a.binder_info@ == b.binder_info@
    &&& a.type_@ == b.type_@
    &&& same_graph(a.type_graph, b.type_graph)
    &&& opt_view(&a.value) == opt_view(&b.value)
}

/// Two proof steps agree field by field.
pub open spec fn same_step(a: ProofStep, b: ProofStep) -> bool {
    &&& a.id == b.id
    &&& a.kind@ == b.kind@
    &&& a.proposition@ == b.proposition@
    &&& same_graph(a.proposition_graph, b.proposition_graph)
    &&& a.context@.len() == b.context@.len()
    &&& (forall|i: int| 0 <= i < a.context@.len() ==> same_entry(#[trigger] a.context@[i], b.context@[i]))
    &&& texts_view(a.scope@) == texts_view(b.scope@)
    &&& a.proof_term_path@ == b.proof_term_path@
    &&& a.prerequisite_steps@ == b.prerequisite_steps@
    &&& texts_view(a.hypothesis_references@) == texts_view(b.hypothesis_references@)
    &&& texts_view(a.named_references@) == texts_view(b.named_references@)
}

fn copy_usizes(v: &Vec<usize>) -> (r: Vec<usize>)
    ensures
        r@ == v@,
{
    let mut r: Vec<usize> = Vec::new();
    let mut i: usize = 0;
    while i < v.len()
        invariant
            i <= v@.len(),
            r@ == v@.take(i as int),
        decreases v@.len() - i,
    {
        r.push(v[i]);
        proof {
            assert(v@.take(i + 1) == v@.take(i as int).push(v@[i as int]));
        }
        i = i + 1;
    }
    proof {
        assert(v@.take(i as int) == v@);
    }
    r
}

/// A copy of a node.
pub fn copy_node(n: &ExpressionNode) -> (r: ExpressionNode)
    ensures
        same_node(r, *n),
{
    ExpressionNode {
        id: n.id,
        kind: copy_text(&n.kind),
        children: copy_usizes(&n.children),
        name: copy_opt_text(&n.name),
        index: n.index,
        value: copy_opt_text(&n.value),
        binder_info: copy_opt_text(&n.binder_info),
        universe_levels: copy_texts(&n.universe_levels),
    }
}

/// A copy of a graph.
pub fn copy_graph(g: &ExpressionGraph) -> (r: ExpressionGraph)
    ensures
        same_graph(r, *g),
{
    let mut nodes: Vec<ExpressionNode> = Vec::new();
    let mut i: usize = 0;
    while i < g.nodes.len()
        invariant
            i <= g.nodes@.len(),
            nodes@.len() == i,
            forall|j: int| 0 <= j < i ==> same_node(#[trigger] nodes@[j], g.nodes@[j]),
        decreases g.nodes@.len() - i,
    {
        nodes.push(copy_node(&g.nodes[i]));
        i = i + 1;
    }
    ExpressionGraph { root: g.root, nodes }
}

/// A copy of a context entry.
pub fn copy_entry(e: &ProofContextEntry) -> (r: ProofContextEntry)
    ensures
        same_entry(r, *e),
{
    ProofContextEntry {
        id: copy_text(&e.id),
        user_name: copy_text(&e.user_name),
        kind: copy_text(&e.kind),
        binder_info: copy_text(&e.binder_info),
        type_: copy_text(&e.type_),
        type_graph: copy_graph(&e.type_graph),
        value: copy_opt_text(&e.value),
    }
}

/// A copy of a proof step.
pub fn copy_step(p: &ProofStep) -> (r: ProofStep)
    ensures
        same_step(r, *p),
{
    let mut context: Vec<ProofContextEntry> = Vec::new();
    let mut i: usize = 0;
    while i < p.context.len()
        invariant
            i <= p.context@.len(),
            context@.len() == i,
            forall|j: int| 0 <= j < i ==> same_entry(#[trigger] context@[j], p.context@[j]),
        decreases p.context@.len() - i,
    {
        context.push(copy_entry(&p.context[i]));
        i = i + 1;
    }
    ProofStep {
        id: p.id,
        kind: copy_text(&p.kind),
        proposition: copy_text(&p.proposition),
        proposition_graph: copy_graph(&p.proposition_graph),
        context,
        scope: copy_texts(&p.scope),
        proof_term_path: copy_usizes(&p.proof_term_path),
        prerequisite_steps: copy_usizes(&p.prerequisite_steps),
        hypothesis_references: copy_texts(&p.hypothesis_references),
        named_references: copy_texts(&p.named_references),
    }
}

/// A copy of a list of proof steps.
pub fn copy_steps(v: &Vec<ProofStep>) -> (r: Vec<ProofStep>)
    ensures
        r@.len() == v@.len(),
        forall|i: int| 0 <= i < v@.len() ==> same_step(#[trigger] r@[i], v@[i]),
{
    let mut r: Vec<ProofStep> = Vec::new();
    let mut i: usize = 0;
    while i < v.len()
        invariant
            i <= v@.len(),
            r@.len() == i,
            forall|j: int| 0 <= j < i ==> same_step(#[trigger] r@[j], v@[j]),
        decreases v@.len() - i,
    {
        r.push(copy_step(&v[i]));
        i = i + 1;
    }
    r
}

} // verus!

