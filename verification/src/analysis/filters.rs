//! Which declarations, symbols and dependency layers an analysis considers.
use vstd::prelude::*;
use crate::model::{declaration_hidden, symbol_hidden, DeclarationSnapshot, SymbolSnapshot};
use crate::strings::{copy_opt_text, opt_view, text_eq};

verus! {

/// The dependency layers an analysis reads.
#[derive(Clone, Copy, Debug, PartialEq, Eq, Structural)]
pub enum LayerSelection {
    Statement,
    Proof,
    Both,
}

impl Default for LayerSelection {
    fn default() -> (r: Self)
        ensures
            r == LayerSelection::Both,
    {
        LayerSelection::Both
    }
}

/// Where a dependency occurs: in the statement (type) or in the proof (value).
#[derive(Clone, Copy, Debug, PartialEq, Eq, Structural, PartialOrd, Ord, Hash)]
pub enum DependencyLayer {
    Statement,
    Proof,
}

/// Statement sorts before proof.
pub open spec fn layer_rank(layer: DependencyLayer) -> int {
    match layer {
        DependencyLayer::Statement => 0,
        DependencyLayer::Proof => 1,
    }
}

/// The selection reads the layer.
pub open spec fn selection_includes(selection: LayerSelection, layer: DependencyLayer) -> bool {
    match selection {
        LayerSelection::Both => true,
        LayerSelection::Statement => layer == DependencyLayer::Statement,
        LayerSelection::Proof => layer == DependencyLayer::Proof,
    }
}

impl LayerSelection {
    /// Whether the selection reads `layer`.
    pub fn includes(self, layer: DependencyLayer) -> (r: bool)
        ensures
            r == selection_includes(self, layer),
    {
        match (self, layer) {
            (LayerSelection::Both, _) => true,
            (LayerSelection::Statement, DependencyLayer::Statement) => true,
            (LayerSelection::Proof, DependencyLayer::Proof) => true,
            _ => false,
        }
    }
}

/// The explicit filter that every analysis records with its result.
#[derive(Clone, Debug)]
pub struct AnalysisFilter {
    pub include_generated: bool,
    pub include_infrastructure: bool,
    pub internal_only: bool,
    pub source_backed_only: bool,
    pub declaration_kind: Option<String>,
    pub module: Option<String>,
    pub layer: LayerSelection,
}

/// The default filter: authored, non-infrastructure items of both layers.
pub open spec fn default_filter_spec(f: AnalysisFilter) -> bool {
    &&& !f.include_generated
    &&& !f.include_infrastructure
    &&& !f.internal_only
    &&& !f.source_backed_only
    &&& f.declaration_kind.is_none()
    &&& f.module.is_none()
    &&& f.layer == LayerSelection::Both
}

/// The filter that admits every declaration and symbol of both layers.
pub open spec fn all_filter_spec(f: AnalysisFilter) -> bool {
    &&& f.include_generated
    &&& f.include_infrastructure
    &&& !f.internal_only
    &&& !f.source_backed_only
    &&& f.declaration_kind.is_none()
    &&& f.module.is_none()
    &&& f.layer == LayerSelection::Both
}

impl Default for AnalysisFilter {
    fn default() -> (r: Self)
        ensures
            default_filter_spec(r),
    {
        AnalysisFilter {
            include_generated: false,
            include_infrastructure: false,
            internal_only: false,
            source_backed_only: false,
            declaration_kind: None,
            module: None,
            layer: LayerSelection::Both,
        }
    }
}

/// The filter admits the declaration.
pub open spec fn filter_matches_declaration(f: AnalysisFilter, d: DeclarationSnapshot) -> bool {
    &&& (f.include_generated || !declaration_hidden(d))
    &&& (!f.source_backed_only || d.source_range.is_some())
    &&& (f.declaration_kind matches Some(kind) ==> kind@ == d.kind@)
    &&& (f.module matches Some(module) ==> opt_view(&d.module_name) == Some(module@))
}

/// The filter admits the symbol as a dependency target.
pub open spec fn filter_matches_symbol(f: AnalysisFilter, s: SymbolSnapshot, belongs_to_corpus: bool) -> bool {
    &&& (!f.internal_only || belongs_to_corpus)
    &&& (f.include_generated || !symbol_hidden(s))
    &&& (f.include_infrastructure || !(s.is_class || s.is_instance || s.is_projection))
}

impl AnalysisFilter {
    /// The filter that admits every declaration and symbol of both layers.
    pub fn all() -> (r: Self)
        ensures
            all_filter_spec(r),
    {
        AnalysisFilter {
            include_generated: true,
            include_infrastructure: true,
            internal_only: false,
            source_backed_only: false,
            declaration_kind: None,
            module: None,
            layer: LayerSelection::Both,
        }
    }

    /// Whether the filter admits the declaration.
    pub fn matches_declaration(&self, declaration: &DeclarationSnapshot) -> (r: bool)
        ensures
            r == filter_matches_declaration(*self, *declaration),
    {
        if !(self.include_generated || !declaration.is_hidden_by_default()) {
            return false;
        }
        if self.source_backed_only && declaration.source_range.is_none() {
            return false;
        }
        if let Some(kind) = &self.declaration_kind {
            if !text_eq(kind.as_str(), declaration.kind.as_str()) {
                return false;
            }
        }
        if let Some(module) = &self.module {
            match &declaration.module_name {
                Some(name) => {
                    if !text_eq(name.as_str(), module.as_str()) {
                        return false;
                    }
                },
                None => {
                    return false;
                },
            }
        }
        true
    }

    /// Whether the filter admits the symbol as a dependency target.
    pub fn matches_symbol(&self, symbol: &SymbolSnapshot, belongs_to_corpus: bool) -> (r: bool)
        ensures
            r == filter_matches_symbol(*self, *symbol, belongs_to_corpus),
    {
        (!self.internal_only || belongs_to_corpus) && (self.include_generated
            || !symbol.is_hidden_by_default()) && (self.include_infrastructure
            || !symbol.is_infrastructure())
    }
}


/// Two filters admit the same items: their settings agree.
pub open spec fn same_filter(a: AnalysisFilter, b: AnalysisFilter) -> bool {
    &&& a.include_generated == b.include_generated
    &&& a.include_infrastructure == b.include_infrastructure
    &&& a.internal_only == b.internal_only
    &&& a.source_backed_only == b.source_backed_only
    &&& opt_view(&a.declaration_kind) == opt_view(&b.declaration_kind)
    &&& opt_view(&a.module) == opt_view(&b.module)
    &&& a.layer == b.layer
}

/// A copy of the filter.
pub fn copy_filter(f: &AnalysisFilter) -> (r: AnalysisFilter)
    ensures
        same_filter(r, *f),
{
    AnalysisFilter {
        include_generated: f.include_generated,
        include_infrastructure: f.include_infrastructure,
        internal_only: f.internal_only,
        source_backed_only: f.source_backed_only,
        declaration_kind: copy_opt_text(&f.declaration_kind),
        module: copy_opt_text(&f.module),
        layer: f.layer,
    }
}

/// The filter `all` admits every declaration, every symbol and both layers.
pub proof fn lemma_all_admits_everything(
    f: AnalysisFilter,
    d: DeclarationSnapshot,
    sym: SymbolSnapshot,
    belongs_to_corpus: bool,
    layer: DependencyLayer,
)
    requires
        all_filter_spec(f),
    ensures
        filter_matches_declaration(f, d),
        filter_matches_symbol(f, sym, belongs_to_corpus),
        selection_includes(f.layer, layer),
{
}

/// The default filter keeps both layers and exactly the authored
/// declarations, and among symbols exactly the authored ones that are no
/// class, instance or projection.
pub proof fn lemma_default_hides_generated_and_infrastructure(
    f: AnalysisFilter,
    d: DeclarationSnapshot,
    sym: SymbolSnapshot,
    belongs_to_corpus: bool,
    layer: DependencyLayer,
)
    requires
        default_filter_spec(f),
    ensures
        filter_matches_declaration(f, d) <==> !declaration_hidden(d),
        filter_matches_symbol(f, sym, belongs_to_corpus)
            <==> (!symbol_hidden(sym) && !(sym.is_class || sym.is_instance || sym.is_projection)),
        selection_includes(f.layer, layer),
{
}

} // verus!
