//! Presentation helpers for the interactive explorer.
use vstd::prelude::*;
use crate::analysis::corpus::{declaration_known, AnalysisCorpus, DependencyEdge};
use crate::analysis::proof_steps::{
    build_proof_outline, outline_reports, proof_steps_valid, retained_ids, ProofOutlineEdge, ProofOutlineEvidence,
};
use crate::analysis::corpus::layer_graph;
use crate::validation::symbol_known;
use crate::analysis::dependency::{chain_ok, path_found, path_reachable, DependencyConfig, DependencyPath};
use crate::analysis::filters::{all_filter_spec, AnalysisFilter};
use crate::analysis::filters::DependencyLayer;
use crate::analysis::structure::{
    feed_texts, fingerprint_text, fingerprints_of, hex_fixed, le_bytes, le_bytes_of, lemma_layer_graph_valid, StructuralMode,
};
use crate::error::SieveError;
use crate::hashing::{feed, feed_spec, FNV_OFFSET};
use crate::model::{DeclarationSnapshot, ExtractionSnapshot, ProofStepExtraction};
use vstd::utf8::encode_utf8;
use crate::strings::{
    append_text, chars_of, decimal, decimal_text, normalize_space, normalized_chars, opt_view, text_eq, text_from, text_of_chars,
    texts_view,
};

verus! {

/// The statement with its words joined by single spaces, cut to at most
/// `maximum` characters with a trailing ellipsis where it is longer.
pub open spec fn concise_text(statement: Seq<char>, maximum: nat) -> Seq<char> {
    let normalized = normalize_space(statement);
    if normalized.len() <= maximum {
        normalized
    } else {
        normalized.take(if maximum == 0 { 0 } else { maximum - 1 }).push('…')
    }
}

/// A one-line rendering of a statement, at most `maximum` characters where
/// `maximum` is positive.
pub fn concise(statement: &str, maximum: usize) -> (r: String)
    ensures
        r@ == concise_text(statement@, maximum as nat),
{
    let normalized = normalized_chars(statement);
    if normalized.len() <= maximum {
        return text_of_chars(&normalized);
    }
    let keep = if maximum == 0 { 0 } else { maximum - 1 };
    let mut cut: Vec<char> = Vec::new();
    let mut i: usize = 0;
    while i < keep
        invariant
            keep < normalized@.len(),
            i <= keep,
            cut@ == normalized@.take(i as int),
        decreases keep - i,
    {
        cut.push(normalized[i]);
        proof {
            assert(normalized@.take(i + 1) == normalized@.take(i as int).push(normalized@[i as int]));
        }
        i = i + 1;
    }
    cut.push('…');
    text_of_chars(&cut)
}


/// How many raw steps the raw proof view shows from the start of a proof.
pub const RAW_STEP_PREFIX: usize = 60;

/// A proof step shown in a proof view; retained steps are outline nodes.
#[derive(Clone, Copy, Debug, PartialEq, Eq, Structural)]
pub struct ProofViewStep {
    pub step: usize,
    pub retained: bool,
}

/// An edge of a proof view: a raw prerequisite edge, or a condensed outline
/// edge with the number of raw steps it hides.
#[derive(Clone, Copy, Debug, PartialEq, Eq, Structural)]
pub struct ProofViewEdge {
    pub source: usize,
    pub target: usize,
    pub collapsed_steps: Option<usize>,
}

/// The proof of one declaration as the explorer shows it: the outline, or
/// raw steps around it.
#[derive(Clone, Debug)]
pub struct ProofView {
    pub declaration: String,
    pub complete: bool,
    pub truncation_reason: Option<String>,
    pub conclusion_step: Option<usize>,
    pub steps: Vec<ProofViewStep>,
    pub edges: Vec<ProofViewEdge>,
}

/// The name of the condensed proof edge from `source` to `target`.
pub open spec fn proof_path_name(source: usize, target: usize) -> Seq<char> {
    "proof-path-"@ + decimal(source as nat) + "-"@ + decimal(target as nat)
}

/// The position, from `k` on, of the first condensed edge called `name`.
pub open spec fn first_named(edges: Seq<ProofOutlineEdge>, name: Seq<char>, k: int) -> Option<int>
    decreases edges.len() - k,
{
    if k < 0 || k >= edges.len() {
        None
    } else if proof_path_name(edges[k].source, edges[k].target) == name {
        Some(k)
    } else {
        first_named(edges, name, k + 1)
    }
}

/// The view shows step `x`: every retained step and, in the raw view, the
/// steps of the chosen condensed path or else the first steps and the
/// conclusion.
pub open spec fn view_shows(e: ProofStepExtraction, o: ProofOutlineEvidence, raw: bool, named: Option<int>, x: usize) -> bool {
    ||| retained_ids(o).contains(x)
    ||| raw && match named {
        Some(k) => o.condensed_edges@[k].raw_step_path@.contains(x),
        None => (x < RAW_STEP_PREFIX && x < e.steps@.len()) || e.conclusion_step == Some(x),
    }
}

/// The steps below `n` the view shows, in order.
pub open spec fn shown_upto(e: ProofStepExtraction, o: ProofOutlineEvidence, raw: bool, named: Option<int>, n: int) -> Seq<usize>
    decreases n,
{
    if n <= 0 {
        Seq::empty()
    } else if view_shows(e, o, raw, named, (n - 1) as usize) {
        shown_upto(e, o, raw, named, n - 1).push((n - 1) as usize)
    } else {
        shown_upto(e, o, raw, named, n - 1)
    }
}

/// The first `m` raw edges whose ends the view shows, in order.
pub open spec fn kept_raw_edges(e: ProofStepExtraction, o: ProofOutlineEvidence, named: Option<int>, m: int) -> Seq<ProofViewEdge>
    decreases m,
{
    if m <= 0 {
        Seq::empty()
    } else {
        let edge = o.raw_edges@[m - 1];
        let prev = kept_raw_edges(e, o, named, m - 1);
        if view_shows(e, o, true, named, edge.source) && view_shows(e, o, true, named, edge.target) {
            prev.push(ProofViewEdge { source: edge.source, target: edge.target, collapsed_steps: None })
        } else {
            prev
        }
    }
}

/// The view edge of a condensed outline edge.
pub open spec fn condensed_view_edge(edge: ProofOutlineEdge) -> ProofViewEdge {
    let len = edge.raw_step_path@.len();
    ProofViewEdge {
        source: edge.source,
        target: edge.target,
        collapsed_steps: Some(if len >= 2 { (len - 2) as usize } else { 0 }),
    }
}

/// `v` is the view of `o`, the outline of the proof `e` of `name`.
pub open spec fn proof_view_of(
    e: ProofStepExtraction,
    o: ProofOutlineEvidence,
    name: Seq<char>,
    raw: bool,
    path: Option<Seq<char>>,
    v: ProofView,
) -> bool {
    let named = if raw && path is Some { first_named(o.condensed_edges@, path->0, 0) } else { None };
    &&& !(raw && path is Some && named is None)
    &&& v.declaration@ == name
    &&& v.complete == o.complete
    &&& opt_view(&v.truncation_reason) == opt_view(&o.truncation_reason)
    &&& v.conclusion_step == o.conclusion_step
    &&& v.steps@.map_values(|s: ProofViewStep| s.step) == shown_upto(e, o, raw, named, e.steps@.len() as int)
    &&& forall|k: int| 0 <= k < v.steps@.len() ==> (#[trigger] v.steps@[k]).retained == retained_ids(o).contains(v.steps@[k].step)
    &&& v.edges@ == if raw {
        kept_raw_edges(e, o, named, o.raw_edges@.len() as int)
    } else {
        o.condensed_edges@.map_values(|edge: ProofOutlineEdge| condensed_view_edge(edge))
    }
}

/// `v` is the view of the proof of the declaration `name`.
pub open spec fn proof_view_shown(s: ExtractionSnapshot, name: Seq<char>, raw: bool, path: Option<Seq<char>>, v: ProofView) -> bool {
    exists|i: int| 0 <= i < s.declarations@.len() && #[trigger] s.declarations@[i].name@ == name && {
        match s.declarations@[i].proof_steps {
            Some(e) => proof_steps_valid(e) && exists|o: ProofOutlineEvidence| #[trigger] outline_reports(e, o)
                && proof_view_of(e, o, name, raw, path, v),
            None => false,
        }
    }
}

/// Why the proof view of `name` is refused with `message`.
pub open spec fn proof_view_refused(s: ExtractionSnapshot, name: Seq<char>, raw: bool, path: Option<Seq<char>>, message: Seq<char>) -> bool {
    ||| !declaration_known(s, name) && message == "unknown declaration "@ + name
    ||| exists|i: int| 0 <= i < s.declarations@.len() && #[trigger] s.declarations@[i].name@ == name && {
        let d = s.declarations@[i];
        ||| d.proof_steps is None && message == "proof-step extraction is unavailable for "@ + name
        ||| d.proof_steps matches Some(e) && !proof_steps_valid(e)
        ||| d.proof_steps matches Some(e) && (proof_steps_valid(e) && raw && (path matches Some(p)
            && message == "unknown condensed proof path "@ + p
            && exists|o: ProofOutlineEvidence| #[trigger] outline_reports(e, o) && first_named(o.condensed_edges@, p, 0) is None))
    }
}

/// The name of the condensed proof edge from `source` to `target`.
fn proof_path_text(source: usize, target: usize) -> (r: String)
    ensures
        r@ == proof_path_name(source, target),
{
    let mut r = text_from("proof-path-");
    append_text(&mut r, decimal_text(source).as_str());
    append_text(&mut r, "-");
    append_text(&mut r, decimal_text(target).as_str());
    r
}

/// The position of the first condensed edge called `name`.
fn find_named(edges: &Vec<ProofOutlineEdge>, name: &str) -> (r: Option<usize>)
    ensures
        match first_named(edges@, name@, 0) {
            Some(k) => r == Some(k as usize),
            None => r is None,
        },
        r matches Some(k) ==> k < edges@.len() && first_named(edges@, name@, 0) == Some(k as int),
{
    proof {
        lemma_first_named_range(edges@, name@, 0);
    }
    let mut k: usize = 0;
    while k < edges.len()
        invariant
            k <= edges@.len(),
            first_named(edges@, name@, 0) == first_named(edges@, name@, k as int),
        decreases edges.len() - k,
    {
        let candidate = proof_path_text(edges[k].source, edges[k].target);
        if text_eq(candidate.as_str(), name) {
            return Some(k);
        }
        k = k + 1;
    }
    None
}


/// Every step on a raw path is a step of the proof.
proof fn lemma_raw_path_steps(e: ProofStepExtraction, p: Seq<usize>, q: int)
    requires
        crate::analysis::proof_steps::raw_path(e, p),
        0 <= q < p.len(),
    ensures
        p[q] < e.steps@.len(),
{
    if q > 0 {
        let i = q - 1;
        assert(p[i] < p[i + 1] && p[i + 1] < e.steps@.len());
    } else {
        assert(p.len() >= 2);
        let i: int = 0;
        assert(0 <= i < p.len() - 1);
        assert(p[i] < p[i + 1]);
        assert(p[i + 1] < e.steps@.len());
        assert(p[i] < e.steps@.len());
    }
}

/// The first edge with a name lies at or after where the search starts.
proof fn lemma_first_named_range(edges: Seq<ProofOutlineEdge>, name: Seq<char>, k: int)
    ensures
        first_named(edges, name, k) matches Some(j) ==> k <= j < edges.len(),
    decreases edges.len() - k,
{
    if 0 <= k < edges.len() && proof_path_name(edges[k].source, edges[k].target) != name {
        lemma_first_named_range(edges, name, k + 1);
    }
}

/// A step the view shows is a step of the proof.
proof fn lemma_shown_is_step(e: ProofStepExtraction, o: ProofOutlineEvidence, raw: bool, named: Option<int>, x: usize)
    requires
        proof_steps_valid(e),
        outline_reports(e, o),
        named matches Some(k) ==> 0 <= k < o.condensed_edges@.len(),
        raw && named is None && e.conclusion_step is Some ==> e.conclusion_step->0 < e.steps@.len(),
        view_shows(e, o, raw, named, x),
    ensures
        x < e.steps@.len(),
{
    let ids = retained_ids(o);
    if ids.contains(x) {
        let k = choose|k: int| 0 <= k < ids.len() && ids[k] == x;
        assert(o.retained_nodes@[k].raw_step_id == x);
    } else if raw && named is Some {
        let k = named->0;
        let c = e.conclusion_step->0;
        assert(crate::analysis::proof_steps::condensed_edge_ok(e, c as int, ids, o.condensed_edges@[k]));
        let p = o.condensed_edges@[k].raw_step_path@;
        let i = choose|i: int| 0 <= i < p.len() && p[i] == x;
        lemma_raw_path_steps(e, p, i);
    }
}

/// Marks the steps the view shows, and the retained ones.
fn shown_marks(e: &ProofStepExtraction, o: &ProofOutlineEvidence, raw: bool, named: Option<usize>) -> (r: (Vec<bool>, Vec<bool>))
    requires
        proof_steps_valid(*e),
        outline_reports(*e, *o),
        named matches Some(k) ==> k < o.condensed_edges@.len(),
        raw && named is None && e.conclusion_step is Some ==> e.conclusion_step->0 < e.steps@.len(),
    ensures
        r.0@.len() == e.steps@.len(),
        r.1@.len() == e.steps@.len(),
        forall|x: int| 0 <= x < r.0@.len() ==> #[trigger] r.0@[x] == view_shows(*e, *o, raw, opt_int(named), x as usize),
        forall|x: int| 0 <= x < r.1@.len() ==> #[trigger] r.1@[x] == retained_ids(*o).contains(x as usize),
{
    let n = e.steps.len();
    let ghost ids = retained_ids(*o);
    let mut shown: Vec<bool> = Vec::new();
    let mut i: usize = 0;
    while i < n
        invariant
            i <= n,
            shown@.len() == i,
            forall|x: int| 0 <= x < i ==> !#[trigger] shown@[x],
        decreases n - i,
    {
        shown.push(false);
        i = i + 1;
    }
    let nodes = &o.retained_nodes;
    let mut j: usize = 0;
    while j < nodes.len()
        invariant
            n == e.steps@.len(),
            outline_reports(*e, *o),
            ids == retained_ids(*o),
            nodes@ == o.retained_nodes@,
            j <= nodes@.len(),
            shown@.len() == n,
            forall|x: int| 0 <= x < n ==> #[trigger] shown@[x] == ids.take(j as int).contains(x as usize),
        decreases nodes.len() - j,
    {
        let id = nodes[j].raw_step_id;
        proof {
            assert(ids[j as int] == id);
            assert(crate::analysis::proof_steps::node_describes(*e, nodes@[j as int]));
        }
        shown.set(id, true);
        proof {
            assert forall|x: int| 0 <= x < n implies #[trigger] shown@[x] == ids.take(j + 1).contains(x as usize) by {
                let t = ids.take(j + 1);
                assert(t =~= ids.take(j as int).push(id));
                if x as usize == id {
                    assert(t[j as int] == id);
                } else if t.contains(x as usize) {
                    let w = choose|w: int| 0 <= w < t.len() && t[w] == x as usize;
                    assert(ids.take(j as int)[w] == x as usize);
                } else if ids.take(j as int).contains(x as usize) {
                    let w = choose|w: int| 0 <= w < j && ids.take(j as int)[w] == x as usize;
                    assert(t[w] == x as usize);
                }
            }
        }
        j = j + 1;
    }
    proof {
        assert(ids.take(nodes@.len() as int) =~= ids);
    }
    let kept = shown.clone();
    if raw {
        match named {
            Some(k) => {
                let path = &o.condensed_edges[k].raw_step_path;
                let ghost c = e.conclusion_step->0;
                proof {
                    assert(crate::analysis::proof_steps::condensed_edge_ok(*e, c as int, ids, o.condensed_edges@[k as int]));
                }
                let mut q: usize = 0;
                while q < path.len()
                    invariant
                        n == e.steps@.len(),
                        crate::analysis::proof_steps::raw_path(*e, path@),
                        q <= path@.len(),
                        shown@.len() == n,
                        forall|x: int| 0 <= x < n ==> #[trigger] shown@[x] == (ids.contains(x as usize) || path@.take(q as int).contains(x as usize)),
                    decreases path.len() - q,
                {
                    let x = path[q];
                    proof {
                        lemma_raw_path_steps(*e, path@, q as int);
                    }
                    shown.set(x, true);
                    proof {
                        assert forall|y: int| 0 <= y < n implies #[trigger] shown@[y] == (ids.contains(y as usize) || path@.take(q + 1).contains(y as usize)) by {
                            let t = path@.take(q + 1);
                            assert(t =~= path@.take(q as int).push(x));
                            if y as usize == x {
                                assert(t[q as int] == x);
                            } else if t.contains(y as usize) {
                                let w = choose|w: int| 0 <= w < t.len() && t[w] == y as usize;
                                assert(path@.take(q as int)[w] == y as usize);
                            } else if path@.take(q as int).contains(y as usize) {
                                let w = choose|w: int| 0 <= w < q && path@.take(q as int)[w] == y as usize;
                                assert(t[w] == y as usize);
                            }
                        }
                    }
                    q = q + 1;
                }
                proof {
                    assert(path@.take(path@.len() as int) =~= path@);
                }
            },
            None => {
                let limit = if n < RAW_STEP_PREFIX { n } else { RAW_STEP_PREFIX };
                let mut x: usize = 0;
                while x < limit
                    invariant
                        n == e.steps@.len(),
                        limit <= n,
                        limit == if n < RAW_STEP_PREFIX { n } else { RAW_STEP_PREFIX },
                        x <= limit,
                        shown@.len() == n,
                        forall|y: int| 0 <= y < n ==> #[trigger] shown@[y] == (ids.contains(y as usize) || y < x),
                    decreases limit - x,
                {
                    shown.set(x, true);
                    x = x + 1;
                }
                match e.conclusion_step {
                    Some(c) => {
                        shown.set(c, true);
                    },
                    None => {},
                }
            },
        }
    }
    (shown, kept)
}

/// The optional position as an integer.
pub open spec fn opt_int(k: Option<usize>) -> Option<int> {
    match k {
        Some(k) => Some(k as int),
        None => None,
    }
}


/// The steps the marks show, each with whether it is retained.
fn shown_steps(
    e: &ProofStepExtraction,
    o: &ProofOutlineEvidence,
    raw: bool,
    named: Ghost<Option<int>>,
    shown: &Vec<bool>,
    kept: &Vec<bool>,
) -> (r: Vec<ProofViewStep>)
    requires
        shown@.len() == e.steps@.len(),
        kept@.len() == e.steps@.len(),
        forall|x: int| 0 <= x < shown@.len() ==> #[trigger] shown@[x] == view_shows(*e, *o, raw, named@, x as usize),
        forall|x: int| 0 <= x < kept@.len() ==> #[trigger] kept@[x] == retained_ids(*o).contains(x as usize),
    ensures
        r@.map_values(|s: ProofViewStep| s.step) == shown_upto(*e, *o, raw, named@, e.steps@.len() as int),
        forall|k: int| 0 <= k < r@.len() ==> (#[trigger] r@[k]).retained == retained_ids(*o).contains(r@[k].step),
{
    let n = shown.len();
    let mut r: Vec<ProofViewStep> = Vec::new();
    let mut x: usize = 0;
    while x < n
        invariant
            n == e.steps@.len(),
            shown@.len() == n,
            kept@.len() == n,
            forall|y: int| 0 <= y < n ==> #[trigger] shown@[y] == view_shows(*e, *o, raw, named@, y as usize),
            forall|y: int| 0 <= y < n ==> #[trigger] kept@[y] == retained_ids(*o).contains(y as usize),
            x <= n,
            r@.map_values(|s: ProofViewStep| s.step) == shown_upto(*e, *o, raw, named@, x as int),
            forall|k: int| 0 <= k < r@.len() ==> (#[trigger] r@[k]).retained == retained_ids(*o).contains(r@[k].step),
        decreases n - x,
    {
        let ghost before = r@;
        if shown[x] {
            r.push(ProofViewStep { step: x, retained: kept[x] });
            proof {
                assert(r@.map_values(|s: ProofViewStep| s.step) =~= before.map_values(|s: ProofViewStep| s.step).push(x));
            }
        }
        x = x + 1;
    }
    r
}

/// The raw edges whose ends the marks show, in order.
fn shown_raw_edges(e: &ProofStepExtraction, o: &ProofOutlineEvidence, named: Ghost<Option<int>>, shown: &Vec<bool>) -> (r: Vec<ProofViewEdge>)
    requires
        proof_steps_valid(*e),
        outline_reports(*e, *o),
        named@ matches Some(k) ==> 0 <= k < o.condensed_edges@.len(),
        named@ is None && e.conclusion_step is Some ==> e.conclusion_step->0 < e.steps@.len(),
        shown@.len() == e.steps@.len(),
        forall|x: int| 0 <= x < shown@.len() ==> #[trigger] shown@[x] == view_shows(*e, *o, true, named@, x as usize),
    ensures
        r@ == kept_raw_edges(*e, *o, named@, o.raw_edges@.len() as int),
{
    let n = shown.len();
    let edges = &o.raw_edges;
    let mut r: Vec<ProofViewEdge> = Vec::new();
    let mut j: usize = 0;
    while j < edges.len()
        invariant
            proof_steps_valid(*e),
            outline_reports(*e, *o),
            named@ matches Some(k) ==> 0 <= k < o.condensed_edges@.len(),
            named@ is None && e.conclusion_step is Some ==> e.conclusion_step->0 < e.steps@.len(),
            n == e.steps@.len(),
            shown@.len() == n,
            forall|y: int| 0 <= y < n ==> #[trigger] shown@[y] == view_shows(*e, *o, true, named@, y as usize),
            edges@ == o.raw_edges@,
            j <= edges@.len(),
            r@ == kept_raw_edges(*e, *o, named@, j as int),
        decreases edges.len() - j,
    {
        let source = edges[j].source;
        let target = edges[j].target;
        proof {
            if view_shows(*e, *o, true, named@, source) {
                lemma_shown_is_step(*e, *o, true, named@, source);
            }
            if view_shows(*e, *o, true, named@, target) {
                lemma_shown_is_step(*e, *o, true, named@, target);
            }
        }
        if source < n && target < n && shown[source] && shown[target] {
            r.push(ProofViewEdge { source, target, collapsed_steps: None });
        }
        j = j + 1;
    }
    r
}

/// The condensed outline edges as view edges.
fn condensed_edges_view(o: &ProofOutlineEvidence) -> (r: Vec<ProofViewEdge>)
    ensures
        r@ == o.condensed_edges@.map_values(|edge: ProofOutlineEdge| condensed_view_edge(edge)),
{
    let edges = &o.condensed_edges;
    let mut r: Vec<ProofViewEdge> = Vec::new();
    let mut j: usize = 0;
    while j < edges.len()
        invariant
            edges@ == o.condensed_edges@,
            j <= edges@.len(),
            r@ == edges@.take(j as int).map_values(|edge: ProofOutlineEdge| condensed_view_edge(edge)),
        decreases edges.len() - j,
    {
        let len = edges[j].raw_step_path.len();
        r.push(ProofViewEdge {
            source: edges[j].source,
            target: edges[j].target,
            collapsed_steps: Some(if len >= 2 { len - 2 } else { 0 }),
        });
        proof {
            assert(edges@.take(j + 1) =~= edges@.take(j as int).push(edges@[j as int]));
            assert(r@ =~= edges@.take(j + 1).map_values(|edge: ProofOutlineEdge| condensed_view_edge(edge)));
        }
        j = j + 1;
    }
    proof {
        assert(edges@.take(edges@.len() as int) =~= edges@);
    }
    r
}

/// The view of the outline `o` of the proof `e` of `name`.
fn outline_view(
    name: &str,
    e: &ProofStepExtraction,
    o: &ProofOutlineEvidence,
    raw: bool,
    path: Ghost<Option<Seq<char>>>,
    named: Option<usize>,
) -> (v: ProofView)
    requires
        proof_steps_valid(*e),
        outline_reports(*e, *o),
        named matches Some(k) ==> k < o.condensed_edges@.len(),
        raw && named is None && e.conclusion_step is Some ==> e.conclusion_step->0 < e.steps@.len(),
        opt_int(named) == if raw && path@ is Some { first_named(o.condensed_edges@, path@->0, 0) } else { None },
        !(raw && path@ is Some && named is None),
    ensures
        proof_view_of(*e, *o, name@, raw, path@, v),
{
    let ghost named_k = opt_int(named);
    let marks = shown_marks(e, o, raw, named);
    let steps = shown_steps(e, o, raw, Ghost(named_k), &marks.0, &marks.1);
    let edges = if raw {
        shown_raw_edges(e, o, Ghost(named_k), &marks.0)
    } else {
        condensed_edges_view(o)
    };
    ProofView {
        declaration: text_from(name),
        complete: o.complete,
        truncation_reason: o.truncation_reason.clone(),
        conclusion_step: o.conclusion_step,
        steps,
        edges,
    }
}

/// The proof of `declaration_name` as the explorer shows it. With `detail`
/// `raw` it adds the raw steps of the condensed path named `path`, or else
/// the first raw steps and the conclusion, and shows raw edges; otherwise it
/// shows the outline with its condensed edges.
pub fn proof_view(corpus: &AnalysisCorpus, declaration_name: &str, detail: &str, path: Option<&str>) -> (r: Result<ProofView, SieveError>)
    requires
        detail@ == "raw"@ && path is None ==> forall|i: int| 0 <= i < corpus.snapshot_view().declarations@.len()
            && #[trigger] corpus.snapshot_view().declarations@[i].name@ == declaration_name@
            ==> (corpus.snapshot_view().declarations@[i].proof_steps matches Some(e)
                ==> (e.conclusion_step matches Some(c) ==> c < e.steps@.len())),
    ensures
        match r {
            Ok(v) => proof_view_shown(corpus.snapshot_view(), declaration_name@, detail@ == "raw"@, opt_str(path), v),
            Err(err) => proof_view_refused(corpus.snapshot_view(), declaration_name@, detail@ == "raw"@, opt_str(path), err.message@),
        },
{
    let declaration = match corpus.declaration(declaration_name) {
        Some(d) => d,
        None => {
            return Err(SieveError::about("unknown declaration ", declaration_name));
        },
    };
    let ghost s = corpus.snapshot_view();
    let ghost i = choose|i: int| 0 <= i < s.declarations@.len() && s.declarations@[i] == *declaration;
    let extraction = match &declaration.proof_steps {
        Some(e) => e,
        None => {
            return Err(SieveError::about("proof-step extraction is unavailable for ", declaration_name));
        },
    };
    let outline = match build_proof_outline(extraction) {
        Ok(o) => o,
        Err(err) => {
            return Err(err);
        },
    };
    let raw = text_eq(detail, "raw");
    let mut named: Option<usize> = None;
    if raw {
        match path {
            Some(p) => {
                match find_named(&outline.condensed_edges, p) {
                    Some(k) => {
                        named = Some(k);
                    },
                    None => {
                        return Err(SieveError::about("unknown condensed proof path ", p));
                    },
                }
            },
            None => {},
        }
    }
    let view = outline_view(declaration_name, extraction, &outline, raw, Ghost(opt_str(path)), named);
    proof {
        assert(s.declarations@[i].name@ == declaration_name@);
        assert(outline_reports(*extraction, outline));
    }
    Ok(view)
}

/// The optional text as characters.
pub open spec fn opt_str(t: Option<&str>) -> Option<Seq<char>> {
    match t {
        Some(t) => Some(t@),
        None => None,
    }
}


/// Feeds each declaration's name and the exact fingerprint of its statement.
pub open spec fn feed_declarations(h: u64, ds: Seq<DeclarationSnapshot>) -> u64
    decreases ds.len(),
{
    if ds.len() == 0 {
        h
    } else {
        let d = ds.last();
        feed_spec(
            feed_spec(feed_declarations(h, ds.drop_last()), encode_utf8(d.name@)),
            le_bytes(fingerprints_of(d.type_graph, StructuralMode::Exact)[d.type_graph.root as int]),
        )
    }
}

/// The hash that identifies a corpus: its schema and Lean versions, its
/// imported modules, and each declaration's name and statement structure.
pub open spec fn corpus_fingerprint_value(s: ExtractionSnapshot) -> u64 {
    let h0 = feed_spec(FNV_OFFSET, le_bytes(s.schema_version as u64));
    let h1 = feed_spec(h0, encode_utf8(s.lean_version@));
    feed_declarations(feed_texts(h1, texts_view(s.imported_modules@)), s.declarations@)
}

/// The corpus fingerprint as sixteen hexadecimal digits.
pub fn corpus_fingerprint(corpus: &AnalysisCorpus) -> (r: String)
    ensures
        r@ == hex_fixed(corpus_fingerprint_value(corpus.snapshot_view()) as nat, 16),
{
    proof {
        use_type_invariant(corpus);
    }
    let s = corpus.snapshot();
    let mut hash = FNV_OFFSET;
    let schema = le_bytes_of(s.schema_version as u64);
    feed(&mut hash, schema.as_slice());
    feed(&mut hash, s.lean_version.as_str().as_bytes());
    let ghost h1 = hash;
    let modules = &s.imported_modules;
    let mut k: usize = 0;
    while k < modules.len()
        invariant
            k <= modules@.len(),
            hash == feed_texts(h1, texts_view(modules@.take(k as int))),
        decreases modules.len() - k,
    {
        proof {
            assert(texts_view(modules@.take(k + 1)).drop_last() =~= texts_view(modules@.take(k as int)));
        }
        feed(&mut hash, modules[k].as_str().as_bytes());
        k = k + 1;
    }
    proof {
        assert(modules@.take(modules@.len() as int) =~= modules@);
    }
    let ghost h2 = hash;
    let ds = &s.declarations;
    let mut j: usize = 0;
    while j < ds.len()
        invariant
            *s == corpus.snapshot_view(),
            crate::validation::snapshot_valid(*s),
            ds@ == s.declarations@,
            j <= ds@.len(),
            hash == feed_declarations(h2, ds@.take(j as int)),
        decreases ds.len() - j,
    {
        proof {
            assert(ds@.take(j + 1).drop_last() =~= ds@.take(j as int));
            lemma_layer_graph_valid(*s, j as int, DependencyLayer::Statement);
            assert(layer_graph(ds@[j as int], DependencyLayer::Statement) == Some(ds@[j as int].type_graph));
        }
        feed(&mut hash, ds[j].name.as_str().as_bytes());
        let root = ds[j].type_graph.root_fingerprint(StructuralMode::Exact);
        let bytes = le_bytes_of(root);
        feed(&mut hash, bytes.as_slice());
        j = j + 1;
    }
    proof {
        assert(ds@.take(ds@.len() as int) =~= ds@);
    }
    fingerprint_text(hash)
}


/// The name a graph identifier stands for: without a leading `decl:`.
pub open spec fn without_declaration_prefix(t: Seq<char>) -> Seq<char> {
    if t.len() >= 5 && t.take(5) == "decl:"@ { t.skip(5) } else { t }
}

/// The name a graph identifier stands for.
fn strip_declaration_prefix(t: &str) -> (r: String)
    ensures
        r@ == without_declaration_prefix(t@),
{
    let c = chars_of(t);
    proof {
        reveal_strlit("decl:");
    }
    if c.len() >= 5 && c[0] == 'd' && c[1] == 'e' && c[2] == 'c' && c[3] == 'l' && c[4] == ':' {
        let mut rest: Vec<char> = Vec::new();
        let mut k: usize = 5;
        while k < c.len()
            invariant
                5 <= k <= c@.len(),
                rest@ == c@.subrange(5, k as int),
            decreases c.len() - k,
        {
            rest.push(c[k]);
            proof {
                assert(c@.subrange(5, k + 1) =~= c@.subrange(5, k as int).push(c@[k as int]));
            }
            k = k + 1;
        }
        proof {
            assert(c@.take(5) =~= "decl:"@);
            assert(c@.skip(5) =~= c@.subrange(5, c@.len() as int));
        }
        text_of_chars(&rest)
    } else {
        proof {
            if c@.len() >= 5 && c@.take(5) == "decl:"@ {
                assert(c@.take(5)[0] == 'd' && c@.take(5)[1] == 'e' && c@.take(5)[2] == 'c');
                assert(c@.take(5)[3] == 'l' && c@.take(5)[4] == ':');
            }
        }
        text_from(t)
    }
}

/// The dependency paths that witness a connection between two declarations.
#[derive(Clone, Debug)]
pub struct WitnessResponse {
    pub source: String,
    pub target: String,
    pub paths: Vec<DependencyPath>,
}

/// The settings witness paths are searched with: every declaration and
/// symbol, depth 32, limit 500.
pub open spec fn witness_config(c: DependencyConfig) -> bool {
    &&& all_filter_spec(c.filter)
    &&& !c.weighted
    &&& c.max_depth == 32
    &&& c.limit == 500
}

/// What the witness search between `s` and `t` gives under `c`: the path
/// from `t` to `s` where one exists, then, where room is left within
/// `limit` (counted between 1 and 10), the path from `s` to `t`; an error
/// naming both where neither exists.
pub open spec fn witness_outcome(sv: ExtractionSnapshot, edges: Seq<DependencyEdge>, c: DependencyConfig, s: Seq<char>, t: Seq<char>,
    limit: usize, r: Result<WitnessResponse, SieveError>) -> bool {
    let back = declaration_known(sv, t) && symbol_known(sv, s) && path_reachable(sv, edges, c.filter, t, s, c.max_depth as int);
    let fwd = declaration_known(sv, s) && symbol_known(sv, t) && path_reachable(sv, edges, c.filter, s, t, c.max_depth as int);
    let cap: int = if limit < 1 { 1 } else if limit > 10 { 10 } else { limit as int };
    let second = fwd && (!back || cap >= 2);
    match r {
        Ok(w) => {
            &&& back || fwd
            &&& w.source@ == s
            &&& w.target@ == t
            &&& w.paths@.len() == (if back { 1int } else { 0int }) + (if second { 1int } else { 0int })
            &&& back ==> path_found(sv, edges, c, t, s, w.paths@[0])
            &&& back ==> forall|names: Seq<Seq<char>>| #[trigger] chain_ok(sv, edges, c.filter, names, t, s, c.max_depth as int)
                ==> w.paths@[0].layers@.len() <= names.len() - 1
            &&& second ==> path_found(sv, edges, c, s, t, w.paths@.last())
            &&& second ==> forall|names: Seq<Seq<char>>| #[trigger] chain_ok(sv, edges, c.filter, names, s, t, c.max_depth as int)
                ==> w.paths@.last().layers@.len() <= names.len() - 1
        },
        Err(e) => {
            &&& !back && !fwd
            &&& e.message@ == "no dependency witness connects "@ + s + " and "@ + t
        },
    }
}

/// Dependency paths between the declarations `source` and `target` (each
/// possibly written `decl:<name>`): the path from `target` to `source`
/// where there is one, then, within `limit` (counted between 1 and 10),
/// the path from `source` to `target`; each is a shortest one.
pub fn witness_paths(corpus: &AnalysisCorpus, source: &str, target: &str, limit: usize) -> (r: Result<WitnessResponse, SieveError>)
    ensures
        exists|c: DependencyConfig| #[trigger] witness_config(c) && witness_outcome(corpus.snapshot_view(), corpus.edges_view(), c,
            without_declaration_prefix(source@), without_declaration_prefix(target@), limit, r),
{
    let s = strip_declaration_prefix(source);
    let t = strip_declaration_prefix(target);
    let config = DependencyConfig { filter: AnalysisFilter::all(), weighted: false, max_depth: 32, limit: 500 };
    let cap = if limit < 1 { 1 } else if limit > 10 { 10 } else { limit };
    let backward = corpus.shortest_dependency_path(t.as_str(), s.as_str(), &config);
    let mut paths: Vec<DependencyPath> = Vec::new();
    match backward {
        Some(p) => paths.push(p),
        None => {},
    }
    if paths.len() < cap {
        match corpus.shortest_dependency_path(s.as_str(), t.as_str(), &config) {
            Some(p) => paths.push(p),
            None => {},
        }
    }
    if paths.len() == 0 {
        let mut message = text_from("no dependency witness connects ");
        append_text(&mut message, s.as_str());
        append_text(&mut message, " and ");
        append_text(&mut message, t.as_str());
        let e = Err(SieveError { message });
        proof {
            assert(witness_config(config));
            assert(witness_outcome(corpus.snapshot_view(), corpus.edges_view(), config, s@, t@, limit, e));
        }
        return e;
    }
    let r = Ok(WitnessResponse { source: s, target: t, paths });
    proof {
        assert(witness_config(config));
        assert(witness_outcome(corpus.snapshot_view(), corpus.edges_view(), config, s@, t@, limit, r));
    }
    r
}


/// Which declarations the explorer shows.
#[derive(Clone, Debug, PartialEq, Eq, Structural)]
pub struct UiFilters {
    pub include_theorems: bool,
    pub include_definitions: bool,
    pub include_technical: bool,
}

impl Default for UiFilters {
    fn default() -> (r: Self)
        ensures
            r.include_theorems && r.include_definitions && !r.include_technical,
    {
        UiFilters { include_theorems: true, include_definitions: true, include_technical: false }
    }
}

/// The kinds of declaration that carry mathematics.
pub open spec fn math_kind(kind: Seq<char>) -> bool {
    kind == "theorem"@ || kind == "definition"@ || kind == "def"@ || kind == "opaque"@ || kind == "abbrev"@
}

/// Whether the kind carries mathematics.
pub fn is_math_kind(kind: &str) -> (r: bool)
    ensures
        r == math_kind(kind@),
{
    text_eq(kind, "theorem") || text_eq(kind, "definition") || text_eq(kind, "def") || text_eq(kind, "opaque")
        || text_eq(kind, "abbrev")
}

/// The explorer shows the declaration: technical ones (hidden by default)
/// only on request; theorems, other mathematical kinds and the rest each
/// by their own switch.
pub open spec fn shows_declaration(d: DeclarationSnapshot, filters: UiFilters) -> bool {
    if !filters.include_technical && crate::model::declaration_hidden(d) {
        false
    } else if d.kind@ == "theorem"@ {
        filters.include_theorems
    } else if math_kind(d.kind@) {
        filters.include_definitions
    } else {
        filters.include_technical
    }
}

/// Whether the explorer shows declaration `id`.
pub fn declaration_visible(corpus: &AnalysisCorpus, id: usize, filters: &UiFilters) -> (r: bool)
    requires
        id < corpus.snapshot_view().declarations@.len(),
    ensures
        r == shows_declaration(corpus.snapshot_view().declarations@[id as int], *filters),
{
    let declaration = &corpus.declarations()[id];
    if !filters.include_technical && declaration.is_hidden_by_default() {
        return false;
    }
    if text_eq(declaration.kind.as_str(), "theorem") {
        filters.include_theorems
    } else if is_math_kind(declaration.kind.as_str()) {
        filters.include_definitions
    } else {
        filters.include_technical
    }
}

} // verus!
