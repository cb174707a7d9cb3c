//! Structural comparison of expressions: stable fingerprints, exact and
//! alpha-equivalent equality, rendering, and the search for duplicated and
//! repeated subexpressions.
use vstd::prelude::*;
use vstd::utf8::encode_utf8;
use crate::analysis::filters::{copy_filter, default_filter_spec, same_filter, AnalysisFilter, LayerSelection};
use crate::hashing::{feed, feed_spec, FNV_OFFSET};
use crate::model::{node_label, ExpressionGraph, ExpressionNode, ExtractionSnapshot};
use crate::strings::{append_text, decimal, decimal_text, opt_view, text_eq, texts_view};
use crate::validation::graph_valid;
use crate::analysis::corpus::{layer_graph, AnalysisCorpus};
use crate::analysis::dependency::capped;
use crate::analysis::filters::DependencyLayer;
use crate::strings::push_char;
use crate::analysis::filters::{filter_matches_declaration, layer_rank, selection_includes};
use crate::ordering::{compare_texts, lemma_texts_lt_order, names_sorted, sort_names, texts_lt};
use crate::sorting::{ranked_sorted, sort_ranked, Ranked};
use crate::strings::{compare_text, copy_text, lemma_text_lt_transitive, lemma_text_lt_trichotomy, text_lt, Order};
use crate::analysis::corpus::increasing;
use crate::analysis::graph::insert_unique;
use crate::validation::paths_to;

verus! {

/// Whether binder names matter when expressions are compared.
#[derive(Clone, Copy, Debug, PartialEq, Eq, Structural)]
pub enum StructuralMode {
    Exact,
    AlphaEquivalent,
}

/// The settings of a structural search.
#[derive(Clone, Debug)]
pub struct StructuralConfig {
    pub filter: AnalysisFilter,
    pub mode: StructuralMode,
    pub minimum_size: usize,
    pub minimum_support: usize,
    pub limit: usize,
}

impl Default for StructuralConfig {
    fn default() -> (r: Self)
        ensures
            default_filter_spec(r.filter),
            r.mode == StructuralMode::AlphaEquivalent,
            r.minimum_size == 4,
            r.minimum_support == 2,
            r.limit == 100,
    {
        StructuralConfig {
            filter: AnalysisFilter::default(),
            mode: StructuralMode::AlphaEquivalent,
            minimum_size: 4,
            minimum_support: 2,
            limit: 100,
        }
    }
}

/// Two configurations ask for the same search.
pub open spec fn same_structural_config(a: StructuralConfig, b: StructuralConfig) -> bool {
    &&& same_filter(a.filter, b.filter)
    &&& a.mode == b.mode
    &&& a.minimum_size == b.minimum_size
    &&& a.minimum_support == b.minimum_support
    &&& a.limit == b.limit
}

/// A copy of the configuration.
pub fn copy_structural_config(c: &StructuralConfig) -> (r: StructuralConfig)
    ensures
        same_structural_config(r, *c),
{
    StructuralConfig {
        filter: copy_filter(&c.filter),
        mode: c.mode,
        minimum_size: c.minimum_size,
        minimum_support: c.minimum_support,
        limit: c.limit,
    }
}

/// The kinds of node that bind a variable.
pub open spec fn binder_kind(kind: Seq<char>) -> bool {
    kind == "lambda"@ || kind == "forall"@ || kind == "let"@
}

/// Whether the kind binds a variable.
fn is_binder_kind(kind: &str) -> (r: bool)
    ensures
        r == binder_kind(kind@),
{
    text_eq(kind, "lambda") || text_eq(kind, "forall") || text_eq(kind, "let")
}

/// The eight bytes of `n`, least significant first.
pub open spec fn le_bytes(n: u64) -> Seq<u8> {
    seq![n as u8, (n >> 8) as u8, (n >> 16) as u8, (n >> 24) as u8, (n >> 32) as u8, (n >> 40) as u8, (n >> 48) as u8, (n >> 56) as u8]
}

/// The eight bytes of `n`, least significant first.
pub fn le_bytes_of(n: u64) -> (r: Vec<u8>)
    ensures
        r@ == le_bytes(n),
{
    let mut r: Vec<u8> = Vec::new();
    r.push(n as u8);
    r.push((n >> 8) as u8);
    r.push((n >> 16) as u8);
    r.push((n >> 24) as u8);
    r.push((n >> 32) as u8);
    r.push((n >> 40) as u8);
    r.push((n >> 48) as u8);
    r.push((n >> 56) as u8);
    proof {
        assert(r@ =~= le_bytes(n));
    }
    r
}

/// Feeds an optional text: a 1 and its bytes, or a 0.
pub open spec fn feed_option_spec(h: u64, value: Option<Seq<char>>) -> u64 {
    match value {
        Some(v) => feed_spec(feed_spec(h, seq![1u8]), encode_utf8(v)),
        None => feed_spec(h, seq![0u8]),
    }
}

/// Feeds a one-byte tag into the running hash.
fn feed_tag(hash: &mut u64, tag: u8)
    ensures
        *final(hash) == feed_spec(*old(hash), seq![tag]),
{
    let mut bytes: Vec<u8> = Vec::new();
    bytes.push(tag);
    proof {
        assert(bytes@ =~= seq![tag]);
    }
    feed(hash, bytes.as_slice());
}

/// Feeds an optional text into the running hash.
fn feed_option(hash: &mut u64, value: &Option<String>)
    ensures
        *final(hash) == feed_option_spec(*old(hash), opt_view(value)),
{
    match value {
        Some(v) => {
            feed_tag(hash, 1);
            feed(hash, v.as_str().as_bytes());
        },
        None => {
            feed_tag(hash, 0);
        },
    }
}

/// Feeds each text in turn.
pub open spec fn feed_texts(h: u64, texts: Seq<Seq<char>>) -> u64
    decreases texts.len(),
{
    if texts.len() == 0 {
        h
    } else {
        feed_spec(feed_texts(h, texts.drop_last()), encode_utf8(texts.last()))
    }
}

/// Feeds the fingerprint of each child in turn.
pub open spec fn feed_children(h: u64, children: Seq<usize>, fingerprints: Seq<u64>) -> u64
    decreases children.len(),
{
    if children.len() == 0 {
        h
    } else {
        feed_spec(feed_children(h, children.drop_last(), fingerprints), le_bytes(fingerprints[children.last() as int]))
    }
}

/// The fingerprint of a node from those of the nodes before it: its kind,
/// its name (a 0 for a binder's name when comparing up to renaming), its
/// index, value, binder information, universe levels and children.
pub open spec fn node_fingerprint(node: ExpressionNode, mode: StructuralMode, fingerprints: Seq<u64>) -> u64 {
    feed_children(feed_texts(node_fields_hash(node, mode), texts_view(node.universe_levels@)), node.children@, fingerprints)
}

/// The hash of a node's own fields before its universe levels and children.
pub open spec fn node_fields_hash(node: ExpressionNode, mode: StructuralMode) -> u64 {
    let h0 = feed_spec(FNV_OFFSET, encode_utf8(node.kind@));
    let h1 = if mode == StructuralMode::AlphaEquivalent && binder_kind(node.kind@) {
        feed_spec(h0, seq![0u8])
    } else {
        feed_option_spec(h0, opt_view(&node.name))
    };
    let h2 = match node.index {
        Some(i) => feed_spec(feed_spec(h1, seq![1u8]), le_bytes(i as u64)),
        None => feed_spec(h1, seq![0u8]),
    };
    let h3 = feed_option_spec(h2, opt_view(&node.value));
    feed_option_spec(h3, opt_view(&node.binder_info))
}

/// The fingerprints of the first `n` nodes.
pub open spec fn fingerprints_upto(g: ExpressionGraph, mode: StructuralMode, n: int) -> Seq<u64>
    decreases n,
{
    if n <= 0 {
        Seq::empty()
    } else {
        let prev = fingerprints_upto(g, mode, n - 1);
        prev.push(node_fingerprint(g.nodes@[n - 1], mode, prev))
    }
}

/// The fingerprints of every node.
pub open spec fn fingerprints_of(g: ExpressionGraph, mode: StructuralMode) -> Seq<u64> {
    fingerprints_upto(g, mode, g.nodes@.len() as int)
}

proof fn lemma_fingerprints_len(g: ExpressionGraph, mode: StructuralMode, n: int)
    requires
        n >= 0,
    ensures
        fingerprints_upto(g, mode, n).len() == n,
    decreases n,
{
    if n > 0 {
        lemma_fingerprints_len(g, mode, n - 1);
    }
}

impl ExpressionNode {
    /// The hash of the node's own fields.
    fn fields_hash(&self, mode: StructuralMode) -> (r: u64)
        ensures
            r == node_fields_hash(*self, mode),
    {
        let mut hash = FNV_OFFSET;
        feed(&mut hash, self.kind.as_str().as_bytes());
        if mode == StructuralMode::AlphaEquivalent && is_binder_kind(self.kind.as_str()) {
            feed_tag(&mut hash, 0);
        } else {
            feed_option(&mut hash, &self.name);
        }
        match self.index {
            Some(i) => {
                feed_tag(&mut hash, 1);
                let bytes = le_bytes_of(i as u64);
                feed(&mut hash, bytes.as_slice());
            },
            None => {
                feed_tag(&mut hash, 0);
            },
        }
        feed_option(&mut hash, &self.value);
        feed_option(&mut hash, &self.binder_info);
        hash
    }

    /// The node's fingerprint given those of the nodes before it.
    fn fingerprint(&self, mode: StructuralMode, fingerprints: &Vec<u64>) -> (r: u64)
        requires
            forall|k: int| 0 <= k < self.children@.len() ==> #[trigger] self.children@[k] < fingerprints@.len(),
        ensures
            r == node_fingerprint(*self, mode, fingerprints@),
    {
        let mut hash = self.fields_hash(mode);
        let ghost h4 = hash;
        let levels = &self.universe_levels;
        let mut k: usize = 0;
        while k < levels.len()
            invariant
                k <= levels@.len(),
                hash == feed_texts(h4, texts_view(levels@.take(k as int))),
            decreases levels@.len() - k,
        {
            proof {
                assert(texts_view(levels@.take(k + 1)).drop_last() == texts_view(levels@.take(k as int)));
                assert(texts_view(levels@.take(k + 1)).last() == levels@[k as int]@);
            }
            feed(&mut hash, levels[k].as_str().as_bytes());
            k = k + 1;
        }
        proof {
            assert(levels@.take(k as int) == levels@);
        }
        let ghost h5 = hash;
        let children = &self.children;
        let mut k: usize = 0;
        while k < children.len()
            invariant
                forall|j: int| 0 <= j < children@.len() ==> #[trigger] children@[j] < fingerprints@.len(),
                k <= children@.len(),
                hash == feed_children(h5, children@.take(k as int), fingerprints@),
            decreases children@.len() - k,
        {
            proof {
                assert(children@.take(k + 1).drop_last() == children@.take(k as int));
            }
            let bytes = le_bytes_of(fingerprints[children[k]]);
            feed(&mut hash, bytes.as_slice());
            k = k + 1;
        }
        proof {
            assert(children@.take(k as int) == children@);
        }
        hash
    }
}

impl ExpressionGraph {
    /// Stable FNV-1a structural fingerprints, one per node. Equal
    /// fingerprints only make a match a candidate until it is verified.
    pub fn structural_fingerprints(&self, mode: StructuralMode) -> (r: Vec<u64>)
        requires
            graph_valid(*self),
        ensures
            r@ == fingerprints_of(*self, mode),
    {
        let mut fingerprints: Vec<u64> = Vec::new();
        let mut i: usize = 0;
        while i < self.nodes.len()
            invariant
                graph_valid(*self),
                i <= self.nodes@.len(),
                fingerprints@ == fingerprints_upto(*self, mode, i as int),
            decreases self.nodes@.len() - i,
        {
            proof {
                lemma_fingerprints_len(*self, mode, i as int);
            }
            let h = self.nodes[i].fingerprint(mode, &fingerprints);
            fingerprints.push(h);
            i = i + 1;
        }
        fingerprints
    }

    /// The fingerprint of the whole expression.
    pub fn root_fingerprint(&self, mode: StructuralMode) -> (r: u64)
        requires
            graph_valid(*self),
        ensures
            r == fingerprints_of(*self, mode)[self.root as int],
    {
        let fingerprints = self.structural_fingerprints(mode);
        proof {
            lemma_fingerprints_len(*self, mode, self.nodes@.len() as int);
        }
        fingerprints[self.root]
    }
}


/// The nodes agree in every field that structural equality compares: binder
/// names are ignored when comparing up to renaming.
pub open spec fn fields_equal(a: ExpressionNode, b: ExpressionNode, mode: StructuralMode) -> bool {
    &&& a.kind@ == b.kind@
    &&& ((mode == StructuralMode::AlphaEquivalent && binder_kind(a.kind@)) || opt_view(&a.name) == opt_view(&b.name))
    &&& a.index == b.index
    &&& opt_view(&a.value) == opt_view(&b.value)
    &&& opt_view(&a.binder_info) == opt_view(&b.binder_info)
    &&& texts_view(a.universe_levels@) == texts_view(b.universe_levels@)
    &&& a.children@.len() == b.children@.len()
}

/// The subexpression at `l` of `gl` equals the one at `r` of `gr`: equal
/// fields and pairwise equal children.
pub open spec fn struct_eq(gl: ExpressionGraph, l: int, gr: ExpressionGraph, r: int, mode: StructuralMode) -> bool
    decreases l, 1int, 0int,
{
    &&& 0 <= l < gl.nodes@.len()
    &&& 0 <= r < gr.nodes@.len()
    &&& fields_equal(gl.nodes@[l], gr.nodes@[r], mode)
    &&& children_eq(gl, l, gr, r, mode, 0)
}

/// The children of the two nodes from the `k`-th on are pairwise equal.
pub open spec fn children_eq(gl: ExpressionGraph, l: int, gr: ExpressionGraph, r: int, mode: StructuralMode, k: int) -> bool
    decreases l, 0int, if 0 <= l < gl.nodes@.len() { gl.nodes@[l].children@.len() - k } else { 0 },
{
    if !(0 <= l < gl.nodes@.len()) || !(0 <= r < gr.nodes@.len()) || k < 0 || k >= gl.nodes@[l].children@.len() {
        true
    } else if gl.nodes@[l].children@[k] >= l || l < 0 {
        false
    } else {
        struct_eq(gl, gl.nodes@[l].children@[k] as int, gr, gr.nodes@[r].children@[k] as int, mode)
            && children_eq(gl, l, gr, r, mode, k + 1)
    }
}

/// Whether two lists of texts are equal.
fn texts_equal(a: &Vec<String>, b: &Vec<String>) -> (r: bool)
    ensures
        r == (texts_view(a@) == texts_view(b@)),
{
    if a.len() != b.len() {
        proof {
            assert(texts_view(a@).len() != texts_view(b@).len());
        }
        return false;
    }
    let mut i: usize = 0;
    while i < a.len()
        invariant
            a@.len() == b@.len(),
            i <= a@.len(),
            forall|j: int| 0 <= j < i ==> #[trigger] a@[j]@ == b@[j]@,
        decreases a@.len() - i,
    {
        if !text_eq(a[i].as_str(), b[i].as_str()) {
            proof {
                assert(texts_view(a@)[i as int] != texts_view(b@)[i as int]);
            }
            return false;
        }
        i = i + 1;
    }
    proof {
        assert(texts_view(a@) =~= texts_view(b@));
    }
    true
}

/// Whether the nodes agree in every compared field.
fn node_fields_equal(left: &ExpressionNode, right: &ExpressionNode, mode: StructuralMode) -> (r: bool)
    ensures
        r == fields_equal(*left, *right, mode),
{
    let ignore_name = mode == StructuralMode::AlphaEquivalent && is_binder_kind(left.kind.as_str());
    text_eq(left.kind.as_str(), right.kind.as_str())
        && (ignore_name || crate::strings::option_text_eq(&left.name, &right.name))
        && left.index == right.index
        && crate::strings::option_text_eq(&left.value, &right.value)
        && crate::strings::option_text_eq(&left.binder_info, &right.binder_info)
        && texts_equal(&left.universe_levels, &right.universe_levels)
        && left.children.len() == right.children.len()
}

/// Every remembered comparison is right.
spec fn memo_ok(gl: ExpressionGraph, gr: ExpressionGraph, mode: StructuralMode, memo: Seq<Vec<(usize, bool)>>) -> bool {
    &&& memo.len() == gl.nodes@.len()
    &&& forall|l: int, j: int| 0 <= l < memo.len() && 0 <= j < memo[l]@.len() ==> {
        let entry = #[trigger] memo[l]@[j];
        entry.1 == struct_eq(gl, l, gr, entry.0 as int, mode)
    }
}

/// The remembered comparison of `l` with `r`, if any.
fn recall(entries: &Vec<(usize, bool)>, r: usize) -> (found: Option<bool>)
    ensures
        found matches Some(v) ==> exists|j: int| 0 <= j < entries@.len() && #[trigger] entries@[j] == (r, v)
            && forall|i: int| 0 <= i < j ==> (#[trigger] entries@[i]).0 != r,
        found is None <==> forall|i: int| 0 <= i < entries@.len() ==> (#[trigger] entries@[i]).0 != r,
{
    let mut j: usize = 0;
    while j < entries.len()
        invariant
            j <= entries@.len(),
            forall|i: int| 0 <= i < j ==> (#[trigger] entries@[i]).0 != r,
        decreases entries@.len() - j,
    {
        if entries[j].0 == r {
            return Some(entries[j].1);
        }
        j = j + 1;
    }
    None
}

/// Compares the subexpressions, remembering each pair already compared.
fn compare_nodes(
    gl: &ExpressionGraph,
    l: usize,
    gr: &ExpressionGraph,
    r: usize,
    mode: StructuralMode,
    memo: &mut Vec<Vec<(usize, bool)>>,
) -> (result: bool)
    requires
        graph_valid(*gl),
        graph_valid(*gr),
        l < gl.nodes@.len(),
        r < gr.nodes@.len(),
        memo_ok(*gl, *gr, mode, old(memo)@),
    ensures
        result == struct_eq(*gl, l as int, *gr, r as int, mode),
        memo_ok(*gl, *gr, mode, final(memo)@),
    decreases l,
{
    match recall(&memo[l], r) {
        Some(v) => {
            return v;
        },
        None => {},
    }
    let left = &gl.nodes[l];
    let right = &gr.nodes[r];
    let mut result = node_fields_equal(left, right, mode);
    if result {
        let mut k: usize = 0;
        while k < left.children.len()
            invariant_except_break
                result,
            invariant
                graph_valid(*gl),
                graph_valid(*gr),
                l < gl.nodes@.len(),
                r < gr.nodes@.len(),
                *left == gl.nodes@[l as int],
                *right == gr.nodes@[r as int],
                fields_equal(*left, *right, mode),
                k <= left.children@.len(),
                memo_ok(*gl, *gr, mode, memo@),
                children_eq(*gl, l as int, *gr, r as int, mode, 0) == children_eq(*gl, l as int, *gr, r as int, mode, k as int),
            ensures
                result == children_eq(*gl, l as int, *gr, r as int, mode, 0),
                memo_ok(*gl, *gr, mode, memo@),
            decreases left.children@.len() - k,
        {
            let a = left.children[k];
            let b = right.children[k];
            if !compare_nodes(gl, a, gr, b, mode, memo) {
                result = false;
                break;
            }
            k = k + 1;
        }
    }
    let ghost before = memo@;
    memo[l].push((r, result));
    proof {
        assert forall|x: int, j: int| 0 <= x < memo@.len() && 0 <= j < memo@[x]@.len() implies {
            let entry = #[trigger] memo@[x]@[j];
            entry.1 == struct_eq(*gl, x, *gr, entry.0 as int, mode)
        } by {
            if x != l || j < before[x]@.len() {
                assert(memo@[x]@[j] == before[x]@[j]);
            }
        }
    }
    result
}

/// Whether two subexpressions are equal, exactly or up to renaming of
/// bound variables.
pub fn structurally_equal(left: (&ExpressionGraph, usize), right: (&ExpressionGraph, usize), mode: StructuralMode) -> (r: bool)
    requires
        graph_valid(*left.0),
        graph_valid(*right.0),
        left.1 < left.0.nodes@.len(),
        right.1 < right.0.nodes@.len(),
    ensures
        r == struct_eq(*left.0, left.1 as int, *right.0, right.1 as int, mode),
{
    let mut memo: Vec<Vec<(usize, bool)>> = Vec::new();
    let mut i: usize = 0;
    while i < left.0.nodes.len()
        invariant
            i <= left.0.nodes@.len(),
            memo@.len() == i,
            forall|x: int| 0 <= x < i ==> (#[trigger] memo@[x])@.len() == 0,
        decreases left.0.nodes@.len() - i,
    {
        memo.push(Vec::new());
        i = i + 1;
    }
    compare_nodes(left.0, left.1, right.0, right.1, mode, &mut memo)
}


/// `n` copies of two spaces.
pub open spec fn indent(n: nat) -> Seq<char>
    decreases n,
{
    if n == 0 {
        Seq::empty()
    } else {
        indent((n - 1) as nat) + seq![' ', ' ']
    }
}

/// One line of the rendering: indentation, `#id` and the node's label.
pub open spec fn tree_line(node: ExpressionNode, depth: nat) -> Seq<char> {
    indent(depth) + seq!['#'] + decimal(node.id as nat) + seq![' '] + node_label(node) + seq!['\n']
}

/// The rendering of the subexpression at `id`, `depth` levels deep: its line,
/// then its children one level deeper, cut with an ellipsis at `max_depth`.
pub open spec fn rendered(g: ExpressionGraph, id: int, depth: nat, max_depth: nat) -> Seq<char>
    decreases id, 1int, 0int,
{
    if !(0 <= id < g.nodes@.len()) {
        Seq::empty()
    } else {
        let node = g.nodes@[id];
        if depth >= max_depth {
            tree_line(node, depth) + if node.children@.len() > 0 {
                indent(depth + 1) + seq!['…', '\n']
            } else {
                Seq::empty()
            }
        } else {
            tree_line(node, depth) + rendered_children(g, id, depth + 1, max_depth, 0)
        }
    }
}

/// The renderings of the children of `id` from the `k`-th on.
pub open spec fn rendered_children(g: ExpressionGraph, id: int, depth: nat, max_depth: nat, k: int) -> Seq<char>
    decreases id, 0int, if 0 <= id < g.nodes@.len() { g.nodes@[id].children@.len() - k } else { 0 },
{
    if !(0 <= id < g.nodes@.len()) || k < 0 || k >= g.nodes@[id].children@.len() {
        Seq::empty()
    } else if g.nodes@[id].children@[k] >= id {
        rendered_children(g, id, depth, max_depth, k + 1)
    } else {
        rendered(g, g.nodes@[id].children@[k] as int, depth, max_depth) + rendered_children(g, id, depth, max_depth, k + 1)
    }
}

/// Appends `n` indentation steps.
fn push_indent(out: &mut String, n: usize)
    ensures
        final(out)@ == old(out)@ + indent(n as nat),
{
    let mut i: usize = 0;
    while i < n
        invariant
            i <= n,
            out@ == old(out)@ + indent(i as nat),
        decreases n - i,
    {
        append_text(out, "  ");
        proof {
            reveal_strlit("  ");
            assert(indent((i + 1) as nat) == indent(i as nat) + seq![' ', ' ']);
            assert(old(out)@ + indent(i as nat) + seq![' ', ' '] =~= old(out)@ + indent((i + 1) as nat));
        }
        i = i + 1;
    }
}

/// Appends the rendering of the subexpression at `id`.
fn render(g: &ExpressionGraph, id: usize, depth: usize, max_depth: usize, out: &mut String)
    requires
        graph_valid(*g),
        id < g.nodes@.len(),
        depth + id < usize::MAX,
    ensures
        final(out)@ == old(out)@ + rendered(*g, id as int, depth as nat, max_depth as nat),
    decreases id,
{
    let node = &g.nodes[id];
    push_indent(out, depth);
    append_text(out, "#");
    let number = decimal_text(node.id);
    append_text(out, number.as_str());
    append_text(out, " ");
    let label = node.label();
    append_text(out, label.as_str());
    append_text(out, "\n");
    proof {
        reveal_strlit("#");
        reveal_strlit(" ");
        reveal_strlit("\n");
        assert(out@ =~= old(out)@ + tree_line(*node, depth as nat));
    }
    let ghost after_line = out@;
    if depth >= max_depth {
        if node.children.len() > 0 {
            push_indent(out, depth + 1);
            append_text(out, "…\n");
            proof {
                reveal_strlit("…\n");
                assert(out@ =~= old(out)@ + rendered(*g, id as int, depth as nat, max_depth as nat));
            }
        } else {
            proof {
                assert(out@ =~= old(out)@ + rendered(*g, id as int, depth as nat, max_depth as nat));
            }
        }
        return;
    }
    let mut k: usize = 0;
    while k < node.children.len()
        invariant
            graph_valid(*g),
            id < g.nodes@.len(),
            *node == g.nodes@[id as int],
            depth < max_depth,
            depth + id < usize::MAX,
            k <= node.children@.len(),
            out@ + rendered_children(*g, id as int, (depth + 1) as nat, max_depth as nat, k as int)
                == after_line + rendered_children(*g, id as int, (depth + 1) as nat, max_depth as nat, 0),
        decreases node.children@.len() - k,
    {
        let child = node.children[k];
        let ghost before = out@;
        render(g, child, depth + 1, max_depth, out);
        proof {
            assert(out@ + rendered_children(*g, id as int, (depth + 1) as nat, max_depth as nat, k + 1)
                =~= before + rendered_children(*g, id as int, (depth + 1) as nat, max_depth as nat, k as int));
        }
        k = k + 1;
    }
    proof {
        assert(out@ =~= old(out)@ + rendered(*g, id as int, depth as nat, max_depth as nat));
    }
}

impl ExpressionGraph {
    /// The expression as an indented tree, one node per line, children cut
    /// with an ellipsis below `max_depth`.
    pub fn render_tree(&self, max_depth: usize) -> (r: String)
        requires
            graph_valid(*self),
        ensures
            r@ == rendered(*self, self.root as int, 0, max_depth as nat),
    {
        let mut output = String::new();
        let total = self.nodes.len();
        render(self, self.root, 0, max_depth, &mut output);
        output
    }
}

/// The selection's name.
pub fn layer_selection_name(layer: LayerSelection) -> (r: &'static str)
    ensures
        r@ == match layer {
            LayerSelection::Statement => "statement"@,
            LayerSelection::Proof => "proof"@,
            LayerSelection::Both => "both"@,
        },
{
    match layer {
        LayerSelection::Statement => "statement",
        LayerSelection::Proof => "proof",
        LayerSelection::Both => "both",
    }
}


/// A place where a structure occurs.
#[derive(Clone, Debug)]
pub struct StructureLocation {
    pub declaration: String,
    pub layer: DependencyLayer,
    pub node: usize,
    pub occurrences: usize,
}

/// Declarations whose whole expressions are structurally equal.
#[derive(Clone, Debug)]
pub struct StructuralMatch {
    pub config: StructuralConfig,
    pub fingerprint: String,
    pub declarations: Vec<String>,
    pub locations: Vec<StructureLocation>,
    pub expression_size: usize,
    pub expression_depth: usize,
    pub total_occurrences: usize,
}

/// A subexpression that occurs in several declarations.
#[derive(Clone, Debug)]
pub struct RepeatedSubexpression {
    pub config: StructuralConfig,
    pub fingerprint: String,
    pub unique_declarations: usize,
    pub total_occurrences: usize,
    pub expression_size: usize,
    pub expression_depth: usize,
    pub locations: Vec<StructureLocation>,
}

/// The number of nodes of the expression tree below node `x`.
pub open spec fn tree_size(g: ExpressionGraph, x: int) -> nat
    decreases x, 1int, 0int,
{
    if 0 <= x < g.nodes@.len() {
        1 + children_size(g, x, g.nodes@[x].children@.len() as int)
    } else {
        0
    }
}

/// The tree sizes of the first `k` children of node `x`, added up.
pub open spec fn children_size(g: ExpressionGraph, x: int, k: int) -> nat
    decreases x, 0int, k,
{
    if 0 <= x < g.nodes@.len() && 0 < k <= g.nodes@[x].children@.len() {
        let c = g.nodes@[x].children@[k - 1] as int;
        children_size(g, x, k - 1) + if 0 <= c < x { tree_size(g, c) } else { 0 }
    } else {
        0
    }
}

/// The depth of the expression tree below node `x`.
pub open spec fn tree_depth(g: ExpressionGraph, x: int) -> nat
    decreases x, 1int, 0int,
{
    if 0 <= x < g.nodes@.len() {
        1 + children_depth(g, x, g.nodes@[x].children@.len() as int)
    } else {
        0
    }
}

/// The largest tree depth among the first `k` children of node `x`.
pub open spec fn children_depth(g: ExpressionGraph, x: int, k: int) -> nat
    decreases x, 0int, k,
{
    if 0 <= x < g.nodes@.len() && 0 < k <= g.nodes@[x].children@.len() {
        let c = g.nodes@[x].children@[k - 1] as int;
        let d = if 0 <= c < x { tree_depth(g, c) } else { 0 };
        let rest = children_depth(g, x, k - 1);
        if d > rest { d } else { rest }
    } else {
        0
    }
}

/// The tree size and depth below each node, saturating at the largest word.
pub fn subtree_shapes(graph: &ExpressionGraph) -> (r: (Vec<usize>, Vec<usize>))
    requires
        graph_valid(*graph),
    ensures
        r.0@.len() == graph.nodes@.len(),
        r.1@.len() == graph.nodes@.len(),
        forall|x: int| 0 <= x < graph.nodes@.len() ==> #[trigger] r.0@[x] == capped(tree_size(*graph, x)),
        forall|x: int| 0 <= x < graph.nodes@.len() ==> #[trigger] r.1@[x] == capped(tree_depth(*graph, x)),
{
    let mut sizes: Vec<usize> = Vec::new();
    let mut depths: Vec<usize> = Vec::new();
    let mut i: usize = 0;
    while i < graph.nodes.len()
        invariant
            graph_valid(*graph),
            i <= graph.nodes@.len(),
            sizes@.len() == i,
            depths@.len() == i,
            forall|x: int| 0 <= x < i ==> #[trigger] sizes@[x] == capped(tree_size(*graph, x)),
            forall|x: int| 0 <= x < i ==> #[trigger] depths@[x] == capped(tree_depth(*graph, x)),
        decreases graph.nodes@.len() - i,
    {
        let node = &graph.nodes[i];
        let mut size: usize = 1;
        let mut depth: usize = 0;
        let mut k: usize = 0;
        while k < node.children.len()
            invariant
                graph_valid(*graph),
                i < graph.nodes@.len(),
                *node == graph.nodes@[i as int],
                sizes@.len() == i,
                depths@.len() == i,
                forall|x: int| 0 <= x < i ==> #[trigger] sizes@[x] == capped(tree_size(*graph, x)),
                forall|x: int| 0 <= x < i ==> #[trigger] depths@[x] == capped(tree_depth(*graph, x)),
                k <= node.children@.len(),
                size == capped(1 + children_size(*graph, i as int, k as int)),
                depth == capped(children_depth(*graph, i as int, k as int)),
            decreases node.children@.len() - k,
        {
            let c = node.children[k];
            proof {
                assert(graph.nodes@[i as int].children@[k as int] < i);
            }
            let cs = sizes[c];
            size = if size <= usize::MAX - cs { size + cs } else { usize::MAX };
            let cd = depths[c];
            if cd > depth {
                depth = cd;
            }
            k = k + 1;
        }
        sizes.push(size);
        depth = if depth < usize::MAX { depth + 1 } else { usize::MAX };
        depths.push(depth);
        proof {
            assert(sizes@[i as int] == capped(tree_size(*graph, i as int)));
            assert(depths@[i as int] == capped(tree_depth(*graph, i as int)));
        }
        i = i + 1;
    }
    (sizes, depths)
}

impl AnalysisCorpus {
    /// The structural fingerprints of a declaration's expression in a
    /// layer; `None` where there is no such declaration or expression.
    pub fn cached_structural_fingerprints(&self, declaration: usize, layer: DependencyLayer, mode: StructuralMode) -> (r: Option<Vec<u64>>)
        ensures
            declaration >= self.snapshot_view().declarations@.len() ==> r is None,
            declaration < self.snapshot_view().declarations@.len() ==> match layer_graph(self.snapshot_view().declarations@[declaration as int], layer) {
                Some(g) => r matches Some(v) && v@ == fingerprints_of(g, mode),
                None => r is None,
            },
    {
        proof {
            use_type_invariant(self);
        }
        if declaration >= self.declarations().len() {
            return None;
        }
        match self.graph(declaration, layer) {
            Some(g) => {
                proof {
                    lemma_layer_graph_valid(self.snapshot_view(), declaration as int, layer);
                }
                Some(g.structural_fingerprints(mode))
            },
            None => None,
        }
    }
}

/// Every expression graph of a valid snapshot is valid.
pub proof fn lemma_layer_graph_valid(s: ExtractionSnapshot, declaration: int, layer: DependencyLayer)
    requires
        crate::validation::snapshot_valid(s),
        0 <= declaration < s.declarations@.len(),
    ensures
        layer_graph(s.declarations@[declaration], layer) matches Some(g) ==> graph_valid(g),
{
    assert(crate::validation::declaration_valid(s.declarations@[declaration]));
}

/// The hexadecimal digit for `d`.
pub open spec fn hex_digit(d: nat) -> char {
    if d < 10 {
        ((d + 48) as u8) as char
    } else {
        ((d + 87) as u8) as char
    }
}

/// The last `k` hexadecimal digits of `n`, zero padded.
pub open spec fn hex_fixed(n: nat, k: nat) -> Seq<char>
    decreases k,
{
    if k == 0 {
        Seq::empty()
    } else {
        hex_fixed(n / 16, (k - 1) as nat).push(hex_digit(n % 16))
    }
}

fn hex_digit_of(d: u64) -> (c: char)
    requires
        d < 16,
    ensures
        c == hex_digit(d as nat),
{
    let digits = ['0', '1', '2', '3', '4', '5', '6', '7', '8', '9', 'a', 'b', 'c', 'd', 'e', 'f'];
    let c = digits[d as usize];
    proof {
        assert(d < 16);
        if d == 0 { assert(c == '0'); } else if d == 1 { assert(c == '1'); } else if d == 2 { assert(c == '2'); }
        else if d == 3 { assert(c == '3'); } else if d == 4 { assert(c == '4'); } else if d == 5 { assert(c == '5'); }
        else if d == 6 { assert(c == '6'); } else if d == 7 { assert(c == '7'); } else if d == 8 { assert(c == '8'); }
        else if d == 9 { assert(c == '9'); } else if d == 10 { assert(c == 'a'); } else if d == 11 { assert(c == 'b'); }
        else if d == 12 { assert(c == 'c'); } else if d == 13 { assert(c == 'd'); } else if d == 14 { assert(c == 'e'); }
        else { assert(c == 'f'); }
    }
    c
}

/// The last `k` hexadecimal digits of `n`, zero padded, lower case.
fn hex_text(n: u64, k: usize) -> (r: String)
    ensures
        r@ == hex_fixed(n as nat, k as nat),
    decreases k,
{
    if k == 0 {
        return String::new();
    }
    let mut r = hex_text(n / 16, k - 1);
    push_char(&mut r, hex_digit_of(n % 16));
    r
}

/// The fingerprint as sixteen hexadecimal digits.
pub fn fingerprint_text(n: u64) -> (r: String)
    ensures
        r@ == hex_fixed(n as nat, 16),
{
    hex_text(n, 16)
}


/// The two nodes' expressions are structurally equal.
pub open spec fn nodes_match(s: ExtractionSnapshot, layer: DependencyLayer, mode: StructuralMode, a: (usize, usize), b: (usize, usize)) -> bool {
    match (layer_graph(s.declarations@[a.0 as int], layer), layer_graph(s.declarations@[b.0 as int], layer)) {
        (Some(ga), Some(gb)) => struct_eq(ga, a.1 as int, gb, b.1 as int, mode),
        _ => false,
    }
}

/// The first group from `k` on whose first member matches `c`, or the
/// number of groups.
pub open spec fn first_match(s: ExtractionSnapshot, layer: DependencyLayer, mode: StructuralMode, groups: Seq<Seq<(usize, usize)>>, c: (usize, usize), k: int) -> int
    decreases groups.len() - k,
{
    if k >= groups.len() || k < 0 {
        groups.len() as int
    } else if nodes_match(s, layer, mode, c, groups[k][0]) {
        k
    } else {
        first_match(s, layer, mode, groups, c, k + 1)
    }
}

/// The candidates grouped in order: each joins the first group whose first
/// member matches it, or starts a new group.
pub open spec fn groups_of(s: ExtractionSnapshot, layer: DependencyLayer, mode: StructuralMode, cands: Seq<(usize, usize)>) -> Seq<Seq<(usize, usize)>>
    decreases cands.len(),
{
    if cands.len() == 0 {
        Seq::empty()
    } else {
        let g = groups_of(s, layer, mode, cands.drop_last());
        let c = cands.last();
        let j = first_match(s, layer, mode, g, c, 0);
        if j < g.len() {
            g.update(j, g[j].push(c))
        } else {
            g.push(seq![c])
        }
    }
}

/// The candidate names a node of an expression of the layer.
pub open spec fn candidate_ok(s: ExtractionSnapshot, layer: DependencyLayer, c: (usize, usize)) -> bool {
    &&& c.0 < s.declarations@.len()
    &&& layer_graph(s.declarations@[c.0 as int], layer) matches Some(g) && c.1 < g.nodes@.len()
}

proof fn lemma_first_match(s: ExtractionSnapshot, layer: DependencyLayer, mode: StructuralMode, groups: Seq<Seq<(usize, usize)>>, c: (usize, usize), k: int, p: int)
    requires
        0 <= k <= p <= groups.len(),
        forall|j: int| k <= j < p ==> !nodes_match(s, layer, mode, c, #[trigger] groups[j][0]),
        p < groups.len() ==> nodes_match(s, layer, mode, c, groups[p][0]),
    ensures
        first_match(s, layer, mode, groups, c, k) == p,
    decreases p - k,
{
    if k < p {
        lemma_first_match(s, layer, mode, groups, c, k + 1, p);
    }
}

/// Groups the candidates by verified structural equality: each joins the
/// first group whose first member it equals.
fn verified_groups(corpus: &AnalysisCorpus, layer: DependencyLayer, candidates: &Vec<(usize, usize)>, mode: StructuralMode) -> (r: Vec<Vec<(usize, usize)>>)
    requires
        forall|i: int| 0 <= i < candidates@.len() ==> candidate_ok(corpus.snapshot_view(), layer, #[trigger] candidates@[i]),
    ensures
        r@.map_values(|g: Vec<(usize, usize)>| g@) == groups_of(corpus.snapshot_view(), layer, mode, candidates@),
{
    let ghost s = corpus.snapshot_view();
    let mut groups: Vec<Vec<(usize, usize)>> = Vec::new();
    let mut i: usize = 0;
    while i < candidates.len()
        invariant
            s == corpus.snapshot_view(),
            forall|x: int| 0 <= x < candidates@.len() ==> candidate_ok(s, layer, #[trigger] candidates@[x]),
            i <= candidates@.len(),
            groups@.map_values(|g: Vec<(usize, usize)>| g@) == groups_of(s, layer, mode, candidates@.take(i as int)),
            forall|j: int| 0 <= j < groups@.len() ==> (#[trigger] groups@[j])@.len() >= 1
                && forall|m: int| 0 <= m < groups@[j]@.len() ==> candidate_ok(s, layer, #[trigger] groups@[j]@[m]),
        decreases candidates@.len() - i,
    {
        let c = candidates[i];
        let ghost gs = groups@.map_values(|g: Vec<(usize, usize)>| g@);
        let mut p: usize = 0;
        let mut found = false;
        while p < groups.len() && !found
            invariant
                s == corpus.snapshot_view(),
                candidate_ok(s, layer, c),
                gs == groups@.map_values(|g: Vec<(usize, usize)>| g@),
                forall|j: int| 0 <= j < groups@.len() ==> (#[trigger] groups@[j])@.len() >= 1
                    && forall|m: int| 0 <= m < groups@[j]@.len() ==> candidate_ok(s, layer, #[trigger] groups@[j]@[m]),
                p <= groups@.len(),
                found ==> p < groups@.len() && nodes_match(s, layer, mode, c, gs[p as int][0]),
                forall|j: int| 0 <= j < p ==> !nodes_match(s, layer, mode, c, #[trigger] gs[j][0]),
            decreases groups@.len() - p, if found { 0int } else { 1int },
        {
            let rep = groups[p][0];
            proof {
                assert(gs[p as int] == groups@[p as int]@);
                assert(candidate_ok(s, layer, groups@[p as int]@[0]));
            }
            let gl = corpus.graph(c.0, layer).unwrap();
            let gr = corpus.graph(rep.0, layer).unwrap();
            proof {
                use_type_invariant(corpus);
                lemma_layer_graph_valid(s, c.0 as int, layer);
                lemma_layer_graph_valid(s, rep.0 as int, layer);
            }
            if structurally_equal((gl, c.1), (gr, rep.1), mode) {
                found = true;
            } else {
                p = p + 1;
            }
        }
        proof {
            lemma_first_match(s, layer, mode, gs, c, 0, p as int);
            assert(candidates@.take(i + 1).drop_last() == candidates@.take(i as int));
            assert(candidates@.take(i + 1).last() == c);
        }
        let ghost before = groups@;
        if found {
            groups[p].push(c);
            proof {
                let target = groups_of(s, layer, mode, candidates@.take(i + 1));
                assert(target == gs.update(p as int, gs[p as int].push(c)));
                let view = groups@.map_values(|g: Vec<(usize, usize)>| g@);
                assert forall|j: int| 0 <= j < view.len() implies view[j] == target[j] by {
                    if j != p {
                        assert(groups@[j] == before[j]);
                    }
                }
                assert(view =~= target);
            }
        } else {
            let single = vec![c];
            proof {
                assert(single@ == seq![c]);
            }
            groups.push(single);
            proof {
                let target = groups_of(s, layer, mode, candidates@.take(i + 1));
                assert(target == gs.push(seq![c]));
                let view = groups@.map_values(|g: Vec<(usize, usize)>| g@);
                assert forall|j: int| 0 <= j < view.len() implies view[j] == target[j] by {
                    if j < before.len() {
                        assert(groups@[j] == before[j]);
                    }
                }
                assert(view =~= target);
            }
        }
        i = i + 1;
    }
    proof {
        assert(candidates@.take(i as int) == candidates@);
    }
    groups
}


/// The position of the declaration called `name`.
pub open spec fn named_declaration(s: ExtractionSnapshot, name: Seq<char>) -> int {
    choose|i: int| 0 <= i < s.declarations@.len() && s.declarations@[i].name@ == name
}

/// The expression of the location's layer in its declaration.
pub open spec fn location_graph(s: ExtractionSnapshot, l: StructureLocation) -> Option<ExpressionGraph> {
    layer_graph(s.declarations@[named_declaration(s, l.declaration@)], l.layer)
}

/// The location is a node of an expression of an admitted declaration, in a
/// layer the filter reads.
pub open spec fn location_ok(s: ExtractionSnapshot, f: AnalysisFilter, l: StructureLocation) -> bool {
    &&& exists|i: int| 0 <= i < s.declarations@.len() && #[trigger] s.declarations@[i].name@ == l.declaration@
        && filter_matches_declaration(f, s.declarations@[i])
    &&& selection_includes(f.layer, l.layer)
    &&& location_graph(s, l) matches Some(g) && l.node < g.nodes@.len()
}

/// The two locations' expressions are structurally equal.
pub open spec fn locations_match(s: ExtractionSnapshot, mode: StructuralMode, a: StructureLocation, b: StructureLocation) -> bool {
    match (location_graph(s, a), location_graph(s, b)) {
        (Some(ga), Some(gb)) => struct_eq(ga, a.node as int, gb, b.node as int, mode),
        _ => false,
    }
}

/// The match reports declarations whose whole expressions in one layer are
/// structurally equal: at least `minimum_support` of them, each once, with
/// the fingerprint, size and depth of the first.
pub open spec fn duplicate_sound(s: ExtractionSnapshot, config: StructuralConfig, m: StructuralMatch) -> bool {
    let locs = m.locations@;
    &&& same_structural_config(m.config, config)
    &&& locs.len() >= 1
    &&& locs.len() >= config.minimum_support
    &&& m.total_occurrences == locs.len()
    &&& forall|k: int| 0 <= k < locs.len() ==> location_ok(s, config.filter, #[trigger] locs[k])
        && locs[k].layer == locs[0].layer && locs[k].occurrences == 1
        && (location_graph(s, locs[k]) matches Some(g) && locs[k].node == g.root)
        && (k >= 1 ==> locations_match(s, config.mode, locs[k], locs[0]))
    &&& location_graph(s, locs[0]) matches Some(g) && {
        &&& m.fingerprint@ == hex_fixed(fingerprints_of(g, config.mode)[locs[0].node as int] as nat, 16)
        &&& m.expression_size == capped(tree_size(g, locs[0].node as int))
        &&& m.expression_depth == capped(tree_depth(g, locs[0].node as int))
    }
    &&& m.declarations@.len() == locs.len()
    &&& names_sorted(texts_view(m.declarations@))
    &&& forall|x: Seq<char>| #[trigger] texts_view(m.declarations@).contains(x) <==> exists|k: int| 0 <= k < locs.len()
        && #[trigger] locs[k].declaration@ == x
}

/// A candidate node with the key it is grouped by and its arrival order.
struct Candidate {
    layer: DependencyLayer,
    fingerprint: u64,
    declaration: usize,
    node: usize,
    arrival: usize,
}

impl Ranked for Candidate {
    closed spec fn rank_lt(self, other: Self) -> bool {
        layer_rank(self.layer) < layer_rank(other.layer) || (self.layer == other.layer && (self.fingerprint < other.fingerprint
            || (self.fingerprint == other.fingerprint && self.arrival < other.arrival)))
    }

    fn precedes(&self, other: &Self) -> (r: bool) {
        let a: u8 = match self.layer {
            DependencyLayer::Statement => 0,
            DependencyLayer::Proof => 1,
        };
        let b: u8 = match other.layer {
            DependencyLayer::Statement => 0,
            DependencyLayer::Proof => 1,
        };
        a < b || (a == b && (self.fingerprint < other.fingerprint || (self.fingerprint == other.fingerprint && self.arrival < other.arrival)))
    }

    proof fn lemma_rank_order(a: Self, b: Self, c: Self) {
    }
}

/// The candidate is a node of an admitted declaration's expression in its
/// layer, with that node's fingerprint.
spec fn candidate_sound(s: ExtractionSnapshot, config: StructuralConfig, roots: bool, c: Candidate) -> bool {
    &&& c.declaration < s.declarations@.len()
    &&& filter_matches_declaration(config.filter, s.declarations@[c.declaration as int])
    &&& selection_includes(config.filter.layer, c.layer)
    &&& layer_graph(s.declarations@[c.declaration as int], c.layer) matches Some(g) && c.node < g.nodes@.len()
        && graph_valid(g) && c.fingerprint == fingerprints_of(g, config.mode)[c.node as int]
        && (roots ==> c.node == g.root)
        && (!roots ==> capped(tree_size(g, c.node as int)) >= config.minimum_size)
}

/// The candidates that one declaration's expression in one layer adds,
/// numbered in arrival order from `arrival`: its root alone, or each node of
/// at least the minimum size in node order; none where the filter leaves the
/// layer out or the declaration has no expression there.
spec fn layer_candidate_seq(s: ExtractionSnapshot, declaration: int, layer: DependencyLayer, config: StructuralConfig, roots: bool, arrival: int) -> Seq<Candidate> {
    if !selection_includes(config.filter.layer, layer) {
        Seq::empty()
    } else {
        match layer_graph(s.declarations@[declaration], layer) {
            None => Seq::empty(),
            Some(g) => if roots {
                seq![Candidate { layer, fingerprint: fingerprints_of(g, config.mode)[g.root as int], declaration: declaration as usize, node: g.root, arrival: arrival as usize }]
            } else {
                node_candidates(g, declaration, layer, config, 0, arrival)
            },
        }
    }
}

/// The nodes from `x` on whose capped subtree size reaches the minimum,
/// numbered from `arrival`.
spec fn node_candidates(g: ExpressionGraph, declaration: int, layer: DependencyLayer, config: StructuralConfig, x: int, arrival: int) -> Seq<Candidate>
    decreases g.nodes@.len() - x,
{
    if x < 0 || x >= g.nodes@.len() {
        Seq::empty()
    } else if capped(tree_size(g, x)) >= config.minimum_size {
        seq![Candidate { layer, fingerprint: fingerprints_of(g, config.mode)[x], declaration: declaration as usize, node: x as usize, arrival: arrival as usize }]
            + node_candidates(g, declaration, layer, config, x + 1, arrival + 1)
    } else {
        node_candidates(g, declaration, layer, config, x + 1, arrival)
    }
}

/// The candidates of the declarations `ids[k..]`, statement layer before
/// proof layer, numbered from `arrival`.
spec fn declaration_candidates(s: ExtractionSnapshot, ids: Seq<usize>, config: StructuralConfig, roots: bool, k: int, arrival: int) -> Seq<Candidate>
    decreases ids.len() - k,
{
    if k < 0 || k >= ids.len() {
        Seq::empty()
    } else {
        let a = layer_candidate_seq(s, ids[k] as int, DependencyLayer::Statement, config, roots, arrival);
        let b = layer_candidate_seq(s, ids[k] as int, DependencyLayer::Proof, config, roots, arrival + a.len());
        a + b + declaration_candidates(s, ids, config, roots, k + 1, arrival + a.len() + b.len())
    }
}

/// A result with the key it is sorted by.
struct MatchKey {
    result: StructuralMatch,
    arrival: usize,
}

impl Ranked for MatchKey {
    closed spec fn rank_lt(self, other: Self) -> bool {
        self.result.expression_size > other.result.expression_size || (self.result.expression_size == other.result.expression_size
            && (texts_lt(texts_view(self.result.declarations@), texts_view(other.result.declarations@))
            || (texts_view(self.result.declarations@) == texts_view(other.result.declarations@) && self.arrival < other.arrival)))
    }

    fn precedes(&self, other: &Self) -> (r: bool) {
        if self.result.expression_size != other.result.expression_size {
            self.result.expression_size > other.result.expression_size
        } else {
            match compare_texts(&self.result.declarations, &other.result.declarations) {
                Order::Less => true,
                Order::Greater => false,
                Order::Equal => self.arrival < other.arrival,
            }
        }
    }

    proof fn lemma_rank_order(a: Self, b: Self, c: Self) {
        let (x, y, z) = (texts_view(a.result.declarations@), texts_view(b.result.declarations@), texts_view(c.result.declarations@));
        lemma_texts_lt_order(x, y, z);
        lemma_texts_lt_order(y, z, x);
        lemma_texts_lt_order(z, y, x);
        lemma_texts_lt_order(x, z, y);
        lemma_texts_lt_order(z, x, y);
        lemma_texts_lt_order(y, x, z);
    }
}

/// Duplicates are sorted larger first, then by their declarations.
pub open spec fn duplicates_sorted(r: Seq<StructuralMatch>) -> bool {
    forall|i: int, j: int| 0 <= i < j < r.len() ==> (#[trigger] r[i]).expression_size > (#[trigger] r[j]).expression_size
        || (r[i].expression_size == r[j].expression_size && !texts_lt(texts_view(r[j].declarations@), texts_view(r[i].declarations@)))
}

impl AnalysisCorpus {
    /// The nodes of the admitted declarations' expressions in the layers the
    /// filter reads: whole expressions, or every node of at least
    /// `minimum_size`, grouped by layer and fingerprint in that order.
    #[verifier::rlimit(40)]
    #[verifier::spinoff_prover]
    #[verifier::rlimit(40)]
    fn candidates(&self, config: &StructuralConfig, roots_only: bool) -> (r: Vec<Candidate>)
        ensures
            forall|k: int| 0 <= k < r@.len() ==> candidate_sound(self.snapshot_view(), *config, roots_only, #[trigger] r@[k]),
            ranked_sorted(r@),
            r@.to_multiset() == declaration_candidates(self.snapshot_view(),
                crate::analysis::corpus::matching_declaration_ids(self.snapshot_view(), config.filter, self.snapshot_view().declarations@.len() as int),
                *config, roots_only, 0, 0).to_multiset(),
    {
        proof {
            use_type_invariant(self);
        }
        let ghost s = self.snapshot_view();
        let ids = self.filtered_declaration_ids(&config.filter);
        let n = self.declarations().len();
        proof {
            crate::analysis::dependency::lemma_matching_ids(s, config.filter, n as int);
        }
        let mut found: Vec<Candidate> = Vec::new();
        let mut k: usize = 0;
        while k < ids.len()
            invariant
                s == self.snapshot_view(),
                crate::validation::snapshot_valid(s),
                ids@ == crate::analysis::corpus::matching_declaration_ids(s, config.filter, s.declarations@.len() as int),
                n == s.declarations@.len(),
                forall|i: usize| #[trigger] ids@.contains(i) <==> (i < n && filter_matches_declaration(config.filter, s.declarations@[i as int])),
                k <= ids@.len(),
                forall|j: int| 0 <= j < found@.len() ==> candidate_sound(s, *config, roots_only, #[trigger] found@[j]),
                declaration_candidates(s, ids@, *config, roots_only, 0, 0)
                    == found@ + declaration_candidates(s, ids@, *config, roots_only, k as int, found@.len() as int),
            decreases ids@.len() - k,
        {
            let declaration = ids[k];
            proof {
                assert(ids@.contains(declaration));
            }
            let ghost f0 = found@;
            self.layer_candidates(declaration, DependencyLayer::Statement, config, roots_only, &mut found);
            let ghost f1 = found@;
            self.layer_candidates(declaration, DependencyLayer::Proof, config, roots_only, &mut found);
            proof {
                let a = layer_candidate_seq(s, declaration as int, DependencyLayer::Statement, *config, roots_only, f0.len() as int);
                let b = layer_candidate_seq(s, declaration as int, DependencyLayer::Proof, *config, roots_only, f1.len() as int);
                let rest = declaration_candidates(s, ids@, *config, roots_only, k + 1, found@.len() as int);
                assert(declaration_candidates(s, ids@, *config, roots_only, k as int, f0.len() as int) == a + b + rest);
                assert(f0 + (a + b + rest) =~= found@ + rest);
            }
            k = k + 1;
        }
        proof {
            assert(found@ + declaration_candidates(s, ids@, *config, roots_only, k as int, found@.len() as int) =~= found@);
        }
        let ghost before = found@;
        let sorted = sort_ranked(found);
        proof {
            assert forall|j: int| 0 <= j < sorted@.len() implies candidate_sound(s, *config, roots_only, #[trigger] sorted@[j]) by {
                broadcast use vstd::seq_lib::group_to_multiset_ensures;
                assert(sorted@.to_multiset().count(sorted@[j]) > 0);
                assert(before.contains(sorted@[j]));
            }
        }
        sorted
    }

    /// Adds the candidates of one declaration's expression in one layer.
    fn layer_candidates(&self, declaration: usize, layer: DependencyLayer, config: &StructuralConfig, roots_only: bool, found: &mut Vec<Candidate>)
        requires
            declaration < self.snapshot_view().declarations@.len(),
            filter_matches_declaration(config.filter, self.snapshot_view().declarations@[declaration as int]),
            forall|j: int| 0 <= j < old(found)@.len() ==> candidate_sound(self.snapshot_view(), *config, roots_only, #[trigger] old(found)@[j]),
        ensures
            forall|j: int| 0 <= j < final(found)@.len() ==> candidate_sound(self.snapshot_view(), *config, roots_only, #[trigger] final(found)@[j]),
            final(found)@ == old(found)@ + layer_candidate_seq(self.snapshot_view(), declaration as int, layer, *config, roots_only, old(found)@.len() as int),
    {
        proof {
            use_type_invariant(self);
        }
        let ghost s = self.snapshot_view();
        let ghost f0 = found@;
        if !config.filter.layer.includes(layer) {
            return;
        }
        let graph = match self.graph(declaration, layer) {
            Some(g) => g,
            None => {
                return;
            },
        };
        proof {
            lemma_layer_graph_valid(s, declaration as int, layer);
        }
        let fingerprints = graph.structural_fingerprints(config.mode);
        proof {
            lemma_fingerprints_len(*graph, config.mode, graph.nodes@.len() as int);
        }
        if roots_only {
            let arrival = found.len();
            found.push(Candidate { layer, fingerprint: fingerprints[graph.root], declaration, node: graph.root, arrival });
            proof {
                assert(found@ =~= f0 + layer_candidate_seq(s, declaration as int, layer, *config, roots_only, f0.len() as int));
            }
            return;
        }
        let (sizes, _depths) = subtree_shapes(graph);
        let mut node: usize = 0;
        while node < graph.nodes.len()
            invariant
                s == self.snapshot_view(),
                !roots_only,
                graph_valid(*graph),
                layer_graph(s.declarations@[declaration as int], layer) == Some(*graph),
                declaration < s.declarations@.len(),
                filter_matches_declaration(config.filter, s.declarations@[declaration as int]),
                selection_includes(config.filter.layer, layer),
                fingerprints@ == fingerprints_of(*graph, config.mode),
                fingerprints@.len() == graph.nodes@.len(),
                sizes@.len() == graph.nodes@.len(),
                forall|x: int| 0 <= x < graph.nodes@.len() ==> #[trigger] sizes@[x] == capped(tree_size(*graph, x)),
                forall|j: int| 0 <= j < found@.len() ==> candidate_sound(s, *config, roots_only, #[trigger] found@[j]),
                node <= graph.nodes@.len(),
                f0 + node_candidates(*graph, declaration as int, layer, *config, 0, f0.len() as int)
                    == found@ + node_candidates(*graph, declaration as int, layer, *config, node as int, found@.len() as int),
            decreases graph.nodes@.len() - node,
        {
            let ghost before = found@;
            if sizes[node] >= config.minimum_size {
                let arrival = found.len();
                found.push(Candidate { layer, fingerprint: fingerprints[node], declaration, node, arrival });
                proof {
                    let rest = node_candidates(*graph, declaration as int, layer, *config, node + 1, found@.len() as int);
                    assert(before + node_candidates(*graph, declaration as int, layer, *config, node as int, before.len() as int) =~= found@ + rest);
                }
            }
            node = node + 1;
        }
        proof {
            assert(found@ + node_candidates(*graph, declaration as int, layer, *config, node as int, found@.len() as int) =~= found@);
        }
    }

    /// Whole expressions of admitted declarations that are structurally
    /// equal, at least `minimum_support` of them, larger first, at most
    /// `limit` groups.
    pub fn find_duplicates(&self, config: &StructuralConfig) -> (r: Vec<StructuralMatch>)
        ensures
            r@.len() <= config.limit,
            exists|n: nat| #[trigger] duplicate_group_count(self.snapshot_view(), *config, n)
                && r@.len() == if n < config.limit { n } else { config.limit as nat },
            duplicates_sorted(r@),
            forall|k: int| 0 <= k < r@.len() ==> duplicate_sound(self.snapshot_view(), *config, #[trigger] r@[k]),
    {
        let ghost s = self.snapshot_view();
        let cands = self.candidates(config, true);
        let mut results: Vec<MatchKey> = Vec::new();
        let mut start: usize = 0;
        while start < cands.len()
            invariant
                s == self.snapshot_view(),
                forall|k: int| 0 <= k < cands@.len() ==> candidate_sound(s, *config, true, #[trigger] cands@[k]),
                start <= cands@.len(),
                forall|k: int| 0 <= k < results@.len() ==> duplicate_sound(s, *config, (#[trigger] results@[k]).result)
                    && results@[k].arrival == k,
                results@.len() + duplicate_groups_from(s, *config, cands@, start as int) == duplicate_groups_from(s, *config, cands@, 0),
            decreases cands@.len() - start,
        {
            let layer = cands[start].layer;
            let fingerprint = cands[start].fingerprint;
            let (end, members) = candidate_run(&cands, start);
            proof {
                assert(duplicate_groups_from(s, *config, cands@, start as int) == (if members@.len() >= config.minimum_support {
                    supported_groups(groups_of(s, layer, config.mode, members@), config.minimum_support as int,
                        groups_of(s, layer, config.mode, members@).len() as int).len()
                } else {
                    0nat
                }) + duplicate_groups_from(s, *config, cands@, end as int));
            }
            if members.len() >= config.minimum_support {
                proof {
                    assert forall|j: int| 0 <= j < members@.len() implies root_candidate(s, *config, layer, fingerprint, #[trigger] members@[j]) by {
                        assert(run_entry(cands@, start as int, members@, j));
                        assert(candidate_sound(s, *config, true, cands@[start + j]));
                    }
                }
                self.record_duplicates(config, layer, fingerprint, &members, &mut results);
            }
            start = end;
        }
        let ghost before = results@;
        proof {
            assert(duplicate_groups_from(s, *config, cands@, start as int) == 0);
        }
        let sorted = sort_ranked(results);
        proof {
            vstd::seq_lib::to_multiset_len(sorted@);
            vstd::seq_lib::to_multiset_len(before);
        }
        let mut out: Vec<StructuralMatch> = Vec::new();
        let mut sorted = sorted;
        let ghost s0 = sorted@;
        proof {
            assert forall|j: int| 0 <= j < s0.len() implies duplicate_sound(s, *config, (#[trigger] s0[j]).result) by {
                broadcast use vstd::seq_lib::group_to_multiset_ensures;
                assert(s0.to_multiset().count(s0[j]) > 0);
                assert(before.contains(s0[j]));
            }
        }
        let mut reversed: Vec<StructuralMatch> = Vec::new();
        let keep = if sorted.len() < config.limit { sorted.len() } else { config.limit };
        sorted.truncate(keep);
        while sorted.len() > 0
            invariant
                reversed@.len() + sorted@.len() == keep,
                keep <= s0.len(),
                sorted@ == s0.take(sorted@.len() as int),
                forall|j: int| 0 <= j < reversed@.len() ==> #[trigger] reversed@[j] == s0[keep - 1 - j].result,
            decreases sorted@.len(),
        {
            let key = sorted.pop().unwrap();
            reversed.push(key.result);
        }
        while reversed.len() > 0
            invariant
                out@.len() + reversed@.len() == keep,
                keep <= s0.len(),
                forall|j: int| 0 <= j < reversed@.len() ==> #[trigger] reversed@[j] == s0[keep - 1 - j].result,
                forall|j: int| 0 <= j < out@.len() ==> #[trigger] out@[j] == s0[j].result,
            decreases reversed@.len(),
        {
            let m = reversed.pop().unwrap();
            out.push(m);
        }
        proof {
            assert forall|i: int, j: int| 0 <= i < j < out@.len() implies (#[trigger] out@[i]).expression_size > (#[trigger] out@[j]).expression_size
                || (out@[i].expression_size == out@[j].expression_size && !texts_lt(texts_view(out@[j].declarations@), texts_view(out@[i].declarations@))) by {
                assert(!s0[j].rank_lt(s0[i]));
            }
            assert(duplicate_group_count(s, *config, before.len()));
        }
        out
    }

    /// The match that a verified group of whole expressions reports.
    fn duplicate_match(&self, config: &StructuralConfig, layer: DependencyLayer, fingerprint: u64, group: &Vec<(usize, usize)>) -> (m: StructuralMatch)
        requires
            group@.len() >= 1,
            group@.len() >= config.minimum_support,
            forall|k: int| 0 <= k < group@.len() ==> root_candidate(self.snapshot_view(), *config, layer, fingerprint, #[trigger] group@[k]),
            forall|k: int| 1 <= k < group@.len() ==> nodes_match(self.snapshot_view(), layer, config.mode, #[trigger] group@[k], group@[0]),
        ensures
            duplicate_sound(self.snapshot_view(), *config, m),
            match_reports(self.snapshot_view(), m, group@),
    {
        proof {
            use_type_invariant(self);
        }
        let ghost s = self.snapshot_view();
        let declarations = self.declarations();
        let first = group[0];
        let graph = self.graph(first.0, layer).unwrap();
        proof {
            lemma_layer_graph_valid(s, first.0 as int, layer);
        }
        let (sizes, depths) = subtree_shapes(graph);
        let mut names: Vec<String> = Vec::new();
        let mut locations: Vec<StructureLocation> = Vec::new();
        let mut k: usize = 0;
        while k < group.len()
            invariant
                s == self.snapshot_view(),
                crate::validation::snapshot_valid(s),
                declarations@ == s.declarations@,
                forall|j: int| 0 <= j < group@.len() ==> root_candidate(s, *config, layer, fingerprint, #[trigger] group@[j]),
                forall|j: int| 1 <= j < group@.len() ==> nodes_match(s, layer, config.mode, #[trigger] group@[j], group@[0]),
                k <= group@.len(),
                names@.len() == k,
                locations@.len() == k,
                forall|j: int| 0 <= j < k ==> (#[trigger] names@[j])@ == s.declarations@[group@[j].0 as int].name@,
                forall|j: int| 0 <= j < k ==> (#[trigger] locations@[j]).declaration@ == s.declarations@[group@[j].0 as int].name@
                    && locations@[j].layer == layer && locations@[j].node == group@[j].1 && locations@[j].occurrences == 1,
            decreases group@.len() - k,
        {
            let (id, node) = group[k];
            names.push(copy_text(&declarations[id].name));
            locations.push(StructureLocation { declaration: copy_text(&declarations[id].name), layer, node, occurrences: 1 });
            k = k + 1;
        }
        let ghost unsorted = texts_view(names@);
        let sorted = sort_names(names);
        proof {
            lemma_fingerprints_len(*graph, config.mode, graph.nodes@.len() as int);
            let locs = locations@;
            assert forall|j: int| 0 <= j < locs.len() implies named_declaration(s, #[trigger] locs[j].declaration@) == group@[j].0 as int by {
                lemma_named_declaration(s, group@[j].0 as int);
            }
            assert forall|j: int| 0 <= j < locs.len() implies location_ok(s, config.filter, #[trigger] locs[j])
                && locs[j].layer == locs[0].layer && locs[j].occurrences == 1
                && (location_graph(s, locs[j]) matches Some(g) && locs[j].node == g.root)
                && (j >= 1 ==> locations_match(s, config.mode, locs[j], locs[0])) by {
                assert(named_declaration(s, locs[j].declaration@) == group@[j].0 as int);
                assert(named_declaration(s, locs[0].declaration@) == group@[0].0 as int);
                assert(root_candidate(s, *config, layer, fingerprint, group@[j]));
                assert(s.declarations@[group@[j].0 as int].name@ == locs[j].declaration@);
                if j >= 1 {
                    assert(nodes_match(s, layer, config.mode, group@[j], group@[0]));
                }
            }
            assert(named_declaration(s, locs[0].declaration@) == first.0 as int);
            assert forall|x: Seq<char>| #[trigger] texts_view(sorted@).contains(x) <==> exists|j: int| 0 <= j < locs.len()
                && #[trigger] locs[j].declaration@ == x by {
                if unsorted.contains(x) {
                    let j = choose|j: int| 0 <= j < unsorted.len() && unsorted[j] == x;
                    assert(locs[j].declaration@ == x);
                }
                if exists|j: int| 0 <= j < locs.len() && #[trigger] locs[j].declaration@ == x {
                    let j = choose|j: int| 0 <= j < locs.len() && #[trigger] locs[j].declaration@ == x;
                    assert(unsorted[j] == x);
                }
            }
        }
        let total = locations.len();
        StructuralMatch {
            config: copy_structural_config(config),
            fingerprint: fingerprint_text(fingerprint),
            declarations: sorted,
            locations,
            expression_size: sizes[first.1],
            expression_depth: depths[first.1],
            total_occurrences: total,
        }
    }
}

/// The match lists the group's members, in the group's order, one
/// occurrence each.
spec fn match_reports(s: ExtractionSnapshot, m: StructuralMatch, group: Seq<(usize, usize)>) -> bool {
    &&& m.locations@.len() == group.len()
    &&& m.total_occurrences == group.len()
    &&& forall|j: int| 0 <= j < group.len() ==> (#[trigger] m.locations@[j]).declaration@ == s.declarations@[group[j].0 as int].name@
        && m.locations@[j].node == group[j].1
}

/// The first `n` groups that have at least `minimum` members, in order.
spec fn supported_groups(groups: Seq<Seq<(usize, usize)>>, minimum: int, n: int) -> Seq<Seq<(usize, usize)>>
    decreases n,
{
    if n <= 0 {
        Seq::empty()
    } else {
        let earlier = supported_groups(groups, minimum, n - 1);
        if groups[n - 1].len() >= minimum {
            earlier.push(groups[n - 1])
        } else {
            earlier
        }
    }
}

/// The candidate is the root of an admitted declaration's expression in the
/// layer, with that fingerprint.
spec fn root_candidate(s: ExtractionSnapshot, config: StructuralConfig, layer: DependencyLayer, fingerprint: u64, c: (usize, usize)) -> bool {
    &&& c.0 < s.declarations@.len()
    &&& filter_matches_declaration(config.filter, s.declarations@[c.0 as int])
    &&& selection_includes(config.filter.layer, layer)
    &&& layer_graph(s.declarations@[c.0 as int], layer) matches Some(g) && c.1 == g.root && graph_valid(g)
        && fingerprint == fingerprints_of(g, config.mode)[c.1 as int]
}

/// What the grouping keeps: non-empty groups of candidates, each member
/// after the first equal to the first.
pub open spec fn groups_facts(s: ExtractionSnapshot, layer: DependencyLayer, mode: StructuralMode, cands: Seq<(usize, usize)>, groups: Seq<Seq<(usize, usize)>>) -> bool {
    &&& forall|j: int| 0 <= j < groups.len() ==> (#[trigger] groups[j]).len() >= 1
    &&& forall|j: int, m: int| 0 <= j < groups.len() && 0 <= m < groups[j].len() ==> cands.contains(#[trigger] groups[j][m])
    &&& forall|j: int, m: int| 0 <= j < groups.len() && 1 <= m < groups[j].len() ==> nodes_match(s, layer, mode, #[trigger] groups[j][m], groups[j][0])
}

proof fn lemma_first_match_found(s: ExtractionSnapshot, layer: DependencyLayer, mode: StructuralMode, groups: Seq<Seq<(usize, usize)>>, c: (usize, usize), k: int)
    requires
        0 <= k,
    ensures
        k <= first_match(s, layer, mode, groups, c, k) <= groups.len() || first_match(s, layer, mode, groups, c, k) == groups.len(),
        first_match(s, layer, mode, groups, c, k) < groups.len() ==> nodes_match(s, layer, mode, c, groups[first_match(s, layer, mode, groups, c, k)][0]),
    decreases groups.len() - k,
{
    if k < groups.len() && !nodes_match(s, layer, mode, c, groups[k][0]) {
        lemma_first_match_found(s, layer, mode, groups, c, k + 1);
    }
}

pub proof fn lemma_groups_of(s: ExtractionSnapshot, layer: DependencyLayer, mode: StructuralMode, cands: Seq<(usize, usize)>)
    ensures
        groups_facts(s, layer, mode, cands, groups_of(s, layer, mode, cands)),
    decreases cands.len(),
{
    if cands.len() > 0 {
        let prev = cands.drop_last();
        lemma_groups_of(s, layer, mode, prev);
        let g = groups_of(s, layer, mode, prev);
        let c = cands.last();
        let j = first_match(s, layer, mode, g, c, 0);
        lemma_first_match_found(s, layer, mode, g, c, 0);
        let out = groups_of(s, layer, mode, cands);
        assert forall|a: int, m: int| 0 <= a < out.len() && 0 <= m < out[a].len() implies cands.contains(#[trigger] out[a][m]) by {
            if a < g.len() && (a != j || m < g[a].len()) {
                assert(out[a][m] == g[a][m]);
                assert(prev.contains(g[a][m]));
                let i = choose|i: int| 0 <= i < prev.len() && prev[i] == g[a][m];
                assert(cands[i] == g[a][m]);
            } else {
                assert(out[a][m] == c);
                assert(cands[cands.len() - 1] == c);
            }
        }
        assert forall|a: int, m: int| 0 <= a < out.len() && 1 <= m < out[a].len() implies nodes_match(s, layer, mode, #[trigger] out[a][m], out[a][0]) by {
            if a < g.len() && (a != j || m < g[a].len()) {
                assert(out[a][m] == g[a][m]);
                assert(out[a][0] == g[a][0]);
            } else {
                assert(out[a][m] == c);
                assert(out[a][0] == g[a][0]);
            }
        }
    }
}

/// The declaration called by the `i`-th declaration's name is the `i`-th.
proof fn lemma_named_declaration(s: ExtractionSnapshot, i: int)
    requires
        crate::validation::snapshot_valid(s),
        0 <= i < s.declarations@.len(),
    ensures
        named_declaration(s, s.declarations@[i].name@) == i,
{
    let n = s.declarations@[i].name@;
    assert(s.declarations@[i].name@ == n);
    let k = named_declaration(s, n);
    if k != i {
        if k < i {
            assert(s.declarations@[k].name@ != s.declarations@[i].name@);
        } else {
            assert(s.declarations@[i].name@ != s.declarations@[k].name@);
        }
    }
}

/// The candidates from `start` on that share its layer and fingerprint, as
/// (declaration, node) pairs, and where that run ends.
fn candidate_run(cands: &Vec<Candidate>, start: usize) -> (r: (usize, Vec<(usize, usize)>))
    requires
        start < cands@.len(),
    ensures
        start < r.0 <= cands@.len(),
        r.1@.len() == r.0 - start,
        forall|j: int| 0 <= j < r.1@.len() ==> #[trigger] run_entry(cands@, start as int, r.1@, j),
        r.0 == run_end(cands@, start as int, cands@[start as int].layer, cands@[start as int].fingerprint),
        r.1@ == run_members(cands@, start as int, r.0 as int),
{
    let layer = cands[start].layer;
    let fingerprint = cands[start].fingerprint;
    let mut end: usize = start;
    let mut members: Vec<(usize, usize)> = Vec::new();
    while end < cands.len() && cands[end].layer == layer && cands[end].fingerprint == fingerprint
        invariant
            start < cands@.len(),
            layer == cands@[start as int].layer,
            fingerprint == cands@[start as int].fingerprint,
            start <= end <= cands@.len(),
            members@.len() == end - start,
            forall|j: int| 0 <= j < members@.len() ==> #[trigger] run_entry(cands@, start as int, members@, j),
            run_end(cands@, end as int, layer, fingerprint) == run_end(cands@, start as int, layer, fingerprint),
            members@ == run_members(cands@, start as int, end as int),
        decreases cands@.len() - end,
    {
        let ghost m0 = members@;
        let c = &cands[end];
        members.push((c.declaration, c.node));
        proof {
            assert(members@ =~= run_members(cands@, start as int, end + 1));
        }
        proof {
            assert forall|j: int| 0 <= j < members@.len() implies #[trigger] run_entry(cands@, start as int, members@, j) by {
                if j < m0.len() {
                    assert(members@[j] == m0[j]);
                    assert(run_entry(cands@, start as int, m0, j));
                } else {
                    assert(start + j == end);
                    assert(cands@[start + j] == *c);
                }
            }
        }
        end = end + 1;
    }
    (end, members)
}

/// Entry `j` of the run is the candidate `start + j`, with the layer and
/// fingerprint of the candidate at `start`.
/// Where the run of candidates with `layer` and `fingerprint` that goes on
/// at `i` ends.
spec fn run_end(w: Seq<Candidate>, i: int, layer: DependencyLayer, fingerprint: u64) -> int
    decreases w.len() - i,
{
    if 0 <= i < w.len() && w[i].layer == layer && w[i].fingerprint == fingerprint {
        run_end(w, i + 1, layer, fingerprint)
    } else {
        i
    }
}

proof fn lemma_run_end(w: Seq<Candidate>, i: int, layer: DependencyLayer, fingerprint: u64)
    requires
        0 <= i <= w.len(),
    ensures
        i <= run_end(w, i, layer, fingerprint) <= w.len(),
    decreases w.len() - i,
{
    if 0 <= i < w.len() && w[i].layer == layer && w[i].fingerprint == fingerprint {
        lemma_run_end(w, i + 1, layer, fingerprint);
    }
}

/// The declarations and nodes of the candidates from `start` up to `end`.
spec fn run_members(w: Seq<Candidate>, start: int, end: int) -> Seq<(usize, usize)> {
    w.subrange(start, end).map_values(|c: Candidate| (c.declaration, c.node))
}

/// The groups of structurally equal whole expressions, with enough members,
/// found in the runs of equal fingerprints of `w` from `start` on.
spec fn duplicate_groups_from(s: ExtractionSnapshot, config: StructuralConfig, w: Seq<Candidate>, start: int) -> nat
    decreases w.len() - start,
{
    if start < 0 || start >= w.len() {
        0
    } else {
        let end = run_end(w, start, w[start].layer, w[start].fingerprint);
        let members = run_members(w, start, end);
        let gs = groups_of(s, w[start].layer, config.mode, members);
        let here: nat = if members.len() >= config.minimum_support { supported_groups(gs, config.minimum_support as int, gs.len() as int).len() } else { 0 };
        if end <= start || end > w.len() { here } else { here + duplicate_groups_from(s, config, w, end) }
    }
}

/// The classes of structurally equal subexpressions spread over enough
/// declarations, found in the runs of equal fingerprints of `w` from
/// `start` on.
spec fn repeat_groups_from(s: ExtractionSnapshot, config: StructuralConfig, w: Seq<Candidate>, start: int) -> nat
    decreases w.len() - start,
{
    if start < 0 || start >= w.len() {
        0
    } else {
        let end = run_end(w, start, w[start].layer, w[start].fingerprint);
        let members = run_members(w, start, end);
        let gs = groups_of(s, w[start].layer, config.mode, members);
        let here: nat = if declaration_set(members).len() >= config.minimum_support {
            spanning_groups(gs, config.minimum_support as int, gs.len() as int).len()
        } else {
            0
        };
        if end <= start || end > w.len() { here } else { here + repeat_groups_from(s, config, w, end) }
    }
}

/// `n` classes of structurally equal subexpressions, of at least
/// `minimum_size` and each found in at least `minimum_support`
/// declarations, exist: the candidates are the nodes of the admitted
/// declarations' expressions on the selected layers, ordered by layer and
/// fingerprint, and each run of equal fingerprints is split into its
/// classes of structurally equal subexpressions.
pub closed spec fn repeat_group_count(s: ExtractionSnapshot, config: StructuralConfig, n: nat) -> bool {
    exists|w: Seq<Candidate>| #![trigger w.to_multiset()]
        w.to_multiset() == declaration_candidates(s, crate::analysis::corpus::matching_declaration_ids(s, config.filter,
            s.declarations@.len() as int), config, false, 0, 0).to_multiset()
        && ranked_sorted(w) && n == repeat_groups_from(s, config, w, 0)
}

/// `n` groups of at least `minimum_support` structurally equal whole
/// expressions of admitted declarations exist: the candidates are the
/// roots of the admitted declarations' expressions on the selected layers,
/// ordered by layer and fingerprint, and each run of equal fingerprints is
/// split into its classes of structurally equal expressions.
pub closed spec fn duplicate_group_count(s: ExtractionSnapshot, config: StructuralConfig, n: nat) -> bool {
    exists|w: Seq<Candidate>| #![trigger w.to_multiset()]
        w.to_multiset() == declaration_candidates(s, crate::analysis::corpus::matching_declaration_ids(s, config.filter,
            s.declarations@.len() as int), config, true, 0, 0).to_multiset()
        && ranked_sorted(w) && n == duplicate_groups_from(s, config, w, 0)
}

spec fn run_entry(cands: Seq<Candidate>, start: int, members: Seq<(usize, usize)>, j: int) -> bool {
    &&& 0 <= start + j < cands.len()
    &&& members[j].0 == cands[start + j].declaration
    &&& members[j].1 == cands[start + j].node
    &&& cands[start + j].layer == cands[start].layer
    &&& cands[start + j].fingerprint == cands[start].fingerprint
}

impl AnalysisCorpus {
    /// Adds the match of each verified group of the candidates that has
    /// enough members.
    fn record_duplicates(&self, config: &StructuralConfig, layer: DependencyLayer, fingerprint: u64, members: &Vec<(usize, usize)>, results: &mut Vec<MatchKey>)
        requires
            forall|j: int| 0 <= j < members@.len() ==> root_candidate(self.snapshot_view(), *config, layer, fingerprint, #[trigger] members@[j]),
            forall|k: int| 0 <= k < old(results)@.len() ==> duplicate_sound(self.snapshot_view(), *config, (#[trigger] old(results)@[k]).result)
                && old(results)@[k].arrival == k,
        ensures
            forall|k: int| 0 <= k < final(results)@.len() ==> duplicate_sound(self.snapshot_view(), *config, (#[trigger] final(results)@[k]).result)
                && final(results)@[k].arrival == k,
            ({
                let gs = groups_of(self.snapshot_view(), layer, config.mode, members@);
                let kept = supported_groups(gs, config.minimum_support as int, gs.len() as int);
                &&& final(results)@.len() == old(results)@.len() + kept.len()
                &&& forall|k: int| 0 <= k < old(results)@.len() ==> #[trigger] final(results)@[k] == old(results)@[k]
                &&& forall|i: int| 0 <= i < kept.len() ==> match_reports(self.snapshot_view(), (#[trigger] final(results)@[old(results)@.len() + i]).result, kept[i])
            }),
    {
        let ghost s = self.snapshot_view();
        let ghost r0 = results@;
        proof {
            assert forall|j: int| 0 <= j < members@.len() implies candidate_ok(s, layer, #[trigger] members@[j]) by {
                assert(root_candidate(s, *config, layer, fingerprint, members@[j]));
            }
        }
        let groups = verified_groups(self, layer, members, config.mode);
        proof {
            lemma_groups_of(s, layer, config.mode, members@);
        }
        let ghost gs = groups_of(s, layer, config.mode, members@);
        let mut g: usize = 0;
        while g < groups.len()
            invariant
                s == self.snapshot_view(),
                forall|j: int| 0 <= j < members@.len() ==> root_candidate(s, *config, layer, fingerprint, #[trigger] members@[j]),
                groups@.map_values(|x: Vec<(usize, usize)>| x@) == gs,
                groups_facts(s, layer, config.mode, members@, gs),
                g <= groups@.len(),
                forall|k: int| 0 <= k < results@.len() ==> duplicate_sound(s, *config, (#[trigger] results@[k]).result)
                    && results@[k].arrival == k,
                results@.len() == r0.len() + supported_groups(gs, config.minimum_support as int, g as int).len(),
                forall|k: int| 0 <= k < r0.len() ==> #[trigger] results@[k] == r0[k],
                forall|i: int| 0 <= i < supported_groups(gs, config.minimum_support as int, g as int).len()
                    ==> match_reports(s, (#[trigger] results@[r0.len() + i]).result, supported_groups(gs, config.minimum_support as int, g as int)[i]),
            decreases groups@.len() - g,
        {
            let ghost before = results@;
            proof {
                assert(groups@[g as int]@ == gs[g as int]);
            }
            if groups[g].len() >= config.minimum_support {
                proof {
                    let gv = groups@[g as int]@;
                    assert(gv == gs[g as int]);
                    assert forall|m: int| 0 <= m < gv.len() implies root_candidate(s, *config, layer, fingerprint, #[trigger] gv[m]) by {
                        assert(members@.contains(gv[m]));
                    }
                    assert forall|m: int| 1 <= m < gv.len() implies nodes_match(s, layer, config.mode, #[trigger] gv[m], gv[0]) by {
                        assert(nodes_match(s, layer, config.mode, gs[g as int][m], gs[g as int][0]));
                    }
                }
                let m = self.duplicate_match(config, layer, fingerprint, &groups[g]);
                let arrival = results.len();
                results.push(MatchKey { result: m, arrival });
                proof {
                    let prev = supported_groups(gs, config.minimum_support as int, g as int);
                    assert(supported_groups(gs, config.minimum_support as int, g + 1) == prev.push(gs[g as int]));
                    assert forall|i: int| 0 <= i < prev.len() + 1
                        implies match_reports(s, (#[trigger] results@[r0.len() + i]).result, prev.push(gs[g as int])[i]) by {
                        if i < prev.len() {
                            assert(results@[r0.len() + i] == before[r0.len() + i]);
                        }
                    }
                }
            }
            g = g + 1;
        }
        proof {
            assert(g == gs.len()) by {
                assert(groups@.map_values(|x: Vec<(usize, usize)>| x@).len() == groups@.len());
            }
        }
    }
}


/// The location's node occurs that often in its expression tree.
pub open spec fn location_occurrences(s: ExtractionSnapshot, l: StructureLocation) -> bool {
    location_graph(s, l) matches Some(g) && l.occurrences == paths_to(g, l.node as int)
}

/// Locations come in order of declaration name, then node.
pub open spec fn location_before(a: StructureLocation, b: StructureLocation) -> bool {
    text_lt(a.declaration@, b.declaration@) || (a.declaration@ == b.declaration@ && a.node < b.node)
}

/// The sum of the locations' occurrences.
pub open spec fn occurrence_sum(locs: Seq<StructureLocation>) -> nat
    decreases locs.len(),
{
    if locs.len() == 0 {
        0
    } else {
        occurrence_sum(locs.drop_last()) + locs.last().occurrences as nat
    }
}

/// The result reports a subexpression, of at least `minimum_size` nodes,
/// that occurs in at least `minimum_support` declarations: its verified
/// equal occurrences in name and node order, each with how often it occurs,
/// and the fingerprint, size and depth of the first one found.
pub open spec fn repeat_sound(s: ExtractionSnapshot, config: StructuralConfig, x: RepeatedSubexpression) -> bool {
    let locs = x.locations@;
    &&& same_structural_config(x.config, config)
    &&& locs.len() >= 1
    &&& forall|k: int| 0 <= k < locs.len() ==> location_ok(s, config.filter, #[trigger] locs[k])
        && locs[k].layer == locs[0].layer && location_occurrences(s, locs[k])
        && (location_graph(s, locs[k]) matches Some(g) && capped(tree_size(g, locs[k].node as int)) >= config.minimum_size)
    &&& forall|i: int, j: int| 0 <= i < j < locs.len() ==> !location_before(#[trigger] locs[j], #[trigger] locs[i])
    &&& x.total_occurrences == capped(occurrence_sum(locs))
    &&& x.unique_declarations >= config.minimum_support
    &&& exists|uniq: Seq<usize>| #![trigger uniq.len()] increasing(uniq) && x.unique_declarations == uniq.len()
        && forall|d: usize| #[trigger] uniq.contains(d) <==> (d < s.declarations@.len()
            && exists|k: int| 0 <= k < locs.len() && #[trigger] locs[k].declaration@ == s.declarations@[d as int].name@)
    &&& exists|r: int| #![trigger locs[r]] 0 <= r < locs.len()
        && (forall|k: int| 0 <= k < locs.len() && k != r ==> locations_match(s, config.mode, #[trigger] locs[k], locs[r]))
        && (location_graph(s, locs[r]) matches Some(g) && {
            &&& x.fingerprint@ == hex_fixed(fingerprints_of(g, config.mode)[locs[r].node as int] as nat, 16)
            &&& x.expression_size == capped(tree_size(g, locs[r].node as int))
            &&& x.expression_depth == capped(tree_depth(g, locs[r].node as int))
        })
}

/// A location ordered by declaration name, then node.
struct LocationKey {
    location: StructureLocation,
}

impl Ranked for LocationKey {
    closed spec fn rank_lt(self, other: Self) -> bool {
        location_before(self.location, other.location)
    }

    fn precedes(&self, other: &Self) -> (r: bool) {
        match compare_text(self.location.declaration.as_str(), other.location.declaration.as_str()) {
            Order::Less => true,
            Order::Greater => false,
            Order::Equal => self.location.node < other.location.node,
        }
    }

    proof fn lemma_rank_order(a: Self, b: Self, c: Self) {
        lemma_text_lt_trichotomy(a.location.declaration@, b.location.declaration@);
        lemma_text_lt_trichotomy(b.location.declaration@, c.location.declaration@);
        lemma_text_lt_trichotomy(a.location.declaration@, c.location.declaration@);
        if text_lt(a.location.declaration@, b.location.declaration@) && text_lt(b.location.declaration@, c.location.declaration@) {
            lemma_text_lt_transitive(a.location.declaration@, b.location.declaration@, c.location.declaration@);
        }
        if text_lt(c.location.declaration@, b.location.declaration@) && text_lt(b.location.declaration@, a.location.declaration@) {
            lemma_text_lt_transitive(c.location.declaration@, b.location.declaration@, a.location.declaration@);
        }
    }
}

/// A result with the key it is sorted by.
struct RepeatKey {
    result: RepeatedSubexpression,
    arrival: usize,
}

impl Ranked for RepeatKey {
    closed spec fn rank_lt(self, other: Self) -> bool {
        self.result.expression_size > other.result.expression_size || (self.result.expression_size == other.result.expression_size
            && (self.result.unique_declarations > other.result.unique_declarations
            || (self.result.unique_declarations == other.result.unique_declarations
            && (text_lt(self.result.fingerprint@, other.result.fingerprint@)
            || (self.result.fingerprint@ == other.result.fingerprint@ && self.arrival < other.arrival)))))
    }

    fn precedes(&self, other: &Self) -> (r: bool) {
        if self.result.expression_size != other.result.expression_size {
            self.result.expression_size > other.result.expression_size
        } else if self.result.unique_declarations != other.result.unique_declarations {
            self.result.unique_declarations > other.result.unique_declarations
        } else {
            match compare_text(self.result.fingerprint.as_str(), other.result.fingerprint.as_str()) {
                Order::Less => true,
                Order::Greater => false,
                Order::Equal => self.arrival < other.arrival,
            }
        }
    }

    proof fn lemma_rank_order(a: Self, b: Self, c: Self) {
        lemma_text_lt_trichotomy(a.result.fingerprint@, b.result.fingerprint@);
        lemma_text_lt_trichotomy(b.result.fingerprint@, c.result.fingerprint@);
        lemma_text_lt_trichotomy(a.result.fingerprint@, c.result.fingerprint@);
        if text_lt(a.result.fingerprint@, b.result.fingerprint@) && text_lt(b.result.fingerprint@, c.result.fingerprint@) {
            lemma_text_lt_transitive(a.result.fingerprint@, b.result.fingerprint@, c.result.fingerprint@);
        }
        if text_lt(c.result.fingerprint@, b.result.fingerprint@) && text_lt(b.result.fingerprint@, a.result.fingerprint@) {
            lemma_text_lt_transitive(c.result.fingerprint@, b.result.fingerprint@, a.result.fingerprint@);
        }
    }
}

/// Repeated subexpressions are sorted larger first, then by more
/// declarations, then by fingerprint.
pub open spec fn repeats_sorted(r: Seq<RepeatedSubexpression>) -> bool {
    forall|i: int, j: int| 0 <= i < j < r.len() ==> (#[trigger] r[i]).expression_size > (#[trigger] r[j]).expression_size
        || (r[i].expression_size == r[j].expression_size && (r[i].unique_declarations > r[j].unique_declarations
        || (r[i].unique_declarations == r[j].unique_declarations && !text_lt(r[j].fingerprint@, r[i].fingerprint@))))
}

/// The candidate is a node of at least `minimum_size` of an admitted
/// declaration's expression in the layer, with that fingerprint.
spec fn node_candidate(s: ExtractionSnapshot, config: StructuralConfig, layer: DependencyLayer, fingerprint: u64, c: (usize, usize)) -> bool {
    &&& c.0 < s.declarations@.len()
    &&& filter_matches_declaration(config.filter, s.declarations@[c.0 as int])
    &&& selection_includes(config.filter.layer, layer)
    &&& layer_graph(s.declarations@[c.0 as int], layer) matches Some(g) && c.1 < g.nodes@.len() && graph_valid(g)
        && fingerprint == fingerprints_of(g, config.mode)[c.1 as int] && capped(tree_size(g, c.1 as int)) >= config.minimum_size
}

/// The distinct declarations of the pairs, in increasing order.
fn distinct_declarations(pairs: &Vec<(usize, usize)>) -> (r: Vec<usize>)
    ensures
        increasing(r@),
        forall|d: usize| #[trigger] r@.contains(d) <==> exists|k: int| 0 <= k < pairs@.len() && (#[trigger] pairs@[k]).0 == d,
        r@.len() == declaration_set(pairs@).len(),
{
    let mut r: Vec<usize> = Vec::new();
    let mut k: usize = 0;
    while k < pairs.len()
        invariant
            k <= pairs@.len(),
            increasing(r@),
            forall|d: usize| #[trigger] r@.contains(d) <==> exists|j: int| 0 <= j < k && (#[trigger] pairs@[j]).0 == d,
        decreases pairs@.len() - k,
    {
        let ghost before = r@;
        r = insert_unique(&r, pairs[k].0);
        proof {
            assert forall|d: usize| #[trigger] r@.contains(d) <==> exists|j: int| 0 <= j < k + 1 && (#[trigger] pairs@[j]).0 == d by {
                if d == pairs@[k as int].0 {
                    assert(pairs@[k as int].0 == d);
                }
                if exists|j: int| 0 <= j < k + 1 && (#[trigger] pairs@[j]).0 == d {
                    let j = choose|j: int| 0 <= j < k + 1 && (#[trigger] pairs@[j]).0 == d;
                    if j < k {
                        assert(before.contains(d));
                    }
                }
            }
        }
        k = k + 1;
    }
    proof {
        assert(r@.no_duplicates()) by {
            assert forall|i: int, j: int| 0 <= i < r@.len() && 0 <= j < r@.len() && i != j implies r@[i] != r@[j] by {
                if i < j {
                    assert(r@[i] < r@[j]);
                } else {
                    assert(r@[j] < r@[i]);
                }
            }
        }
        r@.unique_seq_to_set();
        assert(r@.to_set() =~= declaration_set(pairs@));
    }
    r
}

/// The declarations that the pairs name.
spec fn declaration_set(pairs: Seq<(usize, usize)>) -> Set<usize> {
    Set::new(|d: usize| exists|k: int| 0 <= k < pairs.len() && (#[trigger] pairs[k]).0 == d)
}

/// The first `n` groups that span at least `minimum` declarations, in order.
spec fn spanning_groups(groups: Seq<Seq<(usize, usize)>>, minimum: int, n: int) -> Seq<Seq<(usize, usize)>>
    decreases n,
{
    if n <= 0 {
        Seq::empty()
    } else {
        let earlier = spanning_groups(groups, minimum, n - 1);
        if declaration_set(groups[n - 1]).len() >= minimum {
            earlier.push(groups[n - 1])
        } else {
            earlier
        }
    }
}

/// The result lists each member of the group, as many locations as members,
/// and counts the declarations the group spans.
spec fn repeat_reports(s: ExtractionSnapshot, x: RepeatedSubexpression, group: Seq<(usize, usize)>) -> bool {
    &&& x.locations@.len() == group.len()
    &&& x.unique_declarations == declaration_set(group).len()
    &&& forall|k: int| 0 <= k < group.len() ==> exists|j: int| 0 <= j < x.locations@.len()
        && (#[trigger] x.locations@[j]).declaration@ == s.declarations@[(#[trigger] group[k]).0 as int].name@
        && x.locations@[j].node == group[k].1
}

impl AnalysisCorpus {
    /// Subexpressions of at least `minimum_size` nodes that occur,
    /// structurally equal, in at least `minimum_support` declarations;
    /// larger first, at most `limit` of them.
    pub fn repeated_subexpressions(&self, config: &StructuralConfig) -> (r: Vec<RepeatedSubexpression>)
        ensures
            r@.len() <= config.limit,
            exists|n: nat| #[trigger] repeat_group_count(self.snapshot_view(), *config, n)
                && r@.len() == if n < config.limit { n } else { config.limit as nat },
            repeats_sorted(r@),
            forall|k: int| 0 <= k < r@.len() ==> repeat_sound(self.snapshot_view(), *config, #[trigger] r@[k]),
    {
        let ghost s = self.snapshot_view();
        let cands = self.candidates(config, false);
        let mut results: Vec<RepeatKey> = Vec::new();
        let mut start: usize = 0;
        while start < cands.len()
            invariant
                s == self.snapshot_view(),
                forall|k: int| 0 <= k < cands@.len() ==> candidate_sound(s, *config, false, #[trigger] cands@[k]),
                start <= cands@.len(),
                forall|k: int| 0 <= k < results@.len() ==> repeat_sound(s, *config, (#[trigger] results@[k]).result)
                    && results@[k].arrival == k,
                results@.len() + repeat_groups_from(s, *config, cands@, start as int) == repeat_groups_from(s, *config, cands@, 0),
            decreases cands@.len() - start,
        {
            let layer = cands[start].layer;
            let fingerprint = cands[start].fingerprint;
            let (end, members) = candidate_run(&cands, start);
            let support = distinct_declarations(&members);
            proof {
                assert(repeat_groups_from(s, *config, cands@, start as int) == (if declaration_set(members@).len() >= config.minimum_support {
                    spanning_groups(groups_of(s, layer, config.mode, members@), config.minimum_support as int,
                        groups_of(s, layer, config.mode, members@).len() as int).len()
                } else {
                    0nat
                }) + repeat_groups_from(s, *config, cands@, end as int));
            }
            if support.len() >= config.minimum_support {
                proof {
                    assert forall|j: int| 0 <= j < members@.len() implies node_candidate(s, *config, layer, fingerprint, #[trigger] members@[j]) by {
                        assert(run_entry(cands@, start as int, members@, j));
                        assert(candidate_sound(s, *config, false, cands@[start + j]));
                    }
                }
                self.record_repeats(config, layer, fingerprint, &members, &mut results);
            }
            start = end;
        }
        let ghost before = results@;
        proof {
            assert(repeat_groups_from(s, *config, cands@, start as int) == 0);
        }
        let sorted = sort_ranked(results);
        let ghost s0 = sorted@;
        proof {
            vstd::seq_lib::to_multiset_len(s0);
            vstd::seq_lib::to_multiset_len(before);
            assert(repeat_group_count(s, *config, before.len()));
            assert forall|j: int| 0 <= j < s0.len() implies repeat_sound(s, *config, (#[trigger] s0[j]).result) by {
                broadcast use vstd::seq_lib::group_to_multiset_ensures;
                assert(s0.to_multiset().count(s0[j]) > 0);
                assert(before.contains(s0[j]));
            }
        }
        let mut sorted = sorted;
        let keep = if sorted.len() < config.limit { sorted.len() } else { config.limit };
        sorted.truncate(keep);
        let mut reversed: Vec<RepeatedSubexpression> = Vec::new();
        while sorted.len() > 0
            invariant
                reversed@.len() + sorted@.len() == keep,
                keep <= s0.len(),
                sorted@ == s0.take(sorted@.len() as int),
                forall|j: int| 0 <= j < reversed@.len() ==> #[trigger] reversed@[j] == s0[keep - 1 - j].result,
            decreases sorted@.len(),
        {
            let key = sorted.pop().unwrap();
            reversed.push(key.result);
        }
        let mut out: Vec<RepeatedSubexpression> = Vec::new();
        while reversed.len() > 0
            invariant
                out@.len() + reversed@.len() == keep,
                keep <= s0.len(),
                forall|j: int| 0 <= j < reversed@.len() ==> #[trigger] reversed@[j] == s0[keep - 1 - j].result,
                forall|j: int| 0 <= j < out@.len() ==> #[trigger] out@[j] == s0[j].result,
            decreases reversed@.len(),
        {
            let m = reversed.pop().unwrap();
            out.push(m);
        }
        proof {
            assert forall|i: int, j: int| 0 <= i < j < out@.len() implies (#[trigger] out@[i]).expression_size > (#[trigger] out@[j]).expression_size
                || (out@[i].expression_size == out@[j].expression_size && (out@[i].unique_declarations > out@[j].unique_declarations
                || (out@[i].unique_declarations == out@[j].unique_declarations && !text_lt(out@[j].fingerprint@, out@[i].fingerprint@)))) by {
                assert(!s0[j].rank_lt(s0[i]));
            }
        }
        out
    }

    /// Adds the result of each verified group of the candidates that spans
    /// enough declarations.
    fn record_repeats(&self, config: &StructuralConfig, layer: DependencyLayer, fingerprint: u64, members: &Vec<(usize, usize)>, results: &mut Vec<RepeatKey>)
        requires
            forall|j: int| 0 <= j < members@.len() ==> node_candidate(self.snapshot_view(), *config, layer, fingerprint, #[trigger] members@[j]),
            forall|k: int| 0 <= k < old(results)@.len() ==> repeat_sound(self.snapshot_view(), *config, (#[trigger] old(results)@[k]).result)
                && old(results)@[k].arrival == k,
        ensures
            forall|k: int| 0 <= k < final(results)@.len() ==> repeat_sound(self.snapshot_view(), *config, (#[trigger] final(results)@[k]).result)
                && final(results)@[k].arrival == k,
            ({
                let gs = groups_of(self.snapshot_view(), layer, config.mode, members@);
                let kept = spanning_groups(gs, config.minimum_support as int, gs.len() as int);
                &&& final(results)@.len() == old(results)@.len() + kept.len()
                &&& forall|k: int| 0 <= k < old(results)@.len() ==> #[trigger] final(results)@[k] == old(results)@[k]
                &&& forall|i: int| 0 <= i < kept.len() ==> repeat_reports(self.snapshot_view(), (#[trigger] final(results)@[old(results)@.len() + i]).result, kept[i])
            }),
    {
        let ghost s = self.snapshot_view();
        let ghost r0 = results@;
        proof {
            assert forall|j: int| 0 <= j < members@.len() implies candidate_ok(s, layer, #[trigger] members@[j]) by {
                assert(node_candidate(s, *config, layer, fingerprint, members@[j]));
            }
        }
        let groups = verified_groups(self, layer, members, config.mode);
        proof {
            lemma_groups_of(s, layer, config.mode, members@);
        }
        let ghost gs = groups_of(s, layer, config.mode, members@);
        let mut g: usize = 0;
        while g < groups.len()
            invariant
                s == self.snapshot_view(),
                forall|j: int| 0 <= j < members@.len() ==> node_candidate(s, *config, layer, fingerprint, #[trigger] members@[j]),
                groups@.map_values(|x: Vec<(usize, usize)>| x@) == gs,
                groups_facts(s, layer, config.mode, members@, gs),
                g <= groups@.len(),
                forall|k: int| 0 <= k < results@.len() ==> repeat_sound(s, *config, (#[trigger] results@[k]).result)
                    && results@[k].arrival == k,
                results@.len() == r0.len() + spanning_groups(gs, config.minimum_support as int, g as int).len(),
                forall|k: int| 0 <= k < r0.len() ==> #[trigger] results@[k] == r0[k],
                forall|i: int| 0 <= i < spanning_groups(gs, config.minimum_support as int, g as int).len()
                    ==> repeat_reports(s, (#[trigger] results@[r0.len() + i]).result, spanning_groups(gs, config.minimum_support as int, g as int)[i]),
            decreases groups@.len() - g,
        {
            let ghost before = results@;
            proof {
                assert(groups@[g as int]@ == gs[g as int]);
            }
            let unique = distinct_declarations(&groups[g]);
            if unique.len() >= config.minimum_support {
                proof {
                    let gv = groups@[g as int]@;
                    assert(gv == gs[g as int]);
                    assert forall|m: int| 0 <= m < gv.len() implies node_candidate(s, *config, layer, fingerprint, #[trigger] gv[m]) by {
                        assert(members@.contains(gv[m]));
                    }
                    assert forall|m: int| 1 <= m < gv.len() implies nodes_match(s, layer, config.mode, #[trigger] gv[m], gv[0]) by {
                        assert(nodes_match(s, layer, config.mode, gs[g as int][m], gs[g as int][0]));
                    }
                }
                let x = self.repeat_result(config, layer, fingerprint, &groups[g], &unique);
                let arrival = results.len();
                results.push(RepeatKey { result: x, arrival });
                proof {
                    let prev = spanning_groups(gs, config.minimum_support as int, g as int);
                    assert(spanning_groups(gs, config.minimum_support as int, g + 1) == prev.push(gs[g as int]));
                    assert forall|i: int| 0 <= i < prev.len() + 1
                        implies repeat_reports(s, (#[trigger] results@[r0.len() + i]).result, prev.push(gs[g as int])[i]) by {
                        if i < prev.len() {
                            assert(results@[r0.len() + i] == before[r0.len() + i]);
                        }
                    }
                }
            }
            g = g + 1;
        }
        proof {
            assert(g == gs.len()) by {
                assert(groups@.map_values(|x: Vec<(usize, usize)>| x@).len() == groups@.len());
            }
        }
    }

    /// The result that a verified group of subexpressions reports.
    fn repeat_result(&self, config: &StructuralConfig, layer: DependencyLayer, fingerprint: u64, group: &Vec<(usize, usize)>, unique: &Vec<usize>) -> (x: RepeatedSubexpression)
        requires
            group@.len() >= 1,
            forall|k: int| 0 <= k < group@.len() ==> node_candidate(self.snapshot_view(), *config, layer, fingerprint, #[trigger] group@[k]),
            forall|k: int| 1 <= k < group@.len() ==> nodes_match(self.snapshot_view(), layer, config.mode, #[trigger] group@[k], group@[0]),
            increasing(unique@),
            unique@.len() >= config.minimum_support,
            forall|d: usize| #[trigger] unique@.contains(d) <==> exists|k: int| 0 <= k < group@.len() && (#[trigger] group@[k]).0 == d,
        ensures
            repeat_sound(self.snapshot_view(), *config, x),
            repeat_reports(self.snapshot_view(), x, group@) <== unique@.len() == declaration_set(group@).len(),
    {
        proof {
            use_type_invariant(self);
        }
        let ghost s = self.snapshot_view();
        let declarations = self.declarations();
        let first = group[0];
        let graph = self.graph(first.0, layer).unwrap();
        proof {
            lemma_layer_graph_valid(s, first.0 as int, layer);
        }
        let (sizes, depths) = subtree_shapes(graph);
        let mut keys: Vec<LocationKey> = Vec::new();
        let mut k: usize = 0;
        while k < group.len()
            invariant
                s == self.snapshot_view(),
                crate::validation::snapshot_valid(s),
                declarations@ == s.declarations@,
                forall|j: int| 0 <= j < group@.len() ==> node_candidate(s, *config, layer, fingerprint, #[trigger] group@[j]),
                k <= group@.len(),
                keys@.len() == k,
                forall|j: int| 0 <= j < k ==> (#[trigger] keys@[j]).location.declaration@ == s.declarations@[group@[j].0 as int].name@
                    && keys@[j].location.layer == layer && keys@[j].location.node == group@[j].1
                    && location_occurrences(s, keys@[j].location),
            decreases group@.len() - k,
        {
            let (id, node) = group[k];
            proof {
                assert(node_candidate(s, *config, layer, fingerprint, group@[k as int]));
                lemma_named_declaration(s, id as int);
            }
            let m = self.multiplicities(id, layer).unwrap();
            let occurrences = m[node];
            let location = StructureLocation { declaration: copy_text(&declarations[id].name), layer, node, occurrences };
            proof {
                assert(named_declaration(s, location.declaration@) == id as int);
            }
            keys.push(LocationKey { location });
            k = k + 1;
        }
        let ghost before = keys@;
        let sorted = sort_ranked(keys);
        let ghost s0 = sorted@;
        proof {
            broadcast use vstd::seq_lib::group_to_multiset_ensures;
            assert(s0.len() == before.len()) by {
                assert(s0.to_multiset().len() == before.to_multiset().len());
            }
        }
        let mut sorted = sorted;
        let mut reversed: Vec<StructureLocation> = Vec::new();
        while sorted.len() > 0
            invariant
                reversed@.len() + sorted@.len() == s0.len(),
                sorted@ == s0.take(sorted@.len() as int),
                forall|j: int| 0 <= j < reversed@.len() ==> #[trigger] reversed@[j] == s0[s0.len() - 1 - j].location,
            decreases sorted@.len(),
        {
            let key = sorted.pop().unwrap();
            reversed.push(key.location);
        }
        let mut locations: Vec<StructureLocation> = Vec::new();
        let mut total: usize = 0;
        let m = reversed.len();
        while reversed.len() > 0
            invariant
                locations@.len() + reversed@.len() == m,
                m == s0.len(),
                forall|j: int| 0 <= j < reversed@.len() ==> #[trigger] reversed@[j] == s0[s0.len() - 1 - j].location,
                forall|j: int| 0 <= j < locations@.len() ==> #[trigger] locations@[j] == s0[j].location,
                total == capped(occurrence_sum(locations@)),
            decreases reversed@.len(),
        {
            let l = reversed.pop().unwrap();
            proof {
                assert((locations@.push(l)).drop_last() == locations@);
            }
            total = if total <= usize::MAX - l.occurrences { total + l.occurrences } else { usize::MAX };
            locations.push(l);
        }
        let x = RepeatedSubexpression {
            config: copy_structural_config(config),
            fingerprint: fingerprint_text(fingerprint),
            unique_declarations: unique.len(),
            total_occurrences: total,
            expression_size: sizes[first.1],
            expression_depth: depths[first.1],
            locations,
        };
        proof {
            lemma_fingerprints_len(*graph, config.mode, graph.nodes@.len() as int);
            lemma_repeat_sound(s, *config, layer, fingerprint, group@, unique@, before, s0, x);
            assert forall|k2: int| 0 <= k2 < group@.len() implies exists|j: int| 0 <= j < x.locations@.len()
                && (#[trigger] x.locations@[j]).declaration@ == s.declarations@[(#[trigger] group@[k2]).0 as int].name@
                && x.locations@[j].node == group@[k2].1 by {
                broadcast use vstd::seq_lib::group_to_multiset_ensures;
                assert(before.to_multiset().count(before[k2]) > 0);
                assert(s0.contains(before[k2]));
                let j = choose|j: int| 0 <= j < s0.len() && s0[j] == before[k2];
                assert(x.locations@[j] == s0[j].location);
            }
        }
        x
    }
}

#[verifier::rlimit(60)]
proof fn lemma_repeat_sound(
    s: ExtractionSnapshot,
    config: StructuralConfig,
    layer: DependencyLayer,
    fingerprint: u64,
    group: Seq<(usize, usize)>,
    unique: Seq<usize>,
    before: Seq<LocationKey>,
    s0: Seq<LocationKey>,
    x: RepeatedSubexpression,
)
    requires
        crate::validation::snapshot_valid(s),
        group.len() >= 1,
        forall|k: int| 0 <= k < group.len() ==> node_candidate(s, config, layer, fingerprint, #[trigger] group[k]),
        forall|k: int| 1 <= k < group.len() ==> nodes_match(s, layer, config.mode, #[trigger] group[k], group[0]),
        increasing(unique),
        unique.len() >= config.minimum_support,
        forall|d: usize| #[trigger] unique.contains(d) <==> exists|k: int| 0 <= k < group.len() && (#[trigger] group[k]).0 == d,
        before.len() == group.len(),
        forall|j: int| 0 <= j < before.len() ==> (#[trigger] before[j]).location.declaration@ == s.declarations@[group[j].0 as int].name@
            && before[j].location.layer == layer && before[j].location.node == group[j].1
            && location_occurrences(s, before[j].location),
        s0.to_multiset() == before.to_multiset(),
        s0.len() == before.len(),
        ranked_sorted(s0),
        x.locations@.len() == s0.len(),
        forall|j: int| 0 <= j < s0.len() ==> #[trigger] x.locations@[j] == s0[j].location,
        same_structural_config(x.config, config),
        x.unique_declarations == unique.len(),
        x.total_occurrences == capped(occurrence_sum(x.locations@)),
        layer_graph(s.declarations@[group[0].0 as int], layer) matches Some(g) && {
            &&& x.fingerprint@ == hex_fixed(fingerprint as nat, 16)
            &&& x.expression_size == capped(tree_size(g, group[0].1 as int))
            &&& x.expression_depth == capped(tree_depth(g, group[0].1 as int))
        },
    ensures
        repeat_sound(s, config, x),
{
    broadcast use vstd::seq_lib::group_to_multiset_ensures;
    let locs = x.locations@;
    let first = group[0];
    assert forall|j: int| 0 <= j < locs.len() implies before.contains(#[trigger] s0[j]) by {
        assert(s0.to_multiset().count(s0[j]) > 0);
    }
    assert forall|i: int| 0 <= i < before.len() implies s0.contains(#[trigger] before[i]) by {
        assert(before.to_multiset().count(before[i]) > 0);
    }
    assert forall|k2: int| 0 <= k2 < locs.len() implies location_ok(s, config.filter, #[trigger] locs[k2])
        && locs[k2].layer == locs[0].layer && location_occurrences(s, locs[k2])
        && (location_graph(s, locs[k2]) matches Some(g) && capped(tree_size(g, locs[k2].node as int)) >= config.minimum_size) by {
        let i = choose|i: int| 0 <= i < before.len() && #[trigger] before[i] == s0[k2];
        let i0 = choose|i: int| 0 <= i < before.len() && #[trigger] before[i] == s0[0];
        assert(node_candidate(s, config, layer, fingerprint, group[i]));
        lemma_named_declaration(s, group[i].0 as int);
    }
    assert forall|a: int, b: int| 0 <= a < b < locs.len() implies !location_before(#[trigger] locs[b], #[trigger] locs[a]) by {
        assert(!s0[b].rank_lt(s0[a]));
    }
    let r0 = choose|j: int| 0 <= j < s0.len() && s0[j] == before[0];
    assert(before[0] == s0[r0]);
    lemma_named_declaration(s, first.0 as int);
    assert(named_declaration(s, locs[r0].declaration@) == first.0 as int);
    assert forall|k2: int| 0 <= k2 < locs.len() && k2 != r0 implies locations_match(s, config.mode, #[trigger] locs[k2], locs[r0]) by {
        let i = choose|i: int| 0 <= i < before.len() && #[trigger] before[i] == s0[k2];
        lemma_named_declaration(s, group[i].0 as int);
        if i == 0 {
            assert(node_candidate(s, config, layer, fingerprint, group[0]));
            let g0 = layer_graph(s.declarations@[group[0].0 as int], layer)->0;
            lemma_struct_eq_refl(g0, group[0].1 as int, config.mode);
        }
        if i >= 1 {
            assert(nodes_match(s, layer, config.mode, group[i], group[0]));
        }
    }
    let uq = unique;
    assert forall|d: usize| #[trigger] uq.contains(d) <==> (d < s.declarations@.len()
        && exists|k2: int| 0 <= k2 < locs.len() && #[trigger] locs[k2].declaration@ == s.declarations@[d as int].name@) by {
        if uq.contains(d) {
            let k2 = choose|k2: int| 0 <= k2 < group.len() && (#[trigger] group[k2]).0 == d;
            assert(node_candidate(s, config, layer, fingerprint, group[k2]));
            let j = choose|j: int| 0 <= j < s0.len() && s0[j] == #[trigger] before[k2];
            assert(locs[j].declaration@ == s.declarations@[d as int].name@);
        }
        if d < s.declarations@.len() && exists|k2: int| 0 <= k2 < locs.len() && #[trigger] locs[k2].declaration@ == s.declarations@[d as int].name@ {
            let k2 = choose|k2: int| 0 <= k2 < locs.len() && #[trigger] locs[k2].declaration@ == s.declarations@[d as int].name@;
            let i = choose|i: int| 0 <= i < before.len() && #[trigger] before[i] == s0[k2];
            assert(node_candidate(s, config, layer, fingerprint, group[i]));
            let e = group[i].0;
            if e != d {
                if e < d {
                    assert(s.declarations@[e as int].name@ != s.declarations@[d as int].name@);
                } else {
                    assert(s.declarations@[d as int].name@ != s.declarations@[e as int].name@);
                }
            }
            assert(group[i].0 == d);
        }
    }
    assert(increasing(uq) && unique.len() == uq.len());
}

/// Every subexpression of a valid graph equals itself.
pub proof fn lemma_struct_eq_refl(g: ExpressionGraph, x: int, mode: StructuralMode)
    requires
        graph_valid(g),
        0 <= x < g.nodes@.len(),
    ensures
        struct_eq(g, x, g, x, mode),
    decreases x, 1int, 0int,
{
    lemma_children_eq_refl(g, x, mode, 0);
}

proof fn lemma_children_eq_refl(g: ExpressionGraph, x: int, mode: StructuralMode, k: int)
    requires
        graph_valid(g),
        0 <= x < g.nodes@.len(),
        0 <= k,
    ensures
        children_eq(g, x, g, x, mode, k),
    decreases x, 0int, g.nodes@[x].children@.len() - k,
{
    if k < g.nodes@[x].children@.len() {
        let c = g.nodes@[x].children@[k] as int;
        assert(c < x);
        lemma_struct_eq_refl(g, c, mode);
        lemma_children_eq_refl(g, x, mode, k + 1);
    }
}


/// Up to renaming of bound variables, a `lambda`, `forall` or `let` node
/// matches a node of the same kind whatever either's binder name: the name
/// is the only field the two may differ in.
pub proof fn lemma_alpha_ignores_binder_names(a: ExpressionNode, b: ExpressionNode)
    requires
        a.kind@ == "lambda"@ || a.kind@ == "forall"@ || a.kind@ == "let"@,
        a.kind@ == b.kind@,
        a.index == b.index,
        opt_view(&a.value) == opt_view(&b.value),
        opt_view(&a.binder_info) == opt_view(&b.binder_info),
        texts_view(a.universe_levels@) == texts_view(b.universe_levels@),
        a.children@.len() == b.children@.len(),
    ensures
        fields_equal(a, b, StructuralMode::AlphaEquivalent),
{
}

/// Up to renaming of bound variables, the fingerprint of a `lambda`,
/// `forall` or `let` node does not depend on its binder name.
pub proof fn lemma_alpha_hash_ignores_binder_names(a: ExpressionNode, b: ExpressionNode)
    requires
        a.kind@ == "lambda"@ || a.kind@ == "forall"@ || a.kind@ == "let"@,
        a.kind@ == b.kind@,
        a.index == b.index,
        opt_view(&a.value) == opt_view(&b.value),
        opt_view(&a.binder_info) == opt_view(&b.binder_info),
    ensures
        node_fields_hash(a, StructuralMode::AlphaEquivalent) == node_fields_hash(b, StructuralMode::AlphaEquivalent),
{
}

/// Every other kind of node keeps its name under renaming of bound
/// variables, and exact comparison keeps every name: nodes whose names
/// differ never match.
pub proof fn lemma_names_matter_outside_binders(a: ExpressionNode, b: ExpressionNode, mode: StructuralMode)
    requires
        mode == StructuralMode::Exact || !(a.kind@ == "lambda"@ || a.kind@ == "forall"@ || a.kind@ == "let"@),
        opt_view(&a.name) != opt_view(&b.name),
    ensures
        !fields_equal(a, b, mode),
{
}

/// Two one-binder expressions that differ only in the bound name are
/// alpha-equivalent: a binder node of kind `lambda`, `forall` or `let` at
/// position 2 over the same two leaves, in two graphs otherwise equal.
pub proof fn lemma_renamed_binders_alpha_equal(gl: ExpressionGraph, gr: ExpressionGraph)
    requires
        gl.nodes@.len() == 3,
        gr.nodes@.len() == 3,
        fields_equal(gl.nodes@[0], gr.nodes@[0], StructuralMode::Exact),
        fields_equal(gl.nodes@[1], gr.nodes@[1], StructuralMode::Exact),
        gl.nodes@[0].children@.len() == 0,
        gl.nodes@[1].children@.len() == 0,
        gl.nodes@[2].kind@ == "lambda"@ || gl.nodes@[2].kind@ == "forall"@ || gl.nodes@[2].kind@ == "let"@,
        gl.nodes@[2].kind@ == gr.nodes@[2].kind@,
        gl.nodes@[2].index == gr.nodes@[2].index,
        opt_view(&gl.nodes@[2].value) == opt_view(&gr.nodes@[2].value),
        opt_view(&gl.nodes@[2].binder_info) == opt_view(&gr.nodes@[2].binder_info),
        texts_view(gl.nodes@[2].universe_levels@) == texts_view(gr.nodes@[2].universe_levels@),
        gl.nodes@[2].children@ == seq![0usize, 1usize],
        gr.nodes@[2].children@ == seq![0usize, 1usize],
    ensures
        struct_eq(gl, 2, gr, 2, StructuralMode::AlphaEquivalent),
        graph_valid(gl) && graph_valid(gr) ==> fingerprints_of(gl, StructuralMode::AlphaEquivalent)[2]
            == fingerprints_of(gr, StructuralMode::AlphaEquivalent)[2],
{
    lemma_alpha_ignores_binder_names(gl.nodes@[2], gr.nodes@[2]);
    assert(struct_eq(gl, 0, gr, 0, StructuralMode::AlphaEquivalent)) by {
        assert(children_eq(gl, 0, gr, 0, StructuralMode::AlphaEquivalent, 0));
    }
    assert(struct_eq(gl, 1, gr, 1, StructuralMode::AlphaEquivalent)) by {
        assert(children_eq(gl, 1, gr, 1, StructuralMode::AlphaEquivalent, 0));
    }
    assert(children_eq(gl, 2, gr, 2, StructuralMode::AlphaEquivalent, 2));
    assert(children_eq(gl, 2, gr, 2, StructuralMode::AlphaEquivalent, 1));
    assert(children_eq(gl, 2, gr, 2, StructuralMode::AlphaEquivalent, 0));
    if graph_valid(gl) && graph_valid(gr) {
        lemma_equal_structures_share_fingerprints(gl, 2, gr, 2, StructuralMode::AlphaEquivalent);
    }
}

/// Structural equality does not depend on the order of its two sides.
pub proof fn lemma_struct_eq_symmetric(gl: ExpressionGraph, l: int, gr: ExpressionGraph, r: int, mode: StructuralMode)
    requires
        graph_valid(gr),
        struct_eq(gl, l, gr, r, mode),
    ensures
        struct_eq(gr, r, gl, l, mode),
    decreases l, 1int, 0int,
{
    lemma_children_eq_symmetric(gl, l, gr, r, mode, 0);
}

proof fn lemma_children_eq_symmetric(gl: ExpressionGraph, l: int, gr: ExpressionGraph, r: int, mode: StructuralMode, k: int)
    requires
        graph_valid(gr),
        0 <= l < gl.nodes@.len(),
        0 <= r < gr.nodes@.len(),
        0 <= k,
        gl.nodes@[l].children@.len() == gr.nodes@[r].children@.len(),
        children_eq(gl, l, gr, r, mode, k),
    ensures
        children_eq(gr, r, gl, l, mode, k),
    decreases l, 0int, gl.nodes@[l].children@.len() - k,
{
    if k < gl.nodes@[l].children@.len() {
        let c = gl.nodes@[l].children@[k] as int;
        let d = gr.nodes@[r].children@[k] as int;
        assert(d < r);
        lemma_struct_eq_symmetric(gl, c, gr, d, mode);
        lemma_children_eq_symmetric(gl, l, gr, r, mode, k + 1);
    }
}

/// Subexpressions equal exactly are equal up to renaming of bound variables.
pub proof fn lemma_exact_implies_alpha(gl: ExpressionGraph, l: int, gr: ExpressionGraph, r: int)
    requires
        struct_eq(gl, l, gr, r, StructuralMode::Exact),
    ensures
        struct_eq(gl, l, gr, r, StructuralMode::AlphaEquivalent),
    decreases l, 1int, 0int,
{
    lemma_exact_children_alpha(gl, l, gr, r, 0);
}

proof fn lemma_exact_children_alpha(gl: ExpressionGraph, l: int, gr: ExpressionGraph, r: int, k: int)
    requires
        0 <= l < gl.nodes@.len(),
        children_eq(gl, l, gr, r, StructuralMode::Exact, k),
    ensures
        children_eq(gl, l, gr, r, StructuralMode::AlphaEquivalent, k),
    decreases l, 0int, gl.nodes@[l].children@.len() - k,
{
    if 0 <= r < gr.nodes@.len() && 0 <= k < gl.nodes@[l].children@.len() && gl.nodes@[l].children@[k] < l {
        lemma_exact_implies_alpha(gl, gl.nodes@[l].children@[k] as int, gr, gr.nodes@[r].children@[k] as int);
        lemma_exact_children_alpha(gl, l, gr, r, k + 1);
    }
}


/// The fingerprints of a node stay the same as more nodes are fingerprinted.
proof fn lemma_fingerprints_prefix(g: ExpressionGraph, mode: StructuralMode, m: int, n: int)
    requires
        0 <= m <= n,
    ensures
        forall|x: int| 0 <= x < m ==> #[trigger] fingerprints_upto(g, mode, n)[x] == fingerprints_upto(g, mode, m)[x],
    decreases n - m,
{
    if m < n {
        lemma_fingerprints_prefix(g, mode, m, n - 1);
        lemma_fingerprints_len(g, mode, n - 1);
        assert forall|x: int| 0 <= x < m implies #[trigger] fingerprints_upto(g, mode, n)[x] == fingerprints_upto(g, mode, m)[x] by {
            assert(fingerprints_upto(g, mode, n)[x] == fingerprints_upto(g, mode, n - 1)[x]);
        }
    }
}

/// The fingerprint of node `x` hashes its fields with those of its children.
proof fn lemma_fingerprint_of_node(g: ExpressionGraph, mode: StructuralMode, x: int)
    requires
        0 <= x < g.nodes@.len(),
    ensures
        fingerprints_of(g, mode)[x] == node_fingerprint(g.nodes@[x], mode, fingerprints_upto(g, mode, x)),
{
    lemma_fingerprints_prefix(g, mode, x + 1, g.nodes@.len() as int);
    lemma_fingerprints_len(g, mode, x);
}

/// Feeding children whose fingerprints agree gives the same hash.
proof fn lemma_feed_children_agree(h: u64, cl: Seq<usize>, fl: Seq<u64>, cr: Seq<usize>, fr: Seq<u64>)
    requires
        cl.len() == cr.len(),
        forall|k: int| 0 <= k < cl.len() ==> fl[#[trigger] cl[k] as int] == fr[cr[k] as int],
    ensures
        feed_children(h, cl, fl) == feed_children(h, cr, fr),
    decreases cl.len(),
{
    if cl.len() > 0 {
        assert forall|k: int| 0 <= k < cl.drop_last().len() implies fl[#[trigger] cl.drop_last()[k] as int] == fr[cr.drop_last()[k] as int] by {
            assert(cl.drop_last()[k] == cl[k] && cr.drop_last()[k] == cr[k]);
        }
        lemma_feed_children_agree(h, cl.drop_last(), fl, cr.drop_last(), fr);
        assert(fl[cl.last() as int] == fr[cr.last() as int]);
    }
}

/// Children equal from the `k`-th on are equal one by one.
proof fn lemma_children_eq_each(gl: ExpressionGraph, l: int, gr: ExpressionGraph, r: int, mode: StructuralMode, k: int)
    requires
        0 <= l < gl.nodes@.len(),
        0 <= r < gr.nodes@.len(),
        0 <= k,
        children_eq(gl, l, gr, r, mode, k),
    ensures
        forall|j: int| k <= j < gl.nodes@[l].children@.len() ==> struct_eq(gl, #[trigger] gl.nodes@[l].children@[j] as int, gr, gr.nodes@[r].children@[j] as int, mode),
    decreases gl.nodes@[l].children@.len() - k,
{
    if k < gl.nodes@[l].children@.len() {
        lemma_children_eq_each(gl, l, gr, r, mode, k + 1);
    }
}

/// Structurally equal subexpressions have equal fingerprints, so grouping
/// by fingerprint never separates a match.
pub proof fn lemma_equal_structures_share_fingerprints(gl: ExpressionGraph, l: int, gr: ExpressionGraph, r: int, mode: StructuralMode)
    requires
        graph_valid(gl),
        graph_valid(gr),
        struct_eq(gl, l, gr, r, mode),
    ensures
        fingerprints_of(gl, mode)[l] == fingerprints_of(gr, mode)[r],
    decreases l,
{
    let nl = gl.nodes@[l];
    let nr = gr.nodes@[r];
    lemma_children_eq_each(gl, l, gr, r, mode, 0);
    lemma_fingerprints_len(gl, mode, l);
    lemma_fingerprints_len(gr, mode, r);
    lemma_fingerprints_prefix(gl, mode, l, gl.nodes@.len() as int);
    lemma_fingerprints_prefix(gr, mode, r, gr.nodes@.len() as int);
    assert forall|k: int| 0 <= k < nl.children@.len() implies fingerprints_upto(gl, mode, l)[#[trigger] nl.children@[k] as int]
        == fingerprints_upto(gr, mode, r)[nr.children@[k] as int] by {
        let cl = nl.children@[k] as int;
        let cr = nr.children@[k] as int;
        assert(cl < l);
        assert(cr < r);
        assert(struct_eq(gl, cl, gr, cr, mode));
        lemma_equal_structures_share_fingerprints(gl, cl, gr, cr, mode);
        assert(fingerprints_of(gl, mode)[cl] == fingerprints_upto(gl, mode, l)[cl]);
        assert(fingerprints_of(gr, mode)[cr] == fingerprints_upto(gr, mode, r)[cr]);
    }
    assert(node_fields_hash(nl, mode) == node_fields_hash(nr, mode));
    lemma_feed_children_agree(
        feed_texts(node_fields_hash(nl, mode), texts_view(nl.universe_levels@)),
        nl.children@,
        fingerprints_upto(gl, mode, l),
        nr.children@,
        fingerprints_upto(gr, mode, r),
    );
    lemma_fingerprint_of_node(gl, mode, l);
    lemma_fingerprint_of_node(gr, mode, r);
}

} // verus!
