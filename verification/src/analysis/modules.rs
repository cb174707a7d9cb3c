//! Dependency occurrences between modules.
use vstd::prelude::*;
use crate::analysis::corpus::{
    edge_describes, edge_matches_symbol_metadata, edge_selected, edges_describe, AnalysisCorpus, DependencyEdge,
};
use crate::analysis::dependency::capped;
use crate::analysis::filters::{layer_rank, AnalysisFilter, DependencyLayer};
use crate::model::ExtractionSnapshot;
use crate::strings::{compare_text, copy_text, lemma_text_lt_transitive, lemma_text_lt_trichotomy, opt_view, text_from, text_lt, Order};

verus! {

/// A recorded module, or `<unknown>`.
pub open spec fn module_or_unknown(m: Option<Seq<char>>) -> Seq<char> {
    match m {
        Some(x) => x,
        None => "<unknown>"@,
    }
}

/// The source module, target module and layer an edge is counted under.
pub open spec fn module_key(e: DependencyEdge) -> (Seq<char>, Seq<char>, DependencyLayer) {
    (module_or_unknown(opt_view(&e.source_module)), module_or_unknown(opt_view(&e.target_module)), e.layer)
}

/// Keys are ordered by source module, target module, then layer.
pub open spec fn key_lt(a: (Seq<char>, Seq<char>, DependencyLayer), b: (Seq<char>, Seq<char>, DependencyLayer)) -> bool {
    text_lt(a.0, b.0) || (a.0 == b.0 && (text_lt(a.1, b.1) || (a.1 == b.1 && layer_rank(a.2) < layer_rank(b.2))))
}

/// The key of a table entry.
pub open spec fn entry_key(e: ((String, String, DependencyLayer), usize)) -> (Seq<char>, Seq<char>, DependencyLayer) {
    (e.0.0@, e.0.1@, e.0.2)
}

/// The occurrences of the first `n` edges that the filter admits and that
/// are counted under `key`.
pub open spec fn module_weight(
    s: ExtractionSnapshot,
    edges: Seq<DependencyEdge>,
    f: AnalysisFilter,
    key: (Seq<char>, Seq<char>, DependencyLayer),
    n: int,
) -> nat
    decreases n,
{
    if n <= 0 || n > edges.len() {
        0
    } else {
        module_weight(s, edges, f, key, n - 1) + if edge_selected(s, f, edges[n - 1]) && module_key(edges[n - 1]) == key {
            edges[n - 1].occurrences as nat
        } else {
            0nat
        }
    }
}

/// Some of the first `n` edges that the filter admits is counted under `key`.
pub open spec fn key_used(s: ExtractionSnapshot, edges: Seq<DependencyEdge>, f: AnalysisFilter, key: (Seq<char>, Seq<char>, DependencyLayer), n: int) -> bool {
    exists|k: int| 0 <= k < n && #[trigger] edge_selected(s, f, edges[k]) && module_key(edges[k]) == key
}

/// The table lists, by increasing key, each key that the first `n`
/// admitted edges are counted under, with their (saturating) total.
pub open spec fn module_table(
    s: ExtractionSnapshot,
    edges: Seq<DependencyEdge>,
    f: AnalysisFilter,
    r: Seq<((String, String, DependencyLayer), usize)>,
    n: int,
) -> bool {
    &&& forall|i: int, j: int| 0 <= i < j < r.len() ==> key_lt(entry_key(#[trigger] r[i]), entry_key(#[trigger] r[j]))
    &&& forall|key: (Seq<char>, Seq<char>, DependencyLayer)| (exists|i: int| 0 <= i < r.len() && #[trigger] entry_key(r[i]) == key)
        <==> #[trigger] key_used(s, edges, f, key, n)
    &&& forall|i: int| 0 <= i < r.len() ==> (#[trigger] r[i]).1 == capped(module_weight(s, edges, f, entry_key(r[i]), n))
}

proof fn lemma_key_order(a: (Seq<char>, Seq<char>, DependencyLayer), b: (Seq<char>, Seq<char>, DependencyLayer), c: (Seq<char>, Seq<char>, DependencyLayer))
    ensures
        key_lt(a, b) || a == b || key_lt(b, a),
        !(key_lt(a, b) && key_lt(b, a)),
        !(key_lt(a, b) && a == b),
        key_lt(a, b) && key_lt(b, c) ==> key_lt(a, c),
{
    lemma_text_lt_trichotomy(a.0, b.0);
    lemma_text_lt_trichotomy(a.1, b.1);
    lemma_text_lt_trichotomy(b.0, c.0);
    lemma_text_lt_trichotomy(b.1, c.1);
    if text_lt(a.0, b.0) && text_lt(b.0, c.0) {
        lemma_text_lt_transitive(a.0, b.0, c.0);
    }
    if text_lt(a.1, b.1) && text_lt(b.1, c.1) {
        lemma_text_lt_transitive(a.1, b.1, c.1);
    }
    if a.0 == b.0 && a.1 == b.1 && a.2 != b.2 {
        assert(layer_rank(a.2) != layer_rank(b.2));
    }
}

proof fn lemma_weight_step(s: ExtractionSnapshot, edges: Seq<DependencyEdge>, f: AnalysisFilter, key: (Seq<char>, Seq<char>, DependencyLayer), n: int)
    requires
        0 <= n < edges.len(),
    ensures
        module_weight(s, edges, f, key, n + 1) == module_weight(s, edges, f, key, n) + if edge_selected(s, f, edges[n]) && module_key(edges[n]) == key {
            edges[n].occurrences as nat
        } else {
            0nat
        },
        key_used(s, edges, f, key, n + 1) <==> (key_used(s, edges, f, key, n) || (edge_selected(s, f, edges[n]) && module_key(edges[n]) == key)),
{
    if key_used(s, edges, f, key, n + 1) && !(edge_selected(s, f, edges[n]) && module_key(edges[n]) == key) {
        let k = choose|k: int| 0 <= k < n + 1 && #[trigger] edge_selected(s, f, edges[k]) && module_key(edges[k]) == key;
        assert(k < n);
    }
}

proof fn lemma_weight_unused(s: ExtractionSnapshot, edges: Seq<DependencyEdge>, f: AnalysisFilter, key: (Seq<char>, Seq<char>, DependencyLayer), n: int)
    requires
        0 <= n <= edges.len(),
        !key_used(s, edges, f, key, n),
    ensures
        module_weight(s, edges, f, key, n) == 0,
    decreases n,
{
    if n > 0 {
        assert(!key_used(s, edges, f, key, n - 1)) by {
            if key_used(s, edges, f, key, n - 1) {
                let k = choose|k: int| 0 <= k < n - 1 && #[trigger] edge_selected(s, f, edges[k]) && module_key(edges[k]) == key;
                assert(0 <= k < n && edge_selected(s, f, edges[k]) && module_key(edges[k]) == key);
            }
        }
        lemma_weight_unused(s, edges, f, key, n - 1);
        if edge_selected(s, f, edges[n - 1]) && module_key(edges[n - 1]) == key {
            assert(key_used(s, edges, f, key, n));
        }
    }
}

/// The key of an edge, as texts.
fn key_of(e: &DependencyEdge) -> (r: (String, String, DependencyLayer))
    ensures
        (r.0@, r.1@, r.2) == module_key(*e),
{
    let source = match &e.source_module {
        Some(m) => copy_text(m),
        None => text_from("<unknown>"),
    };
    let target = match &e.target_module {
        Some(m) => copy_text(m),
        None => text_from("<unknown>"),
    };
    (source, target, e.layer)
}

/// Whether key `a` comes before key `b`.
fn key_less(a: &(String, String, DependencyLayer), b: &(String, String, DependencyLayer)) -> (r: bool)
    ensures
        r == key_lt((a.0@, a.1@, a.2), (b.0@, b.1@, b.2)),
{
    match compare_text(a.0.as_str(), b.0.as_str()) {
        Order::Less => true,
        Order::Greater => false,
        Order::Equal => match compare_text(a.1.as_str(), b.1.as_str()) {
            Order::Less => true,
            Order::Greater => false,
            Order::Equal => {
                let x: u8 = match a.2 {
                    DependencyLayer::Statement => 0,
                    DependencyLayer::Proof => 1,
                };
                let y: u8 = match b.2 {
                    DependencyLayer::Statement => 0,
                    DependencyLayer::Proof => 1,
                };
                x < y
            },
        },
    }
}

impl AnalysisCorpus {
    /// The occurrences of the dependencies that the filter admits, summed
    /// (saturating) by source module, target module and layer, in that
    /// order of keys.
    pub fn module_dependency_occurrences(&self, filter: &AnalysisFilter) -> (r: Vec<((String, String, DependencyLayer), usize)>)
        ensures
            module_table(self.snapshot_view(), self.edges_view(), *filter, r@, self.edges_view().len() as int),
    {
        proof {
            use_type_invariant(self);
        }
        let ghost s = self.snapshot_view();
        let ghost all = self.edges_view();
        let edges = self.edges();
        let mut r: Vec<((String, String, DependencyLayer), usize)> = Vec::new();
        let mut n: usize = 0;
        while n < edges.len()
            invariant
                s == self.snapshot_view(),
                all == self.edges_view(),
                edges@ == all,
                edges_describe(s, all),
                crate::validation::snapshot_valid(s),
                n <= all.len(),
                module_table(s, all, *filter, r@, n as int),
            decreases all.len() - n,
        {
            let edge = &edges[n];
            proof {
                assert(edge_describes(s, *edge));
                let y = choose|y: int| 0 <= y < s.symbols@.len() && edge_matches_symbol_metadata(*edge, #[trigger] s.symbols@[y]);
                assert(s.symbols@[y].name@ == edge.target@);
            }
            if self.edge_matches(edge, filter) {
                let key = key_of(edge);
                add_to_table(&mut r, key, edge.occurrences, Ghost(s), Ghost(all), Ghost(*filter), Ghost(n as int));
            } else {
                proof {
                    assert forall|key: (Seq<char>, Seq<char>, DependencyLayer)| (exists|i: int| 0 <= i < r@.len() && #[trigger] entry_key(r@[i]) == key)
                        <==> #[trigger] key_used(s, all, *filter, key, n + 1) by {
                        lemma_weight_step(s, all, *filter, key, n as int);
                    }
                    assert forall|i: int| 0 <= i < r@.len() implies (#[trigger] r@[i]).1 == capped(module_weight(s, all, *filter, entry_key(r@[i]), n + 1)) by {
                        lemma_weight_step(s, all, *filter, entry_key(r@[i]), n as int);
                    }
                }
            }
            n = n + 1;
        }
        r
    }
}

/// Counts edge `n`, admitted and counted under `key` with `amount`
/// occurrences, into the table of the edges before it.
fn add_to_table(
    r: &mut Vec<((String, String, DependencyLayer), usize)>,
    key: (String, String, DependencyLayer),
    amount: usize,
    s: Ghost<ExtractionSnapshot>,
    all: Ghost<Seq<DependencyEdge>>,
    f: Ghost<AnalysisFilter>,
    n: Ghost<int>,
)
    requires
        0 <= n@ < all@.len(),
        module_table(s@, all@, f@, old(r)@, n@),
        edge_selected(s@, f@, all@[n@]),
        module_key(all@[n@]) == (key.0@, key.1@, key.2),
        all@[n@].occurrences == amount,
    ensures
        module_table(s@, all@, f@, final(r)@, n@ + 1),
{
    let ghost k = (key.0@, key.1@, key.2);
    let ghost old_r = r@;
    proof {
        lemma_weight_step(s@, all@, f@, k, n@);
    }
    let mut p: usize = 0;
    let mut stop = false;
    while !stop && p < r.len()
        invariant
            r@ == old_r,
            k == (key.0@, key.1@, key.2),
            p <= r@.len(),
            forall|i: int| 0 <= i < p ==> key_lt(entry_key(#[trigger] r@[i]), k),
            stop ==> p < r@.len() && !key_lt(entry_key(r@[p as int]), k),
        decreases r@.len() - p, if stop { 0int } else { 1int },
    {
        if key_less(&r[p].0, &key) {
            p = p + 1;
        } else {
            stop = true;
        }
    }
    let found = stop && !key_less(&key, &r[p].0);
    if found {
        proof {
            lemma_key_order(entry_key(r@[p as int]), k, k);
            assert(entry_key(r@[p as int]) == k);
        }
        let current = r[p].1;
        let total = if current <= usize::MAX - amount { current + amount } else { usize::MAX };
        r.set(p, (key, total));
        proof {
            let t = r@;
            assert forall|i: int, j: int| 0 <= i < j < t.len() implies key_lt(entry_key(#[trigger] t[i]), entry_key(#[trigger] t[j])) by {
                assert(key_lt(entry_key(old_r[i]), entry_key(old_r[j])));
            }
            assert forall|key2: (Seq<char>, Seq<char>, DependencyLayer)| (exists|i: int| 0 <= i < t.len() && #[trigger] entry_key(t[i]) == key2)
                <==> #[trigger] key_used(s@, all@, f@, key2, n@ + 1) by {
                lemma_weight_step(s@, all@, f@, key2, n@);
                if exists|i: int| 0 <= i < old_r.len() && #[trigger] entry_key(old_r[i]) == key2 {
                    let i = choose|i: int| 0 <= i < old_r.len() && #[trigger] entry_key(old_r[i]) == key2;
                    assert(entry_key(t[i]) == key2);
                }
                if exists|i: int| 0 <= i < t.len() && #[trigger] entry_key(t[i]) == key2 {
                    let i = choose|i: int| 0 <= i < t.len() && #[trigger] entry_key(t[i]) == key2;
                    assert(entry_key(old_r[i]) == key2);
                }
            }
            assert forall|i: int| 0 <= i < t.len() implies (#[trigger] t[i]).1 == capped(module_weight(s@, all@, f@, entry_key(t[i]), n@ + 1)) by {
                lemma_weight_step(s@, all@, f@, entry_key(t[i]), n@);
                if i != p {
                    assert(t[i] == old_r[i]);
                    if entry_key(t[i]) == k {
                        lemma_key_order(entry_key(old_r[i]), entry_key(old_r[p as int]), k);
                        if i < p {
                            assert(key_lt(entry_key(old_r[i]), entry_key(old_r[p as int])));
                        } else {
                            assert(key_lt(entry_key(old_r[p as int]), entry_key(old_r[i])));
                        }
                    }
                }
            }
        }
    } else {
        proof {
            if p < old_r.len() {
                lemma_key_order(entry_key(old_r[p as int]), k, k);
            }
            assert(!key_used(s@, all@, f@, k, n@)) by {
                if key_used(s@, all@, f@, k, n@) {
                    let i = choose|i: int| 0 <= i < old_r.len() && #[trigger] entry_key(old_r[i]) == k;
                    if i < p {
                        assert(key_lt(entry_key(old_r[i]), k));
                        lemma_key_order(k, k, k);
                    } else if i > p {
                        assert(key_lt(entry_key(old_r[p as int]), entry_key(old_r[i])));
                        lemma_key_order(k, entry_key(old_r[p as int]), k);
                    }
                }
            }
            lemma_weight_unused(s@, all@, f@, k, n@);
        }
        r.insert(p, (key, amount));
        proof {
            let t = r@;
            assert forall|i: int, j: int| 0 <= i < j < t.len() implies key_lt(entry_key(#[trigger] t[i]), entry_key(#[trigger] t[j])) by {
                if j < p {
                    assert(t[i] == old_r[i] && t[j] == old_r[j]);
                } else if j == p {
                    assert(t[i] == old_r[i]);
                } else if i == p {
                    assert(t[j] == old_r[j - 1]);
                    if j - 1 > p {
                        assert(key_lt(entry_key(old_r[p as int]), entry_key(old_r[j - 1])));
                        lemma_key_order(k, entry_key(old_r[p as int]), entry_key(old_r[j - 1]));
                    }
                    lemma_key_order(k, entry_key(old_r[p as int]), entry_key(old_r[p as int]));
                } else if i < p {
                    assert(t[i] == old_r[i] && t[j] == old_r[j - 1]);
                    lemma_key_order(entry_key(old_r[i]), k, entry_key(old_r[p as int]));
                    if j - 1 > p {
                        assert(key_lt(entry_key(old_r[p as int]), entry_key(old_r[j - 1])));
                        lemma_key_order(entry_key(old_r[i]), entry_key(old_r[p as int]), entry_key(old_r[j - 1]));
                    }
                    lemma_key_order(entry_key(old_r[i]), k, k);
                    lemma_key_order(k, entry_key(old_r[p as int]), entry_key(old_r[j - 1]));
                    if p < old_r.len() {
                        lemma_key_order(entry_key(old_r[i]), entry_key(old_r[p as int]), entry_key(old_r[j - 1]));
                    }
                } else {
                    assert(t[i] == old_r[i - 1] && t[j] == old_r[j - 1]);
                }
            }
            assert forall|key2: (Seq<char>, Seq<char>, DependencyLayer)| (exists|i: int| 0 <= i < t.len() && #[trigger] entry_key(t[i]) == key2)
                <==> #[trigger] key_used(s@, all@, f@, key2, n@ + 1) by {
                lemma_weight_step(s@, all@, f@, key2, n@);
                if exists|i: int| 0 <= i < old_r.len() && #[trigger] entry_key(old_r[i]) == key2 {
                    let i = choose|i: int| 0 <= i < old_r.len() && #[trigger] entry_key(old_r[i]) == key2;
                    if i < p {
                        assert(entry_key(t[i]) == key2);
                    } else {
                        assert(entry_key(t[i + 1]) == key2);
                    }
                }
                if exists|i: int| 0 <= i < t.len() && #[trigger] entry_key(t[i]) == key2 {
                    let i = choose|i: int| 0 <= i < t.len() && #[trigger] entry_key(t[i]) == key2;
                    if i < p {
                        assert(entry_key(old_r[i]) == key2);
                    } else if i > p {
                        assert(entry_key(old_r[i - 1]) == key2);
                    }
                }
                if key2 == k {
                    assert(entry_key(t[p as int]) == key2);
                }
            }
            assert forall|i: int| 0 <= i < t.len() implies (#[trigger] t[i]).1 == capped(module_weight(s@, all@, f@, entry_key(t[i]), n@ + 1)) by {
                lemma_weight_step(s@, all@, f@, entry_key(t[i]), n@);
                if i < p {
                    assert(t[i] == old_r[i]);
                    if entry_key(t[i]) == k {
                        assert(key_lt(entry_key(old_r[i]), k));
                        lemma_key_order(k, k, k);
                    }
                } else if i > p {
                    assert(t[i] == old_r[i - 1]);
                    if entry_key(t[i]) == k {
                        assert(key_used(s@, all@, f@, k, n@)) by {
                            assert(entry_key(old_r[i - 1]) == k);
                        }
                    }
                }
            }
        }
    }
}

} // verus!
