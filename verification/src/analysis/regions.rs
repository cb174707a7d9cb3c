//! Graph regions: the communities that label propagation finds in the
//! undirected layer graph, named in order of their least member.
use vstd::prelude::*;
use crate::analysis::corpus::{increasing, AnalysisCorpus};
use crate::analysis::filters::DependencyLayer;
use crate::analysis::graph::insert_unique;
use crate::analysis::dependency::{label_history, label_propagation};
use crate::analysis::influence::{layer_graph_of, lens_filter, lens_path_filter, LensLayerGraph};
use crate::analysis::lenses::{layer_name, GraphRegion, LensAnalysisConfig};
use crate::model::ExtractionSnapshot;
use crate::sorting::{ranked_sorted, sort_ranked, Ranked};
use crate::strings::{append_text, compare_text, copy_text, decimal, decimal_text, text_from, text_lt, texts_view, Order};

verus! {

/// The undirected row of `x`: every node an arc joins to `x` in either
/// direction, from a node the path filter admits, in increasing order.
pub open spec fn undirected_row_ok(g: LensLayerGraph, x: int, row: Seq<usize>) -> bool {
    &&& increasing(row)
    &&& forall|y: usize| #[trigger] row.contains(y) <==> ((g.path_active@[x] && g.adjacency@[x]@.contains(y))
        || (y < g.adjacency@.len() && g.path_active@[y as int] && g.adjacency@[y as int]@.contains(x as usize)))
}

/// The undirected rows of the layer graph.
pub fn undirected_rows(g: &LensLayerGraph) -> (r: Vec<Vec<usize>>)
    requires
        g.path_active@.len() == g.adjacency@.len(),
        forall|x: int, k: int| 0 <= x < g.adjacency@.len() && 0 <= k < g.adjacency@[x]@.len() ==> #[trigger] g.adjacency@[x]@[k] < g.adjacency@.len(),
    ensures
        r@.len() == g.adjacency@.len(),
        forall|x: int| 0 <= x < r@.len() ==> undirected_row_ok(*g, x, #[trigger] r@[x]@),
{
    let n = g.adjacency.len();
    let mut r: Vec<Vec<usize>> = Vec::new();
    let mut x: usize = 0;
    while x < n
        invariant
            x <= n,
            r@.len() == x,
            forall|z: int| 0 <= z < x ==> (#[trigger] r@[z])@.len() == 0,
        decreases n - x,
    {
        r.push(Vec::new());
        x = x + 1;
    }
    let mut s: usize = 0;
    while s < n
        invariant
            n == g.adjacency@.len(),
            g.path_active@.len() == n,
            forall|x: int, k: int| 0 <= x < n && 0 <= k < g.adjacency@[x]@.len() ==> #[trigger] g.adjacency@[x]@[k] < n,
            s <= n,
            r@.len() == n,
            forall|z: int| 0 <= z < n ==> increasing(#[trigger] r@[z]@),
            forall|z: int, y: usize| 0 <= z < n ==> (#[trigger] r@[z]@.contains(y) <==> ((z < s && g.path_active@[z] && g.adjacency@[z]@.contains(y))
                || (y < s && g.path_active@[y as int] && g.adjacency@[y as int]@.contains(z as usize)))),
        decreases n - s,
    {
        if g.path_active[s] {
            let row = &g.adjacency[s];
            let mut j: usize = 0;
            while j < row.len()
                invariant
                    n == g.adjacency@.len(),
                    g.path_active@.len() == n,
                    forall|x: int, k: int| 0 <= x < n && 0 <= k < g.adjacency@[x]@.len() ==> #[trigger] g.adjacency@[x]@[k] < n,
                    s < n,
                    g.path_active@[s as int],
                    row@ == g.adjacency@[s as int]@,
                    j <= row@.len(),
                    r@.len() == n,
                    forall|z: int| 0 <= z < n ==> increasing(#[trigger] r@[z]@),
                    forall|z: int, y: usize| 0 <= z < n ==> (#[trigger] r@[z]@.contains(y) <==> ((z < s && g.path_active@[z] && g.adjacency@[z]@.contains(y))
                        || (y < s && g.path_active@[y as int] && g.adjacency@[y as int]@.contains(z as usize))
                        || (z == s && row@.take(j as int).contains(y))
                        || (y == s && row@.take(j as int).contains(z as usize)))),
                decreases row@.len() - j,
            {
                let t = row[j];
                let ghost r0 = r@;
                let a = insert_unique(&r[s], t);
                r.set(s, a);
                let ghost r1 = r@;
                let b = insert_unique(&r[t], s);
                r.set(t, b);
                proof {
                    assert(row@.take(j + 1) == row@.take(j as int).push(t));
                    assert forall|y: usize| #[trigger] row@.take(j + 1).contains(y) <==> (row@.take(j as int).contains(y) || y == t) by {
                        if row@.take(j + 1).contains(y) {
                            let i = choose|i: int| 0 <= i < j + 1 && #[trigger] row@.take(j + 1)[i] == y;
                            if i < j {
                                assert(row@.take(j as int)[i] == y);
                            }
                        }
                        if row@.take(j as int).contains(y) {
                            let i = choose|i: int| 0 <= i < j && #[trigger] row@.take(j as int)[i] == y;
                            assert(row@.take(j + 1)[i] == y);
                        }
                        if y == t {
                            assert(row@.take(j + 1)[j as int] == y);
                        }
                    }
                    assert(r1[s as int]@ == a@);
                    assert(r@[t as int]@ == b@);
                    assert forall|z: int, y: usize| 0 <= z < n implies (#[trigger] r@[z]@.contains(y) <==> ((z < s && g.path_active@[z] && g.adjacency@[z]@.contains(y))
                        || (y < s && g.path_active@[y as int] && g.adjacency@[y as int]@.contains(z as usize))
                        || (z == s && row@.take(j + 1).contains(y))
                        || (y == s && row@.take(j + 1).contains(z as usize)))) by {
                        assert((z as usize) as int == z);
                        if z != s as int && z != t as int {
                            assert(r@[z] == r0[z]);
                        } else if z == s as int && z != t as int {
                            assert(r@[z] == r1[z]);
                            assert(r@[z]@.contains(y) <==> (r0[z]@.contains(y) || y == t));
                        } else if z == t as int && z != s as int {
                            assert(r1[z] == r0[z]);
                            assert(r@[z]@.contains(y) <==> (r0[z]@.contains(y) || y == s));
                        } else {
                            assert(r@[z]@.contains(y) <==> (r0[z]@.contains(y) || y == t || y == s));
                        }
                    }
                }
                j = j + 1;
            }
            proof {
                assert(row@.take(j as int) == row@);
            }
        }
        s = s + 1;
    }
    r
}


/// The nodes the path filter admits, in increasing order.
pub open spec fn path_active_ids(g: LensLayerGraph, n: int) -> Seq<usize>
    decreases n,
{
    if n <= 0 {
        Seq::empty()
    } else if g.path_active@[n - 1] {
        path_active_ids(g, n - 1).push((n - 1) as usize)
    } else {
        path_active_ids(g, n - 1)
    }
}

/// The labels in order of first appearance.
pub open spec fn fresh_labels(p: Seq<usize>) -> Seq<usize>
    decreases p.len(),
{
    if p.len() == 0 {
        Seq::empty()
    } else {
        let f = fresh_labels(p.drop_last());
        if f.contains(p.last()) { f } else { f.push(p.last()) }
    }
}

/// A number written with at least four digits.
pub open spec fn four_digits(n: nat) -> Seq<char> {
    let d = decimal(n);
    if d.len() < 4 { Seq::new((4 - d.len()) as nat, |i: int| '0') + d } else { d }
}

/// The identifier of the `k`-th region of a layer.
pub open spec fn region_id(layer: DependencyLayer, k: nat) -> Seq<char> {
    (match layer {
        DependencyLayer::Statement => "statement"@,
        DependencyLayer::Proof => "proof"@,
    }) + "-region-"@ + four_digits(k)
}

/// The names, in `order`, of the reported nodes labelled `l`.
pub open spec fn region_members(s: ExtractionSnapshot, g: LensLayerGraph, order: Seq<usize>, labels: Seq<usize>, l: usize) -> Seq<Seq<char>>
    decreases order.len(),
{
    if order.len() == 0 {
        Seq::empty()
    } else {
        let earlier = region_members(s, g, order.drop_last(), labels, l);
        let x = order.last() as int;
        if labels[x] == l && g.active@[x] { earlier.push(s.declarations@[x].name@) } else { earlier }
    }
}

/// The regions of the first `k` labels, those with reported members.
pub open spec fn regions_upto(s: ExtractionSnapshot, g: LensLayerGraph, layer: DependencyLayer, order: Seq<usize>, labels: Seq<usize>,
    fresh: Seq<usize>, k: int) -> Seq<(Seq<char>, Seq<Seq<char>>)>
    decreases k,
{
    if k <= 0 {
        Seq::empty()
    } else {
        let earlier = regions_upto(s, g, layer, order, labels, fresh, k - 1);
        let members = region_members(s, g, order, labels, fresh[k - 1]);
        if members.len() > 0 { earlier.push((region_id(layer, k as nat), members)) } else { earlier }
    }
}

/// Label `l` is the `k`-th of the labels.
pub open spec fn numbered(fresh: Seq<usize>, l: usize, k: nat) -> bool {
    1 <= k <= fresh.len() && fresh[k - 1] == l
}

/// Entry `j` lists the `j`-th node by name with the identifier of its label.
pub open spec fn entry_ok(s: ExtractionSnapshot, layer: DependencyLayer, labels: Seq<usize>, order: Seq<usize>, fresh: Seq<usize>,
    entries: Seq<(String, String)>, j: int) -> bool {
    &&& entries[j].0@ == s.declarations@[order[j] as int].name@
    &&& exists|k: nat| #[trigger] numbered(fresh, labels[order[j] as int], k) && entries[j].1@ == region_id(layer, k)
}

/// The regions and the lookup of a layer, given each node's final label:
/// the nodes the path filter admits are listed by name, each with the
/// identifier of its label, labels numbered in order of their least member;
/// each region keeps its reported members, in name order.
pub open spec fn regions_describe(s: ExtractionSnapshot, g: LensLayerGraph, layer: DependencyLayer, labels: Seq<usize>,
    order: Seq<usize>, entries: Seq<(String, String)>, regions: Seq<GraphRegion>) -> bool {
    let n = s.declarations@.len() as int;
    let fresh = fresh_labels(order.map_values(|x: usize| labels[x as int]));
    let expected = regions_upto(s, g, layer, order, labels, fresh, fresh.len() as int);
    &&& order.len() == path_active_ids(g, n).len()
    &&& forall|x: usize| #[trigger] order.contains(x) <==> path_active_ids(g, n).contains(x)
    &&& forall|i: int, j: int| 0 <= i < j < order.len() ==> text_lt(s.declarations@[#[trigger] order[i] as int].name@, s.declarations@[#[trigger] order[j] as int].name@)
    &&& fresh.no_duplicates()
    &&& entries.len() == order.len()
    &&& forall|i: int| 0 <= i < entries.len() ==> #[trigger] entry_ok(s, layer, labels, order, fresh, entries, i)
    &&& regions.len() == expected.len()
    &&& forall|i: int| 0 <= i < regions.len() ==> (#[trigger] regions[i]).id@ == expected[i].0 && regions[i].layer == layer
        && texts_view(regions[i].members@) == expected[i].1
}


proof fn lemma_path_active_ids(g: LensLayerGraph, n: int)
    requires
        n <= g.path_active.len(),
    ensures
        increasing(path_active_ids(g, n)),
        forall|k: int| 0 <= k < path_active_ids(g, n).len() ==> #[trigger] path_active_ids(g, n)[k] < n
            && g.path_active@[path_active_ids(g, n)[k] as int],
        forall|x: usize| #[trigger] path_active_ids(g, n).contains(x) <==> (x < n && g.path_active@[x as int]),
    decreases n,
{
    if n > 0 {
        lemma_path_active_ids(g, n - 1);
        let p = path_active_ids(g, n - 1);
        let q = path_active_ids(g, n);
        assert(g.path_active@.len() == g.path_active.len());
        assert(((n - 1) as usize) as int == n - 1);
        if g.path_active@[n - 1] {
            assert(q == p.push((n - 1) as usize));
            assert forall|i: int, j: int| 0 <= i < j < q.len() implies #[trigger] q[i] < #[trigger] q[j] by {
                if j < p.len() {
                    assert(q[i] == p[i] && q[j] == p[j]);
                } else {
                    assert(q[i] == p[i]);
                }
            }
            assert forall|k: int| 0 <= k < q.len() implies #[trigger] q[k] < n && g.path_active@[q[k] as int] by {
                if k < p.len() {
                    assert(q[k] == p[k]);
                }
            }
        }
        assert forall|x: usize| #[trigger] q.contains(x) <==> (x < n && g.path_active@[x as int]) by {
            if q.contains(x) {
                let k = choose|k: int| 0 <= k < q.len() && q[k] == x;
                if k < p.len() {
                    assert(p[k] == x);
                    assert(p.contains(x));
                }
            }
            if x < n && g.path_active@[x as int] {
                if x < n - 1 {
                    assert(p.contains(x));
                    let k = choose|k: int| 0 <= k < p.len() && p[k] == x;
                    assert(q[k] == x);
                } else {
                    assert(q[q.len() - 1] == x);
                }
            }
        }
    } else {
        assert forall|x: usize| #[trigger] path_active_ids(g, n).contains(x) <==> (x < n && g.path_active@[x as int]) by {}
    }
}

/// A prefix's labels come first among all the labels.
proof fn lemma_fresh_prefix(p: Seq<usize>, i: int, j: int)
    requires
        0 <= i <= j <= p.len(),
    ensures
        fresh_labels(p.take(i)).len() <= fresh_labels(p.take(j)).len(),
        forall|k: int| 0 <= k < fresh_labels(p.take(i)).len() ==> #[trigger] fresh_labels(p.take(j))[k] == fresh_labels(p.take(i))[k],
    decreases j - i,
{
    if i < j {
        lemma_fresh_prefix(p, i, j - 1);
        assert(p.take(j).drop_last() == p.take(j - 1));
    }
}

proof fn lemma_fresh_len(p: Seq<usize>)
    ensures
        fresh_labels(p).len() <= p.len(),
    decreases p.len(),
{
    if p.len() > 0 {
        lemma_fresh_len(p.drop_last());
    }
}

proof fn lemma_fresh_distinct(p: Seq<usize>)
    ensures
        fresh_labels(p).no_duplicates(),
        forall|l: usize| #[trigger] fresh_labels(p).contains(l) <==> p.contains(l),
    decreases p.len(),
{
    if p.len() > 0 {
        lemma_fresh_distinct(p.drop_last());
        let f = fresh_labels(p.drop_last());
        assert forall|l: usize| #[trigger] fresh_labels(p).contains(l) <==> p.contains(l) by {
            if p.drop_last().contains(l) {
                let k = choose|k: int| 0 <= k < p.drop_last().len() && p.drop_last()[k] == l;
                assert(p[k] == l);
            }
            if p.contains(l) {
                let k = choose|k: int| 0 <= k < p.len() && p[k] == l;
                if k < p.len() - 1 {
                    assert(p.drop_last()[k] == l);
                }
            }
            if !f.contains(p.last()) {
                assert(fresh_labels(p)[f.len() as int] == p.last());
                if fresh_labels(p).contains(l) && l != p.last() {
                    let k = choose|k: int| 0 <= k < fresh_labels(p).len() && fresh_labels(p)[k] == l;
                    assert(f[k] == l);
                }
                if f.contains(l) {
                    let k = choose|k: int| 0 <= k < f.len() && f[k] == l;
                    assert(fresh_labels(p)[k] == l);
                }
            }
        }
    }
}

/// A node with its name and label, sorted by name.
struct NameKey {
    name: String,
    label: usize,
    id: usize,
}

impl Ranked for NameKey {
    closed spec fn rank_lt(self, other: Self) -> bool {
        text_lt(self.name@, other.name@) || (self.name@ == other.name@ && self.id < other.id)
    }

    fn precedes(&self, other: &Self) -> (r: bool) {
        match compare_text(self.name.as_str(), other.name.as_str()) {
            Order::Less => true,
            Order::Greater => false,
            Order::Equal => self.id < other.id,
        }
    }

    proof fn lemma_rank_order(a: Self, b: Self, c: Self) {
        crate::strings::lemma_text_lt_trichotomy(a.name@, b.name@);
        crate::strings::lemma_text_lt_trichotomy(b.name@, c.name@);
        crate::strings::lemma_text_lt_trichotomy(a.name@, c.name@);
        if text_lt(a.name@, b.name@) && text_lt(b.name@, c.name@) {
            crate::strings::lemma_text_lt_transitive(a.name@, b.name@, c.name@);
        }
        if text_lt(c.name@, b.name@) && text_lt(b.name@, a.name@) {
            crate::strings::lemma_text_lt_transitive(c.name@, b.name@, a.name@);
        }
    }
}

/// How many digits a number has, up to four.
proof fn lemma_decimal_len(n: nat)
    ensures
        n < 10 ==> decimal(n).len() == 1,
        10 <= n < 100 ==> decimal(n).len() == 2,
        100 <= n < 1000 ==> decimal(n).len() == 3,
        1000 <= n ==> decimal(n).len() >= 4,
    decreases n,
{
    if n >= 10 {
        lemma_decimal_len(n / 10);
    }
}

/// The identifier of the `k`-th region of a layer.
fn region_id_text(layer: DependencyLayer, k: usize) -> (r: String)
    ensures
        r@ == region_id(layer, k as nat),
{
    let mut t = text_from(layer_name(layer));
    append_text(&mut t, "-region-");
    let digits = decimal_text(k);
    let ghost prefix = t@;
    proof {
        lemma_decimal_len(k as nat);
    }
    let zeros: &str = if k < 10 { "000" } else if k < 100 { "00" } else if k < 1000 { "0" } else { "" };
    append_text(&mut t, zeros);
    proof {
        reveal_strlit("000");
        reveal_strlit("00");
        reveal_strlit("0");
        reveal_strlit("");
        let d = decimal(k as nat);
        if d.len() < 4 {
            assert(zeros@ =~= Seq::new((4 - d.len()) as nat, |i: int| '0'));
        } else {
            assert(zeros@ =~= Seq::<char>::empty());
        }
    }
    append_text(&mut t, digits.as_str());
    proof {
        assert(t@ =~= region_id(layer, k as nat));
    }
    t
}


impl AnalysisCorpus {
    /// The regions of a layer graph and the region of each name: the nodes
    /// the path filter admits, joined by the arcs between them in either
    /// direction, are grouped by label propagation; groups are numbered in
    /// order of their least member's name and identified as
    /// `<layer>-region-<number>` with at least four digits; the lookup lists
    /// every such node by name with its region, and each region keeps its
    /// reported members in name order, where it has any.
    pub fn graph_regions(&self, g: &LensLayerGraph, layer: DependencyLayer, config: &LensAnalysisConfig) -> (r: (Vec<GraphRegion>, Vec<(String, String)>))
        requires
            layer_graph_of(self.snapshot_view(), self.edges_view(), lens_filter(*config, layer), lens_path_filter(*config, layer), *g),
        ensures
            exists|und: Seq<Vec<usize>>, history: Seq<Seq<usize>>, order: Seq<usize>|
                #![trigger label_history(und, path_active_ids(*g, g.adjacency@.len() as int), history), regions_describe(self.snapshot_view(), *g, layer, history.last(), order, r.1@, r.0@)] {
                &&& und.len() == g.adjacency@.len()
                &&& (forall|x: int| 0 <= x < und.len() ==> undirected_row_ok(*g, x, #[trigger] und[x]@))
                &&& label_history(und, path_active_ids(*g, g.adjacency@.len() as int), history)
                &&& regions_describe(self.snapshot_view(), *g, layer, history.last(), order, r.1@, r.0@)
            },
    {
        proof {
            use_type_invariant(self);
        }
        let ghost s = self.snapshot_view();
        let ds = self.declarations();
        let n = g.adjacency.len();
        proof {
            assert forall|x: int, k: int| 0 <= x < n && 0 <= k < g.adjacency@[x]@.len() implies #[trigger] g.adjacency@[x]@[k] < n by {
                assert(crate::analysis::influence::by_name(s.declarations@, g.adjacency@[x]@));
            }
        }
        let mut active: Vec<usize> = Vec::new();
        let mut x: usize = 0;
        while x < n
            invariant
                n == g.adjacency@.len(),
                g.path_active@.len() == n,
                x <= n,
                active@ == path_active_ids(*g, x as int),
            decreases n - x,
        {
            if g.path_active[x] {
                active.push(x);
            }
            x = x + 1;
        }
        proof {
            lemma_path_active_ids(*g, n as int);
        }
        let und = undirected_rows(g);
        proof {
            assert forall|i: int, j: int| 0 <= i < und@.len() && 0 <= j < und@[i]@.len() implies #[trigger] und@[i]@[j] < und@.len() by {
                assert(undirected_row_ok(*g, i, und@[i]@));
                assert(und@[i]@.contains(und@[i]@[j]));
            }
        }
        let labels = label_propagation(&und, &active);
        let ghost history = choose|history: Seq<Seq<usize>>| #[trigger] label_history(und@, active@, history)
            && forall|k: int| 0 <= k < labels@.len() ==> (#[trigger] labels@[k]).0 == active@[k] && labels@[k].1 == history.last()[active@[k] as int];
        let ghost lab = history.last();
        let mut keys: Vec<NameKey> = Vec::new();
        let mut k: usize = 0;
        while k < labels.len()
            invariant
                ds@ == s.declarations@,
                n == s.declarations@.len(),
                labels@.len() == active@.len(),
                forall|i: int| 0 <= i < active@.len() ==> #[trigger] active@[i] < n,
                forall|i: int| 0 <= i < labels@.len() ==> (#[trigger] labels@[i]).0 == active@[i] && labels@[i].1 == lab[active@[i] as int],
                k <= labels@.len(),
                keys@.len() == k,
                forall|i: int| 0 <= i < k ==> (#[trigger] keys@[i]).id == active@[i] && keys@[i].label == lab[active@[i] as int]
                    && keys@[i].name@ == s.declarations@[active@[i] as int].name@,
            decreases labels@.len() - k,
        {
            let id = labels[k].0;
            keys.push(NameKey { name: copy_text(&ds[id].name), label: labels[k].1, id });
            k = k + 1;
        }
        let ghost unsorted = keys@;
        let sorted = sort_ranked(keys);
        let ghost sv = sorted@;
        let ghost order = key_ids(sv);
        proof {
            lemma_sorted_keys(s, active@, lab, unsorted, sv);
        }
        let mut fresh: Vec<usize> = Vec::new();
        let mut entries: Vec<(String, String)> = Vec::new();
        let ghost ls = order.map_values(|x: usize| lab[x as int]);
        let mut i: usize = 0;
        while i < sorted.len()
            invariant
                sv == sorted@,
                order == key_ids(sv),
                ls == order.map_values(|x: usize| lab[x as int]),
                forall|j: int| 0 <= j < sv.len() ==> (#[trigger] sv[j]).label == lab[sv[j].id as int]
                    && sv[j].name@ == s.declarations@[sv[j].id as int].name@,
                i <= sv.len(),
                ls.len() == sv.len(),
                fresh@ == fresh_labels(ls.take(i as int)),
                fresh@.len() <= i,
                entries@.len() == i,
                forall|j: int| 0 <= j < i ==> #[trigger] entry_ok(s, layer, lab, order, fresh@, entries@, j),
            decreases sv.len() - i,
        {
            let label = sorted[i].label;
            let mut p: usize = 0;
            while p < fresh.len() && fresh[p] != label
                invariant
                    p <= fresh@.len(),
                    forall|q: int| 0 <= q < p ==> fresh@[q] != label,
                decreases fresh@.len() - p,
            {
                p = p + 1;
            }
            let ghost f0 = fresh@;
            let ghost e0 = entries@;
            proof {
                assert(ls.take(i + 1).drop_last() == ls.take(i as int));
                assert(order[i as int] == sv[i as int].id);
                assert(ls.take(i + 1).last() == label);
                lemma_fresh_len(ls.take(i + 1));
            }
            if p == fresh.len() {
                fresh.push(label);
                proof {
                    assert(!f0.contains(label));
                }
            } else {
                proof {
                    assert(f0.contains(label));
                }
            }
            proof {
                assert(p < fresh@.len() && fresh@[p as int] == label);
                assert(forall|q: int| 0 <= q < f0.len() ==> #[trigger] fresh@[q] == f0[q]);
            }
            let number = p + 1;
            let id_text = region_id_text(layer, number);
            entries.push((copy_text(&sorted[i].name), id_text));
            proof {
                assert(numbered(fresh@, label, number as nat));
                assert forall|j: int| 0 <= j < i + 1 implies #[trigger] entry_ok(s, layer, lab, order, fresh@, entries@, j) by {
                    if j < i {
                        assert(entries@[j] == e0[j]);
                        assert(entry_ok(s, layer, lab, order, f0, e0, j));
                        let k = choose|k: nat| #[trigger] numbered(f0, lab[order[j] as int], k) && e0[j].1@ == region_id(layer, k);
                        assert(fresh@[k - 1] == f0[k - 1]);
                        assert(numbered(fresh@, lab[order[j] as int], k));
                        assert(entries@[j].1@ == region_id(layer, k));
                    } else {
                        assert(order[j] == sv[j].id);
                        assert(lab[order[j] as int] == label);
                        assert(numbered(fresh@, lab[order[j] as int], number as nat));
                        assert(entries@[j].1@ == region_id(layer, number as nat));
                        assert(entries@[j].0@ == sv[j].name@);
                    }
                }
            }
            i = i + 1;
        }
        proof {
            assert(ls.take(i as int) == ls);
            lemma_fresh_distinct(ls);
        }
        let mut regions: Vec<GraphRegion> = Vec::new();
        let mut k: usize = 0;
        while k < fresh.len()
            invariant
                sv == sorted@,
                order == key_ids(sv),
                forall|j: int| 0 <= j < sv.len() ==> (#[trigger] sv[j]).label == lab[sv[j].id as int]
                    && sv[j].name@ == s.declarations@[sv[j].id as int].name@ && sv[j].id < n,
                g.active@.len() == n,
                k <= fresh@.len(),
                fresh@ == fresh_labels(ls),
                ls == order.map_values(|x: usize| lab[x as int]),
                regions@.len() == regions_upto(s, *g, layer, order, lab, fresh@, k as int).len(),
                forall|j: int| 0 <= j < regions@.len() ==> (#[trigger] regions@[j]).id@ == regions_upto(s, *g, layer, order, lab, fresh@, k as int)[j].0
                    && regions@[j].layer == layer
                    && texts_view(regions@[j].members@) == regions_upto(s, *g, layer, order, lab, fresh@, k as int)[j].1,
            decreases fresh@.len() - k,
        {
            let label = fresh[k];
            let mut members: Vec<String> = Vec::new();
            let mut j: usize = 0;
            while j < sorted.len()
                invariant
                    sv == sorted@,
                    order == key_ids(sv),
                    forall|q: int| 0 <= q < sv.len() ==> (#[trigger] sv[q]).label == lab[sv[q].id as int]
                        && sv[q].name@ == s.declarations@[sv[q].id as int].name@ && sv[q].id < n,
                    g.active@.len() == n,
                    j <= sv.len(),
                    texts_view(members@) == region_members(s, *g, order.take(j as int), lab, label),
                decreases sv.len() - j,
            {
                let ghost m0 = texts_view(members@);
                proof {
                    assert(order.take(j + 1).drop_last() == order.take(j as int));
                    assert(order.take(j + 1).last() == sv[j as int].id);
                }
                if sorted[j].label == label && g.active[sorted[j].id] {
                    members.push(copy_text(&sorted[j].name));
                    proof {
                        assert(texts_view(members@) =~= m0.push(s.declarations@[sv[j as int].id as int].name@));
                    }
                }
                j = j + 1;
            }
            proof {
                assert(order.take(j as int) == order);
            }
            let ghost before = regions@;
            if members.len() > 0 {
                let id_text = region_id_text(layer, k + 1);
                regions.push(GraphRegion { id: id_text, layer, members });
            }
            proof {
                let up = regions_upto(s, *g, layer, order, lab, fresh@, k + 1);
                let prev = regions_upto(s, *g, layer, order, lab, fresh@, k as int);
                assert forall|j: int| 0 <= j < regions@.len() implies (#[trigger] regions@[j]).id@ == up[j].0
                    && regions@[j].layer == layer && texts_view(regions@[j].members@) == up[j].1 by {
                    if j < before.len() {
                        assert(regions@[j] == before[j]);
                        assert(up[j] == prev[j]);
                    }
                }
            }
            k = k + 1;
        }
        proof {
            let pa = path_active_ids(*g, n as int);
            assert(ls =~= order.map_values(|x: usize| lab[x as int]));
            assert forall|a: int, b: int| 0 <= a < b < order.len() implies text_lt(s.declarations@[#[trigger] order[a] as int].name@,
                s.declarations@[#[trigger] order[b] as int].name@) by {
                assert(order[a] == sv[a].id && order[b] == sv[b].id);
            }
            assert forall|x: usize| #[trigger] order.contains(x) <==> pa.contains(x) by {
                assert(key_ids(sv).contains(x) <==> active@.contains(x));
            }
            assert(regions_describe(s, *g, layer, lab, order, entries@, regions@));
            assert(label_history(und@, path_active_ids(*g, g.adjacency@.len() as int), history));
            assert(regions_describe(self.snapshot_view(), *g, layer, history.last(), order, entries@, regions@));
            assert(und@.len() == g.adjacency@.len());
            assert(forall|x: int| 0 <= x < und@.len() ==> undirected_row_ok(*g, x, #[trigger] und@[x]@));
        }
        let result = (regions, entries);
        proof {
            let u = und@;
            assert(label_history(u, path_active_ids(*g, g.adjacency@.len() as int), history)
                && regions_describe(self.snapshot_view(), *g, layer, history.last(), order, result.1@, result.0@)
                && u.len() == g.adjacency@.len()
                && (forall|x: int| 0 <= x < u.len() ==> undirected_row_ok(*g, x, #[trigger] u[x]@)));
        }
        result
    }
}

/// The declarations `ids` (increasing) sorted by name.
pub(crate) fn ids_by_name(ds: &[crate::model::DeclarationSnapshot], ids: &Vec<usize>, Ghost(s): Ghost<ExtractionSnapshot>) -> (r: Vec<usize>)
    requires
        crate::validation::snapshot_valid(s),
        ds@ == s.declarations@,
        increasing(ids@),
        forall|i: int| 0 <= i < ids@.len() ==> #[trigger] ids@[i] < s.declarations@.len(),
    ensures
        r@.len() == ids@.len(),
        forall|x: usize| #[trigger] r@.contains(x) <==> ids@.contains(x),
        forall|j: int| 0 <= j < r@.len() ==> #[trigger] r@[j] < s.declarations@.len(),
        forall|i: int, j: int| 0 <= i < j < r@.len() ==> text_lt(s.declarations@[#[trigger] r@[i] as int].name@,
            s.declarations@[#[trigger] r@[j] as int].name@),
{
    let ghost lab = Seq::new(s.declarations@.len(), |x: int| 0usize);
    let mut keys: Vec<NameKey> = Vec::new();
    let mut k: usize = 0;
    while k < ids.len()
        invariant
            ds@ == s.declarations@,
            forall|i: int| 0 <= i < ids@.len() ==> #[trigger] ids@[i] < s.declarations@.len(),
            lab == Seq::new(s.declarations@.len(), |x: int| 0usize),
            k <= ids@.len(),
            keys@.len() == k,
            forall|i: int| 0 <= i < k ==> (#[trigger] keys@[i]).id == ids@[i] && keys@[i].label == lab[ids@[i] as int]
                && keys@[i].name@ == s.declarations@[ids@[i] as int].name@,
        decreases ids@.len() - k,
    {
        let id = ids[k];
        keys.push(NameKey { name: copy_text(&ds[id].name), label: 0, id });
        k = k + 1;
    }
    let ghost unsorted = keys@;
    let sorted = sort_ranked(keys);
    let ghost sv = sorted@;
    proof {
        lemma_sorted_keys(s, ids@, lab, unsorted, sv);
    }
    let mut r: Vec<usize> = Vec::new();
    let mut i: usize = 0;
    while i < sorted.len()
        invariant
            sv == sorted@,
            i <= sv.len(),
            r@ == key_ids(sv).take(i as int),
        decreases sv.len() - i,
    {
        r.push(sorted[i].id);
        proof {
            assert(key_ids(sv).take(i + 1) =~= key_ids(sv).take(i as int).push(sv[i as int].id));
        }
        i = i + 1;
    }
    proof {
        assert(key_ids(sv).take(i as int) =~= key_ids(sv));
    }
    r
}

/// The nodes of the keys, in order.
spec fn key_ids(keys: Seq<NameKey>) -> Seq<usize> {
    keys.map_values(|q: NameKey| q.id)
}

/// The sorted keys list every admitted node once, in strictly increasing
/// name order.
proof fn lemma_sorted_keys(s: ExtractionSnapshot, active: Seq<usize>, lab: Seq<usize>, unsorted: Seq<NameKey>, sv: Seq<NameKey>)
    requires
        crate::validation::snapshot_valid(s),
        increasing(active),
        forall|i: int| 0 <= i < active.len() ==> #[trigger] active[i] < s.declarations@.len(),
        unsorted.len() == active.len(),
        forall|i: int| 0 <= i < unsorted.len() ==> (#[trigger] unsorted[i]).id == active[i] && unsorted[i].label == lab[active[i] as int]
            && unsorted[i].name@ == s.declarations@[active[i] as int].name@,
        sv.to_multiset() == unsorted.to_multiset(),
        ranked_sorted(sv),
    ensures
        sv.len() == active.len(),
        forall|j: int| 0 <= j < sv.len() ==> (#[trigger] sv[j]).label == lab[sv[j].id as int]
            && sv[j].name@ == s.declarations@[sv[j].id as int].name@ && sv[j].id < s.declarations@.len(),
        forall|x: usize| #[trigger] key_ids(sv).contains(x) <==> active.contains(x),
        forall|i: int, j: int| 0 <= i < j < sv.len() ==> text_lt(s.declarations@[(#[trigger] sv[i]).id as int].name@,
            s.declarations@[(#[trigger] sv[j]).id as int].name@),
{
    broadcast use vstd::seq_lib::group_to_multiset_ensures;
    vstd::seq_lib::to_multiset_len(sv);
    vstd::seq_lib::to_multiset_len(unsorted);
    assert forall|j: int| 0 <= j < sv.len() implies exists|a: int| 0 <= a < unsorted.len() && #[trigger] unsorted[a] == #[trigger] sv[j] by {
        assert(sv.to_multiset().count(sv[j]) > 0);
        assert(unsorted.contains(sv[j]));
    }
    assert(unsorted.no_duplicates()) by {
        assert forall|a: int, b: int| 0 <= a < unsorted.len() && 0 <= b < unsorted.len() && a != b implies unsorted[a] != unsorted[b] by {
            if a < b {
                assert(active[a] < active[b]);
            } else {
                assert(active[b] < active[a]);
            }
        }
    }
    unsorted.lemma_multiset_has_no_duplicates();
    assert forall|x: NameKey| sv.to_multiset().contains(x) implies sv.to_multiset().count(x) == 1 by {
        assert(unsorted.to_multiset().contains(x));
    }
    sv.lemma_multiset_has_no_duplicates_conv();
    let ids = key_ids(sv);
    assert forall|x: usize| #[trigger] ids.contains(x) <==> active.contains(x) by {
        if ids.contains(x) {
            let j = choose|j: int| 0 <= j < ids.len() && ids[j] == x;
            let a = choose|a: int| 0 <= a < unsorted.len() && #[trigger] unsorted[a] == sv[j];
            assert(active[a] == x);
        }
        if active.contains(x) {
            let a = choose|a: int| 0 <= a < active.len() && active[a] == x;
            assert(unsorted.to_multiset().count(unsorted[a]) > 0);
            assert(sv.contains(unsorted[a]));
            let j = choose|j: int| 0 <= j < sv.len() && sv[j] == unsorted[a];
            assert(ids[j] == x);
        }
    }
    assert forall|i: int, j: int| 0 <= i < j < sv.len() implies text_lt(s.declarations@[(#[trigger] sv[i]).id as int].name@,
        s.declarations@[(#[trigger] sv[j]).id as int].name@) by {
        let a = choose|a: int| 0 <= a < unsorted.len() && #[trigger] unsorted[a] == sv[i];
        let b = choose|b: int| 0 <= b < unsorted.len() && #[trigger] unsorted[b] == sv[j];
        assert(!sv[j].rank_lt(sv[i]));
        crate::strings::lemma_text_lt_trichotomy(sv[i].name@, sv[j].name@);
        if a == b {
            assert(sv[i] == sv[j]);
        }
        if a != b {
            let (x, y) = (active[a] as int, active[b] as int);
            if x < y {
                assert(s.declarations@[x].name@ != s.declarations@[y].name@);
            } else {
                assert(active[b] < active[a]);
                assert(s.declarations@[y].name@ != s.declarations@[x].name@);
            }
        }
    }
}

} // verus!
