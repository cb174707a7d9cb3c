//! Orders on names and on lists of names, and sorting by them.
use vstd::prelude::*;
use crate::sorting::{sort_ranked, Ranked};
use crate::strings::{compare_text, lemma_text_lt_transitive, lemma_text_lt_trichotomy, text_lt, texts_view, Order};

verus! {

broadcast use vstd::seq_lib::group_to_multiset_ensures;

/// Lexicographic order on lists of names: a proper prefix is smaller,
/// otherwise the first differing name decides.
pub open spec fn texts_lt(a: Seq<Seq<char>>, b: Seq<Seq<char>>) -> bool
    decreases a.len(),
{
    if a.len() == 0 {
        b.len() > 0
    } else if b.len() == 0 {
        false
    } else if text_lt(a[0], b[0]) {
        true
    } else if a[0] == b[0] {
        texts_lt(a.drop_first(), b.drop_first())
    } else {
        false
    }
}

/// Lexicographic order is a strict total order.
pub proof fn lemma_texts_lt_order(a: Seq<Seq<char>>, b: Seq<Seq<char>>, c: Seq<Seq<char>>)
    ensures
        texts_lt(a, b) || a == b || texts_lt(b, a),
        !(texts_lt(a, b) && texts_lt(b, a)),
        !(texts_lt(a, b) && a == b),
        texts_lt(a, b) && texts_lt(b, c) ==> texts_lt(a, c),
    decreases a.len(),
{
    if a.len() > 0 && b.len() > 0 {
        lemma_text_lt_trichotomy(a[0], b[0]);
        if c.len() > 0 {
            lemma_text_lt_trichotomy(b[0], c[0]);
            lemma_text_lt_trichotomy(a[0], c[0]);
            if text_lt(a[0], b[0]) && text_lt(b[0], c[0]) {
                lemma_text_lt_transitive(a[0], b[0], c[0]);
            }
            lemma_texts_lt_order(a.drop_first(), b.drop_first(), c.drop_first());
        } else {
            lemma_texts_lt_order(a.drop_first(), b.drop_first(), b.drop_first());
        }
        if a.drop_first() == b.drop_first() && a[0] == b[0] {
            assert(a == seq![a[0]] + a.drop_first());
            assert(b == seq![b[0]] + b.drop_first());
        }
    } else if a.len() == 0 && b.len() == 0 {
        assert(a == b);
    }
}

/// Compares two lists of names lexicographically.
pub fn compare_texts(a: &Vec<String>, b: &Vec<String>) -> (r: Order)
    ensures
        r == Order::Less <==> texts_lt(texts_view(a@), texts_view(b@)),
        r == Order::Equal <==> texts_view(a@) == texts_view(b@),
        r == Order::Greater <==> texts_lt(texts_view(b@), texts_view(a@)),
{
    let ghost ta = texts_view(a@);
    let ghost tb = texts_view(b@);
    let mut i: usize = 0;
    while i < a.len() && i < b.len()
        invariant
            ta == texts_view(a@),
            tb == texts_view(b@),
            i <= a@.len(),
            i <= b@.len(),
            forall|k: int| 0 <= k < i ==> ta[k] == tb[k],
        decreases a@.len() - i,
    {
        match compare_text(a[i].as_str(), b[i].as_str()) {
            Order::Less => {
                proof {
                    lemma_texts_suffix(ta, tb, i as int);
                    lemma_texts_lt_order(ta, tb, tb);
                }
                return Order::Less;
            },
            Order::Greater => {
                proof {
                    lemma_texts_suffix(tb, ta, i as int);
                    lemma_texts_lt_order(ta, tb, tb);
                }
                return Order::Greater;
            },
            Order::Equal => {},
        }
        i = i + 1;
    }
    proof {
        lemma_texts_suffix(ta, tb, i as int);
        lemma_texts_suffix(tb, ta, i as int);
        lemma_texts_lt_order(ta, tb, tb);
        if i == a@.len() && i == b@.len() {
            assert(ta =~= tb);
        }
    }
    if a.len() < b.len() {
        Order::Less
    } else if b.len() < a.len() {
        Order::Greater
    } else {
        Order::Equal
    }
}

/// Two lists that agree on their first `i` names compare as their rests do.
proof fn lemma_texts_suffix(a: Seq<Seq<char>>, b: Seq<Seq<char>>, i: int)
    requires
        0 <= i <= a.len(),
        i <= b.len(),
        forall|k: int| 0 <= k < i ==> a[k] == b[k],
    ensures
        texts_lt(a, b) == texts_lt(a.skip(i), b.skip(i)),
    decreases i,
{
    if i > 0 {
        lemma_texts_suffix(a.drop_first(), b.drop_first(), i - 1);
        assert(a.drop_first().skip(i - 1) == a.skip(i));
        assert(b.drop_first().skip(i - 1) == b.skip(i));
        lemma_text_lt_trichotomy(a[0], b[0]);
    } else {
        assert(a.skip(0) == a);
        assert(b.skip(0) == b);
    }
}

/// A name, ordered by name.
struct NameKey {
    name: String,
}

impl Ranked for NameKey {
    closed spec fn rank_lt(self, other: Self) -> bool {
        text_lt(self.name@, other.name@)
    }

    fn precedes(&self, other: &Self) -> (r: bool) {
        match compare_text(self.name.as_str(), other.name.as_str()) {
            Order::Less => true,
            _ => false,
        }
    }

    proof fn lemma_rank_order(a: Self, b: Self, c: Self) {
        lemma_text_lt_trichotomy(a.name@, b.name@);
        lemma_text_lt_trichotomy(b.name@, c.name@);
        lemma_text_lt_trichotomy(a.name@, c.name@);
        if text_lt(a.name@, b.name@) && text_lt(b.name@, c.name@) {
            lemma_text_lt_transitive(a.name@, b.name@, c.name@);
        }
        if text_lt(c.name@, b.name@) && text_lt(b.name@, a.name@) {
            lemma_text_lt_transitive(c.name@, b.name@, a.name@);
        }
    }
}

/// No name comes strictly before an earlier one.
pub open spec fn names_sorted(s: Seq<Seq<char>>) -> bool {
    forall|i: int, j: int| 0 <= i < j < s.len() ==> !text_lt(#[trigger] s[j], #[trigger] s[i])
}

/// The names, in name order.
pub fn sort_names(v: Vec<String>) -> (r: Vec<String>)
    ensures
        names_sorted(texts_view(r@)),
        r@.len() == v@.len(),
        forall|x: Seq<char>| #[trigger] texts_view(r@).contains(x) <==> texts_view(v@).contains(x),
{
    let ghost original = texts_view(v@);
    let mut keys: Vec<NameKey> = Vec::new();
    let mut v = v;
    let ghost v0 = v@;
    let mut i: usize = 0;
    let n = v.len();
    let mut rest: Vec<String> = Vec::new();
    while v.len() > 0
        invariant
            keys@.len() + v@.len() == n,
            v@ == v0.take(v@.len() as int),
            original == texts_view(v0),
            n == v0.len(),
            forall|k: int| 0 <= k < keys@.len() ==> (#[trigger] keys@[k]).name@ == original[n - 1 - k],
        decreases v@.len(),
    {
        let name = v.pop().unwrap();
        keys.push(NameKey { name });
    }
    let sorted = sort_ranked(keys);
    let ghost before = keys@;
    let mut r: Vec<String> = Vec::new();
    let mut sorted = sorted;
    let ghost s0 = sorted@;
    while sorted.len() > 0
        invariant
            r@.len() + sorted@.len() == s0.len(),
            sorted@ == s0.take(sorted@.len() as int),
            forall|k: int| 0 <= k < r@.len() ==> (#[trigger] r@[k])@ == s0[s0.len() - 1 - k].name@,
        decreases sorted@.len(),
    {
        let key = sorted.pop().unwrap();
        r.push(key.name);
    }
    let mut out: Vec<String> = Vec::new();
    let m = r.len();
    while r.len() > 0
        invariant
            out@.len() + r@.len() == m,
            m == s0.len(),
            forall|k: int| 0 <= k < r@.len() ==> (#[trigger] r@[k])@ == s0[s0.len() - 1 - k].name@,
            forall|k: int| 0 <= k < out@.len() ==> (#[trigger] out@[k])@ == s0[k].name@,
        decreases r@.len(),
    {
        let name = r.pop().unwrap();
        out.push(name);
    }
    proof {
        let t = texts_view(out@);
        assert(s0.to_multiset() == before.to_multiset());
        assert(s0.len() == before.len()) by {
            assert(s0.to_multiset().len() == before.to_multiset().len());
        }
        assert forall|a: int, b: int| 0 <= a < b < t.len() implies !text_lt(#[trigger] t[b], #[trigger] t[a]) by {
            assert(!s0[b].rank_lt(s0[a]));
        }
        assert forall|x: Seq<char>| #[trigger] t.contains(x) <==> original.contains(x) by {
            if t.contains(x) {
                let a = choose|a: int| 0 <= a < t.len() && t[a] == x;
                assert(s0.to_multiset().count(s0[a]) > 0);
                assert(before.contains(s0[a]));
                let b = choose|b: int| 0 <= b < before.len() && before[b] == s0[a];
                assert(original[n - 1 - b] == x);
            }
            if original.contains(x) {
                let a = choose|a: int| 0 <= a < original.len() && original[a] == x;
                let k = n - 1 - a;
                assert(before[k].name@ == x);
                assert(before.to_multiset().count(before[k]) > 0);
                assert(s0.contains(before[k]));
                let b = choose|b: int| 0 <= b < s0.len() && s0[b] == before[k];
                assert(t[b] == x);
            }
        }
    }
    out
}

/// Components come larger first, then in lexicographic order of their names.
pub open spec fn component_before(a: Seq<Seq<char>>, b: Seq<Seq<char>>) -> bool {
    a.len() > b.len() || (a.len() == b.len() && texts_lt(a, b))
}

/// A component's names with its position in the unsorted list.
struct ComponentKey {
    names: Vec<String>,
    index: usize,
}

impl Ranked for ComponentKey {
    closed spec fn rank_lt(self, other: Self) -> bool {
        component_before(texts_view(self.names@), texts_view(other.names@))
    }

    fn precedes(&self, other: &Self) -> (r: bool) {
        if self.names.len() != other.names.len() {
            self.names.len() > other.names.len()
        } else {
            match compare_texts(&self.names, &other.names) {
                Order::Less => true,
                _ => false,
            }
        }
    }

    proof fn lemma_rank_order(a: Self, b: Self, c: Self) {
        let (x, y, z) = (texts_view(a.names@), texts_view(b.names@), texts_view(c.names@));
        lemma_texts_lt_order(x, y, z);
        lemma_texts_lt_order(y, z, x);
        lemma_texts_lt_order(z, y, x);
        lemma_texts_lt_order(x, z, y);
        lemma_texts_lt_order(z, x, y);
        lemma_texts_lt_order(y, x, z);
    }
}

/// No component comes strictly before an earlier one.
pub open spec fn components_sorted(s: Seq<Seq<Seq<char>>>) -> bool {
    forall|i: int, j: int| 0 <= i < j < s.len() ==> !component_before(#[trigger] s[j], #[trigger] s[i])
}

/// The lists of names, larger first, then in lexicographic order; `order[c]`
/// is the position in `v` of the list placed at `c`.
pub fn sort_components(v: Vec<Vec<String>>) -> (r: (Vec<Vec<String>>, Ghost<Seq<int>>))
    ensures
        r.0@.len() == v@.len(),
        r.1@.len() == v@.len(),
        components_sorted(r.0@.map_values(|c: Vec<String>| texts_view(c@))),
        forall|c: int| 0 <= c < r.0@.len() ==> 0 <= #[trigger] r.1@[c] < v@.len() && texts_view(r.0@[c]@) == texts_view(v@[r.1@[c]]@),
        forall|c: int, d: int| 0 <= c < d < r.0@.len() ==> #[trigger] r.1@[c] != #[trigger] r.1@[d],
{
    let n = v.len();
    let ghost v0 = v@;
    let mut v = v;
    let mut keys: Vec<ComponentKey> = Vec::new();
    while v.len() > 0
        invariant
            keys@.len() + v@.len() == n,
            n == v0.len(),
            v@ == v0.take(v@.len() as int),
            forall|k: int| 0 <= k < keys@.len() ==> (#[trigger] keys@[k]).index == n - 1 - k
                && texts_view(keys@[k].names@) == texts_view(v0[n - 1 - k]@),
        decreases v@.len(),
    {
        let names = v.pop().unwrap();
        let index = v.len();
        keys.push(ComponentKey { names, index });
    }
    let ghost before = keys@;
    let sorted = sort_ranked(keys);
    let ghost s0 = sorted@;
    let mut sorted = sorted;
    let mut back: Vec<Vec<String>> = Vec::new();
    while sorted.len() > 0
        invariant
            back@.len() + sorted@.len() == s0.len(),
            sorted@ == s0.take(sorted@.len() as int),
            forall|k: int| 0 <= k < back@.len() ==> texts_view((#[trigger] back@[k])@) == texts_view(s0[s0.len() - 1 - k].names@),
        decreases sorted@.len(),
    {
        let key = sorted.pop().unwrap();
        back.push(key.names);
    }
    let mut out: Vec<Vec<String>> = Vec::new();
    let m = back.len();
    while back.len() > 0
        invariant
            out@.len() + back@.len() == m,
            m == s0.len(),
            forall|k: int| 0 <= k < back@.len() ==> texts_view((#[trigger] back@[k])@) == texts_view(s0[s0.len() - 1 - k].names@),
            forall|k: int| 0 <= k < out@.len() ==> texts_view((#[trigger] out@[k])@) == texts_view(s0[k].names@),
        decreases back@.len(),
    {
        let names = back.pop().unwrap();
        out.push(names);
    }
    let ghost order = Seq::new(s0.len(), |c: int| s0[c].index as int);
    proof {
        assert(s0.to_multiset() == before.to_multiset());
        assert(s0.len() == before.len()) by {
            assert(s0.to_multiset().len() == before.to_multiset().len());
        }
        let view = out@.map_values(|c: Vec<String>| texts_view(c@));
        assert forall|a: int, b: int| 0 <= a < b < view.len() implies !component_before(#[trigger] view[b], #[trigger] view[a]) by {
            assert(!s0[b].rank_lt(s0[a]));
        }
        assert forall|c: int| 0 <= c < out@.len() implies 0 <= #[trigger] order[c] < v0.len()
            && texts_view(out@[c]@) == texts_view(v0[order[c]]@) by {
            assert(s0.to_multiset().count(s0[c]) > 0);
            assert(before.contains(s0[c]));
            let b = choose|b: int| 0 <= b < before.len() && before[b] == s0[c];
        }
        assert(before.no_duplicates()) by {
            assert forall|i: int, j: int| 0 <= i < before.len() && 0 <= j < before.len() && i != j
                implies before[i] != before[j] by {
                assert(before[i].index != before[j].index);
            }
        }
        before.lemma_multiset_has_no_duplicates();
        s0.lemma_multiset_has_no_duplicates_conv();
        assert forall|c: int, d: int| 0 <= c < d < out@.len() implies #[trigger] order[c] != #[trigger] order[d] by {
            if order[c] == order[d] {
                assert(s0.to_multiset().count(s0[c]) > 0);
                let b = choose|b: int| 0 <= b < before.len() && before[b] == s0[c];
                assert(s0.to_multiset().count(s0[d]) > 0);
                let b2 = choose|b2: int| 0 <= b2 < before.len() && before[b2] == s0[d];
                assert(before[b].index == before[b2].index);
                assert(b == b2);
                assert(s0[c] == s0[d]);
            }
        }
    }
    (out, Ghost(order))
}

/// Pairs of names come in order of their first, then their second name.
pub open spec fn pair_before(a: (Seq<char>, Seq<char>), b: (Seq<char>, Seq<char>)) -> bool {
    text_lt(a.0, b.0) || (a.0 == b.0 && text_lt(a.1, b.1))
}

/// The view of a pair of names.
pub open spec fn pair_view(p: (String, String)) -> (Seq<char>, Seq<char>) {
    (p.0@, p.1@)
}

/// The views of the pairs.
pub open spec fn pairs_view(s: Seq<(String, String)>) -> Seq<(Seq<char>, Seq<char>)> {
    s.map_values(|p: (String, String)| pair_view(p))
}

/// A pair of names, ordered by `pair_before`.
struct PairKey {
    first: String,
    second: String,
}

impl Ranked for PairKey {
    closed spec fn rank_lt(self, other: Self) -> bool {
        pair_before((self.first@, self.second@), (other.first@, other.second@))
    }

    fn precedes(&self, other: &Self) -> (r: bool) {
        match compare_text(self.first.as_str(), other.first.as_str()) {
            Order::Less => true,
            Order::Greater => false,
            Order::Equal => match compare_text(self.second.as_str(), other.second.as_str()) {
                Order::Less => true,
                _ => false,
            },
        }
    }

    proof fn lemma_rank_order(a: Self, b: Self, c: Self) {
        lemma_text_lt_trichotomy(a.first@, b.first@);
        lemma_text_lt_trichotomy(b.first@, c.first@);
        lemma_text_lt_trichotomy(a.first@, c.first@);
        lemma_text_lt_trichotomy(a.second@, b.second@);
        lemma_text_lt_trichotomy(b.second@, c.second@);
        lemma_text_lt_trichotomy(a.second@, c.second@);
        if text_lt(a.first@, b.first@) && text_lt(b.first@, c.first@) {
            lemma_text_lt_transitive(a.first@, b.first@, c.first@);
        }
        if text_lt(c.first@, b.first@) && text_lt(b.first@, a.first@) {
            lemma_text_lt_transitive(c.first@, b.first@, a.first@);
        }
        if text_lt(a.second@, b.second@) && text_lt(b.second@, c.second@) {
            lemma_text_lt_transitive(a.second@, b.second@, c.second@);
        }
        if text_lt(c.second@, b.second@) && text_lt(b.second@, a.second@) {
            lemma_text_lt_transitive(c.second@, b.second@, a.second@);
        }
    }
}

/// No pair comes strictly before an earlier one.
pub open spec fn pairs_sorted(s: Seq<(String, String)>) -> bool {
    forall|i: int, j: int| 0 <= i < j < s.len() ==> !pair_before(pair_view(#[trigger] s[j]), pair_view(#[trigger] s[i]))
}

/// The pairs, sorted by `pair_before`.
pub fn sort_pairs(v: Vec<(String, String)>) -> (r: Vec<(String, String)>)
    ensures
        pairs_sorted(r@),
        r@.len() == v@.len(),
        forall|x: (Seq<char>, Seq<char>)| #[trigger] pairs_view(r@).contains(x) <==> pairs_view(v@).contains(x),
{
    let ghost original = pairs_view(v@);
    let mut keys: Vec<PairKey> = Vec::new();
    let mut v = v;
    let ghost v0 = v@;
    let n = v.len();
    while v.len() > 0
        invariant
            keys@.len() + v@.len() == n,
            v@ == v0.take(v@.len() as int),
            original == pairs_view(v0),
            n == v0.len(),
            forall|k: int| 0 <= k < keys@.len() ==> ((#[trigger] keys@[k]).first@, keys@[k].second@) == original[n - 1 - k],
        decreases v@.len(),
    {
        let (first, second) = v.pop().unwrap();
        keys.push(PairKey { first, second });
    }
    let ghost before = keys@;
    let sorted = sort_ranked(keys);
    let ghost s0 = sorted@;
    let mut sorted = sorted;
    let mut back: Vec<(String, String)> = Vec::new();
    while sorted.len() > 0
        invariant
            back@.len() + sorted@.len() == s0.len(),
            sorted@ == s0.take(sorted@.len() as int),
            forall|k: int| 0 <= k < back@.len() ==> pair_view(#[trigger] back@[k]) == (s0[s0.len() - 1 - k].first@, s0[s0.len() - 1 - k].second@),
        decreases sorted@.len(),
    {
        let key = sorted.pop().unwrap();
        back.push((key.first, key.second));
    }
    let mut out: Vec<(String, String)> = Vec::new();
    let m = back.len();
    while back.len() > 0
        invariant
            out@.len() + back@.len() == m,
            m == s0.len(),
            forall|k: int| 0 <= k < back@.len() ==> pair_view(#[trigger] back@[k]) == (s0[s0.len() - 1 - k].first@, s0[s0.len() - 1 - k].second@),
            forall|k: int| 0 <= k < out@.len() ==> pair_view(#[trigger] out@[k]) == (s0[k].first@, s0[k].second@),
        decreases back@.len(),
    {
        let pair = back.pop().unwrap();
        out.push(pair);
    }
    proof {
        let t = pairs_view(out@);
        assert(s0.to_multiset() == before.to_multiset());
        assert(s0.len() == before.len()) by {
            assert(s0.to_multiset().len() == before.to_multiset().len());
        }
        assert forall|a: int, b: int| 0 <= a < b < out@.len() implies !pair_before(pair_view(#[trigger] out@[b]), pair_view(#[trigger] out@[a])) by {
            assert(!s0[b].rank_lt(s0[a]));
        }
        assert forall|x: (Seq<char>, Seq<char>)| #[trigger] t.contains(x) <==> original.contains(x) by {
            if t.contains(x) {
                let a = choose|a: int| 0 <= a < t.len() && t[a] == x;
                assert(s0.to_multiset().count(s0[a]) > 0);
                assert(before.contains(s0[a]));
                let b = choose|b: int| 0 <= b < before.len() && before[b] == s0[a];
                assert(original[n - 1 - b] == x);
            }
            if original.contains(x) {
                let a = choose|a: int| 0 <= a < original.len() && original[a] == x;
                let k = n - 1 - a;
                assert((before[k].first@, before[k].second@) == x);
                assert(before.to_multiset().count(before[k]) > 0);
                assert(s0.contains(before[k]));
                let b = choose|b: int| 0 <= b < s0.len() && s0[b] == before[k];
                assert(t[b] == x);
            }
        }
    }
    out
}

} // verus!
