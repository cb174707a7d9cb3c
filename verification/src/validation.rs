//! Well-formedness of expression DAGs, declarations and whole snapshots, and
//! the occurrence counts that undo hash-consing.
use vstd::prelude::*;
use crate::error::SieveError;
use crate::analysis::proof_steps::{proof_steps_valid, validate_proof_steps};
use crate::model::{DeclarationSnapshot, ExprStats, ExpressionGraph, ExpressionNode, ExtractionSnapshot};
use crate::strings::{opt_view, text_eq, texts_view};
use crate::tally::{count_of, tally_add, tally_has, tally_sorted};

verus! {

/// An expression DAG is stored in postorder: every node sits at its own id
/// and refers only to earlier nodes; the root exists.
pub open spec fn graph_valid(g: ExpressionGraph) -> bool {
    &&& g.nodes@.len() > 0
    &&& g.root < g.nodes@.len()
    &&& forall|i: int| 0 <= i < g.nodes@.len() ==> (#[trigger] g.nodes@[i]).id == i
    &&& forall|i: int, k: int|
        0 <= i < g.nodes@.len() && 0 <= k < g.nodes@[i].children@.len()
            ==> #[trigger] g.nodes@[i].children@[k] < i
}

/// How often `x` occurs in `s`.
pub open spec fn count_in(s: Seq<usize>, x: int) -> nat
    decreases s.len(),
{
    if s.len() == 0 {
        0
    } else {
        count_in(s.drop_last(), x) + (if s.last() == x {
            1nat
        } else {
            0nat
        })
    }
}

/// 1 at the root, 0 elsewhere.
pub open spec fn root_mark(g: ExpressionGraph, x: int) -> nat {
    if x == g.root {
        1
    } else {
        0
    }
}

/// The number of root-to-`x` paths in the DAG: how often the subexpression
/// at `x` occurs in the expression tree that the DAG shares.
pub open spec fn paths_to(g: ExpressionGraph, x: int) -> nat
    decreases g.nodes@.len() - x, 0int,
{
    if x < 0 || x >= g.nodes@.len() {
        0
    } else {
        root_mark(g, x) + parent_paths(g, x, x + 1)
    }
}

/// Paths to `x` whose last edge leaves a node with id at least `from`.
pub open spec fn parent_paths(g: ExpressionGraph, x: int, from: int) -> nat
    decreases g.nodes@.len() - from, 1int,
{
    if from < 0 || from >= g.nodes@.len() {
        0
    } else {
        count_in(g.nodes@[from].children@, x) * paths_to(g, from) + parent_paths(g, x, from + 1)
    }
}

/// Every occurrence count fits in a machine word.
pub open spec fn multiplicities_fit(g: ExpressionGraph) -> bool {
    forall|x: int| 0 <= x < g.nodes@.len() ==> #[trigger] paths_to(g, x) <= usize::MAX
}

/// The occurrence counts of the first `n` nodes, summed.
pub open spec fn paths_sum(g: ExpressionGraph, n: int) -> nat
    decreases n,
{
    if n <= 0 {
        0
    } else {
        paths_sum(g, n - 1) + paths_to(g, n - 1)
    }
}

/// The number of nodes of the expression tree that the DAG shares.
pub open spec fn total_occurrences(g: ExpressionGraph) -> nat {
    paths_sum(g, g.nodes@.len() as int)
}

proof fn lemma_count_in_prefix(s: Seq<usize>, t: int, x: int)
    requires
        0 <= t < s.len(),
    ensures
        count_in(s.take(t + 1), x) == count_in(s.take(t), x) + (if s[t] == x {
            1nat
        } else {
            0nat
        }),
        count_in(s.take(t), x) <= count_in(s, x),
        count_in(s.take(t + 1), x) <= count_in(s, x),
    decreases s.len() - t,
{
    assert(s.take(t + 1).drop_last() =~= s.take(t));
    if t + 1 < s.len() {
        lemma_count_in_prefix(s, t + 1, x);
    } else {
        assert(s.take(t + 1) =~= s);
    }
}

proof fn lemma_parent_paths_monotone(g: ExpressionGraph, x: int, a: int, b: int)
    requires
        0 <= a <= b,
    ensures
        parent_paths(g, x, b) <= parent_paths(g, x, a),
    decreases b - a,
{
    if a < b {
        lemma_parent_paths_monotone(g, x, a + 1, b);
    }
}

proof fn lemma_paths_sum_bound(g: ExpressionGraph, n: int, x: int)
    requires
        0 <= x < n,
    ensures
        paths_to(g, x) <= paths_sum(g, n),
    decreases n,
{
    if x < n - 1 {
        lemma_paths_sum_bound(g, n - 1, x);
    }
}

impl ExpressionGraph {
    /// Checks that the DAG is nonempty, its root exists, every node sits at
    /// its id and every child precedes its parent.
    pub fn validate(&self) -> (r: Result<(), SieveError>)
        ensures
            r is Ok <==> graph_valid(*self),
    {
        if self.nodes.len() == 0 {
            return Err(SieveError::new("expression graph is empty"));
        }
        if self.root >= self.nodes.len() {
            return Err(SieveError::new("expression root is out of bounds"));
        }
        let mut i: usize = 0;
        while i < self.nodes.len()
            invariant
                i <= self.nodes@.len(),
                forall|j: int| 0 <= j < i ==> (#[trigger] self.nodes@[j]).id == j,
                forall|j: int, k: int|
                    0 <= j < i && 0 <= k < self.nodes@[j].children@.len()
                        ==> #[trigger] self.nodes@[j].children@[k] < j,
            decreases self.nodes@.len() - i,
        {
            let node = &self.nodes[i];
            if node.id != i {
                return Err(SieveError::new("expression node is stored at the wrong index"));
            }
            let mut k: usize = 0;
            while k < node.children.len()
                invariant
                    i < self.nodes@.len(),
                    node == self.nodes@[i as int],
                    node.id == i,
                    k <= node.children@.len(),
                    forall|c: int| 0 <= c < k ==> #[trigger] node.children@[c] < i,
                decreases node.children@.len() - k,
            {
                if node.children[k] >= node.id {
                    return Err(SieveError::new("expression graph is not in postorder"));
                }
                k = k + 1;
            }
            i = i + 1;
        }
        Ok(())
    }

    /// Counts, for every node, the root-to-node paths, or reports that one of
    /// those counts exceeds a machine word.
    pub fn checked_occurrence_multiplicities(&self) -> (r: Option<Vec<usize>>)
        requires
            graph_valid(*self),
        ensures
            r is Some <==> multiplicities_fit(*self),
            r matches Some(m) ==> m@.len() == self.nodes@.len() && forall|x: int|
                0 <= x < m@.len() ==> #[trigger] m@[x] == paths_to(*self, x),
    {
        let n = self.nodes.len();
        let mut m: Vec<usize> = Vec::new();
        let mut i: usize = 0;
        while i < n
            invariant
                i <= n,
                n == self.nodes@.len(),
                m@.len() == i,
                forall|x: int| 0 <= x < i ==> #[trigger] m@[x] == root_mark(*self, x),
            decreases n - i,
        {
            if i == self.root {
                m.push(1);
            } else {
                m.push(0);
            }
            i = i + 1;
        }
        let mut id: usize = n;
        while id > 0
            invariant
                id <= n,
                n == self.nodes@.len(),
                graph_valid(*self),
                m@.len() == n,
                forall|x: int| id <= x < n ==> #[trigger] m@[x] == paths_to(*self, x),
                forall|x: int|
                    0 <= x < id ==> #[trigger] m@[x] == root_mark(*self, x) + parent_paths(
                        *self,
                        x,
                        id as int,
                    ),
                forall|x: int| id <= x < n ==> #[trigger] paths_to(*self, x) <= usize::MAX,
            decreases id,
        {
            id = id - 1;
            let ghost p = paths_to(*self, id as int);
            assert(m@[id as int] == p);
            let own = m[id];
            let children = &self.nodes[id].children;
            let ghost cs = children@;
            let mut t: usize = 0;
            assert(cs.take(0) =~= Seq::<usize>::empty());
            assert forall|x: int| 0 <= x < id implies #[trigger] m@[x] == root_mark(*self, x)
                + parent_paths(*self, x, id + 1) + count_in(cs.take(0), x) * p by {
                assert(count_in(cs.take(0), x) == 0);
            }
            while t < children.len()
                invariant
                    id < n,
                    n == self.nodes@.len(),
                    graph_valid(*self),
                    cs == self.nodes@[id as int].children@,
                    children@ == cs,
                    t <= cs.len(),
                    m@.len() == n,
                    own == p,
                    p == paths_to(*self, id as int),
                    forall|x: int| id <= x < n ==> #[trigger] m@[x] == paths_to(*self, x),
                    forall|x: int|
                        0 <= x < id ==> #[trigger] m@[x] == root_mark(*self, x) + parent_paths(
                            *self,
                            x,
                            id + 1,
                        ) + count_in(cs.take(t as int), x) * p,
                decreases cs.len() - t,
            {
                let c = children[t];
                assert(self.nodes@[id as int].children@[t as int] < id);
                proof {
                    assert forall|x: int| 0 <= x < id implies count_in(cs.take(t + 1), x)
                        == count_in(cs.take(t as int), x) + (if cs[t as int] == x {
                        1nat
                    } else {
                        0nat
                    }) by {
                        lemma_count_in_prefix(cs, t as int, x);
                    }
                    assert(count_in(cs.take(t + 1), c as int) * p == count_in(
                        cs.take(t as int),
                        c as int,
                    ) * p + p) by (nonlinear_arith)
                        requires
                            count_in(cs.take(t + 1), c as int) == count_in(
                                cs.take(t as int),
                                c as int,
                            ) + 1,
                    ;
                }
                match m[c].checked_add(own) {
                    Some(v) => {
                        m.set(c, v);
                    },
                    None => {
                        proof {
                            lemma_count_in_prefix(cs, t as int, c as int);
                            assert(count_in(cs.take(t + 1), c as int) * p <= count_in(cs, c as int)
                                * p) by (nonlinear_arith)
                                requires
                                    count_in(cs.take(t + 1), c as int) <= count_in(
                                        cs,
                                        c as int,
                                    ),
                            ;
                            lemma_parent_paths_monotone(*self, c as int, c + 1, id as int);
                            assert(parent_paths(*self, c as int, id as int) == count_in(
                                cs,
                                c as int,
                            ) * p + parent_paths(*self, c as int, id + 1));
                            assert(paths_to(*self, c as int) > usize::MAX);
                        }
                        return None;
                    },
                }
                t = t + 1;
                proof {
                    assert forall|x: int| 0 <= x < id && x != c implies #[trigger] m@[x]
                        == root_mark(*self, x) + parent_paths(*self, x, id + 1) + count_in(
                        cs.take(t as int),
                        x,
                    ) * p by {}
                }
            }
            assert(cs.take(cs.len() as int) =~= cs);
            proof {
                assert forall|x: int| 0 <= x < id implies #[trigger] m@[x] == root_mark(*self, x)
                    + parent_paths(*self, x, id as int) by {
                    assert(parent_paths(*self, x, id as int) == count_in(cs, x) * p
                        + parent_paths(*self, x, id + 1));
                }
            }
        }
        Some(m)
    }

    /// Number of root-to-node paths, restoring occurrences collapsed by hash-consing.
    pub fn occurrence_multiplicities(&self) -> (r: Vec<usize>)
        requires
            graph_valid(*self),
            multiplicities_fit(*self),
        ensures
            r@.len() == self.nodes@.len(),
            forall|x: int| 0 <= x < r@.len() ==> #[trigger] r@[x] == paths_to(*self, x),
    {
        match self.checked_occurrence_multiplicities() {
            Some(m) => m,
            None => Vec::new(),
        }
    }

    /// The size of the expression tree that the DAG shares, or `None` where it
    /// exceeds a machine word.
    pub fn checked_occurrence_node_count(&self) -> (r: Option<usize>)
        requires
            graph_valid(*self),
        ensures
            r is Some <==> total_occurrences(*self) <= usize::MAX,
            r matches Some(n) ==> n == total_occurrences(*self),
    {
        match self.checked_occurrence_multiplicities() {
            None => {
                proof {
                    let x = choose|x: int|
                        0 <= x < self.nodes@.len() && !(#[trigger] paths_to(*self, x)
                            <= usize::MAX);
                    lemma_paths_sum_bound(*self, self.nodes@.len() as int, x);
                }
                None
            },
            Some(m) => {
                let mut total: usize = 0;
                let mut i: usize = 0;
                while i < m.len()
                    invariant
                        i <= m@.len(),
                        m@.len() == self.nodes@.len(),
                        forall|x: int| 0 <= x < m@.len() ==> #[trigger] m@[x] == paths_to(*self, x),
                        total == paths_sum(*self, i as int),
                    decreases m@.len() - i,
                {
                    match total.checked_add(m[i]) {
                        Some(v) => total = v,
                        None => {
                            proof {
                                lemma_paths_sum_monotone(*self, i + 1, self.nodes@.len() as int);
                            }
                            return None;
                        },
                    }
                    i = i + 1;
                }
                Some(total)
            },
        }
    }

    /// The size of the expression tree that the DAG shares.
    pub fn occurrence_node_count(&self) -> (r: usize)
        requires
            graph_valid(*self),
            total_occurrences(*self) <= usize::MAX,
        ensures
            r == total_occurrences(*self),
    {
        match self.checked_occurrence_node_count() {
            Some(n) => n,
            None => 0,
        }
    }
}

/// The node is a constant that refers to `name`.
pub open spec fn names_constant(node: ExpressionNode, name: Seq<char>) -> bool {
    node.kind@ == "constant"@ && opt_view(&node.name) == Some(name)
}

/// The graph holds a constant node that refers to `name`.
pub open spec fn has_constant(g: ExpressionGraph, name: Seq<char>) -> bool {
    exists|x: int| 0 <= x < g.nodes@.len() && #[trigger] names_constant(g.nodes@[x], name)
}

/// Occurrences of the constant `name` among the first `n` nodes, counted over
/// root-to-node paths.
pub open spec fn constant_count(g: ExpressionGraph, name: Seq<char>, n: int) -> nat
    decreases n,
{
    if n <= 0 {
        0
    } else {
        constant_count(g, name, n - 1) + (if names_constant(g.nodes@[n - 1], name) {
            paths_to(g, n - 1)
        } else {
            0nat
        })
    }
}

proof fn lemma_constant_count_bound(g: ExpressionGraph, name: Seq<char>, n: int)
    requires
        n >= 0,
    ensures
        constant_count(g, name, n) <= paths_sum(g, n),
    decreases n,
{
    if n > 0 {
        lemma_constant_count_bound(g, name, n - 1);
    }
}

/// The total fits in a machine word, so every occurrence count does.
pub proof fn lemma_total_bounds_multiplicities(g: ExpressionGraph)
    requires
        total_occurrences(g) <= usize::MAX,
    ensures
        multiplicities_fit(g),
{
    assert forall|x: int| 0 <= x < g.nodes@.len() implies #[trigger] paths_to(g, x) <= usize::MAX by {
        lemma_paths_sum_bound(g, g.nodes@.len() as int, x);
    }
}

impl ExpressionGraph {
    /// Occurrences of every constant, counted over the expression tree, sorted
    /// by name. A constant whose nodes the root cannot reach is listed with 0.
    pub fn constant_occurrences(&self) -> (r: Vec<(String, usize)>)
        requires
            graph_valid(*self),
            total_occurrences(*self) <= usize::MAX,
        ensures
            tally_sorted(r@),
            forall|n: Seq<char>| #[trigger] tally_has(r@, n) <==> has_constant(*self, n),
            forall|n: Seq<char>| #[trigger] count_of(r@, n) == constant_count(*self, n, self.nodes@.len() as int),
    {
        proof {
            lemma_total_bounds_multiplicities(*self);
        }
        let m = self.occurrence_multiplicities();
        let mut r: Vec<(String, usize)> = Vec::new();
        let mut x: usize = 0;
        while x < self.nodes.len()
            invariant
                graph_valid(*self),
                total_occurrences(*self) <= usize::MAX,
                x <= self.nodes@.len(),
                m@.len() == self.nodes@.len(),
                forall|y: int| 0 <= y < m@.len() ==> #[trigger] m@[y] == paths_to(*self, y),
                tally_sorted(r@),
                forall|n: Seq<char>| #[trigger] tally_has(r@, n) <==> exists|y: int| 0 <= y < x && #[trigger] names_constant(self.nodes@[y], n),
                forall|n: Seq<char>| #[trigger] count_of(r@, n) == constant_count(*self, n, x as int),
            decreases self.nodes@.len() - x,
        {
            let node = &self.nodes[x];
            if text_eq(node.kind.as_str(), "constant") {
                if let Some(name) = &node.name {
                    proof {
                        lemma_constant_count_bound(*self, name@, x + 1);
                        lemma_paths_sum_monotone(*self, x + 1, self.nodes@.len() as int);
                    }
                    tally_add(&mut r, name.as_str(), m[x]);
                }
            }
            proof {
                assert forall|n: Seq<char>| #[trigger] tally_has(r@, n) <==> exists|y: int| 0 <= y < x + 1 && #[trigger] names_constant(self.nodes@[y], n) by {
                    if names_constant(self.nodes@[x as int], n) {
                        assert(0 <= x < x + 1);
                    }
                    if exists|y: int| 0 <= y < x + 1 && #[trigger] names_constant(self.nodes@[y], n) {
                        let y = choose|y: int| 0 <= y < x + 1 && #[trigger] names_constant(self.nodes@[y], n);
                        if y < x {
                            assert(exists|y: int| 0 <= y < x && #[trigger] names_constant(self.nodes@[y], n));
                        }
                    }
                }
            }
            x = x + 1;
        }
        r
    }
}

/// The DAG is well formed, its occurrence count matches the recorded
/// statistics, and its constants are exactly the recorded dependencies.
pub open spec fn expression_consistent(g: ExpressionGraph, stats: ExprStats, dependencies: Seq<String>) -> bool {
    &&& graph_valid(g)
    &&& total_occurrences(g) == stats.nodes
    &&& forall|n: Seq<char>| #[trigger] has_constant(g, n) <==> texts_view(dependencies).contains(n)
}

/// A declaration agrees with itself: statement and value DAGs are consistent
/// with their statistics and dependency lists, a value is recorded exactly
/// when its DAG is, and proof steps belong to a valued declaration and are
/// internally consistent.
pub open spec fn declaration_valid(d: DeclarationSnapshot) -> bool {
    &&& expression_consistent(d.type_graph, d.type_stats, d.statement_dependencies@)
    &&& match (d.value_graph, d.value_stats) {
        (Some(g), Some(stats)) => expression_consistent(g, stats, d.proof_dependencies@),
        (None, None) => true,
        _ => false,
    }
    &&& d.has_value == d.value_graph.is_some()
    &&& (d.proof_steps matches Some(p) ==> d.has_value && proof_steps_valid(p))
}

/// The symbol table records `name`.
pub open spec fn symbol_known(s: ExtractionSnapshot, name: Seq<char>) -> bool {
    exists|k: int| 0 <= k < s.symbols@.len() && #[trigger] s.symbols@[k].name@ == name
}

/// A snapshot is usable: the supported schema, at least one imported module,
/// distinct symbols, valid and distinctly named declarations, each with
/// symbol metadata, and every dependency target in the symbol table.
pub open spec fn snapshot_valid(s: ExtractionSnapshot) -> bool {
    let decls = s.declarations@;
    &&& s.schema_version == 6
    &&& s.imported_modules@.len() > 0
    &&& forall|a: int, b: int| 0 <= a < b < s.symbols@.len() ==> #[trigger] s.symbols@[a].name@ != #[trigger] s.symbols@[b].name@
    &&& forall|i: int| 0 <= i < decls.len() ==> declaration_valid(#[trigger] decls[i])
    &&& forall|a: int, b: int| 0 <= a < b < decls.len() ==> #[trigger] decls[a].name@ != #[trigger] decls[b].name@
    &&& forall|i: int| 0 <= i < decls.len() ==> symbol_known(s, (#[trigger] decls[i]).name@)
    &&& forall|i: int, k: int| 0 <= i < decls.len() && 0 <= k < decls[i].statement_dependencies@.len()
        ==> symbol_known(s, (#[trigger] decls[i].statement_dependencies@[k])@)
    &&& forall|i: int, k: int| 0 <= i < decls.len() && 0 <= k < decls[i].proof_dependencies@.len()
        ==> symbol_known(s, (#[trigger] decls[i].proof_dependencies@[k])@)
}

/// Whether `v` holds a text equal to `s`.
pub fn texts_contain(v: &Vec<String>, s: &str) -> (r: bool)
    ensures
        r == texts_view(v@).contains(s@),
{
    let mut i: usize = 0;
    while i < v.len()
        invariant
            i <= v@.len(),
            forall|j: int| 0 <= j < i ==> #[trigger] v@[j]@ != s@,
        decreases v@.len() - i,
    {
        if text_eq(v[i].as_str(), s) {
            proof {
                assert(texts_view(v@)[i as int] == s@);
            }
            return true;
        }
        i = i + 1;
    }
    proof {
        if texts_view(v@).contains(s@) {
            let j = choose|j: int| 0 <= j < texts_view(v@).len() && texts_view(v@)[j] == s@;
            assert(v@[j]@ == s@);
        }
    }
    false
}

/// Whether the graph holds a constant node that refers to `name`.
fn graph_has_constant(g: &ExpressionGraph, name: &str) -> (r: bool)
    ensures
        r == has_constant(*g, name@),
{
    let mut x: usize = 0;
    while x < g.nodes.len()
        invariant
            x <= g.nodes@.len(),
            forall|y: int| 0 <= y < x ==> !#[trigger] names_constant(g.nodes@[y], name@),
        decreases g.nodes@.len() - x,
    {
        let node = &g.nodes[x];
        if text_eq(node.kind.as_str(), "constant") {
            if let Some(n) = &node.name {
                if text_eq(n.as_str(), name) {
                    proof {
                        assert(names_constant(g.nodes@[x as int], name@));
                    }
                    return true;
                }
            }
        }
        x = x + 1;
    }
    false
}

/// Checks one expression against its statistics and dependency list.
fn check_expression(g: &ExpressionGraph, stats: &ExprStats, dependencies: &Vec<String>) -> (r: bool)
    ensures
        r == expression_consistent(*g, *stats, dependencies@),
{
    if g.validate().is_err() {
        return false;
    }
    match g.checked_occurrence_node_count() {
        Some(n) => {
            if n != stats.nodes {
                return false;
            }
        },
        None => {
            return false;
        },
    }
    let mut x: usize = 0;
    while x < g.nodes.len()
        invariant
            x <= g.nodes@.len(),
            forall|n: Seq<char>, y: int| 0 <= y < x && #[trigger] names_constant(g.nodes@[y], n)
                ==> texts_view(dependencies@).contains(n),
        decreases g.nodes@.len() - x,
    {
        let node = &g.nodes[x];
        if text_eq(node.kind.as_str(), "constant") {
            if let Some(n) = &node.name {
                if !texts_contain(dependencies, n.as_str()) {
                    proof {
                        assert(names_constant(g.nodes@[x as int], n@));
                        assert(has_constant(*g, n@));
                    }
                    return false;
                }
            }
        }
        x = x + 1;
    }
    let mut k: usize = 0;
    while k < dependencies.len()
        invariant
            k <= dependencies@.len(),
            forall|j: int| 0 <= j < k ==> has_constant(*g, (#[trigger] dependencies@[j])@),
        decreases dependencies@.len() - k,
    {
        if !graph_has_constant(g, dependencies[k].as_str()) {
            proof {
                assert(texts_view(dependencies@)[k as int] == dependencies@[k as int]@);
            }
            return false;
        }
        k = k + 1;
    }
    proof {
        assert forall|n: Seq<char>| #[trigger] has_constant(*g, n) <==> texts_view(dependencies@).contains(n) by {
            if texts_view(dependencies@).contains(n) {
                let j = choose|j: int| 0 <= j < texts_view(dependencies@).len() && texts_view(dependencies@)[j] == n;
                assert(dependencies@[j]@ == n);
            }
            if has_constant(*g, n) {
                let y = choose|y: int| 0 <= y < g.nodes@.len() && #[trigger] names_constant(g.nodes@[y], n);
            }
        }
    }
    true
}

impl DeclarationSnapshot {
    /// Checks the declaration's internal consistency.
    pub fn validate(&self) -> (r: Result<(), SieveError>)
        ensures
            r is Ok <==> declaration_valid(*self),
    {
        if !check_expression(&self.type_graph, &self.type_stats, &self.statement_dependencies) {
            return Err(SieveError::about("inconsistent statement expression for ", self.name.as_str()));
        }
        match (&self.value_graph, &self.value_stats) {
            (Some(graph), Some(stats)) => {
                if !check_expression(graph, stats, &self.proof_dependencies) {
                    return Err(SieveError::about("inconsistent value expression for ", self.name.as_str()));
                }
            },
            (None, None) => {},
            _ => {
                return Err(SieveError::about("value graph and value statistics disagree for ", self.name.as_str()));
            },
        }
        if self.has_value != self.value_graph.is_some() {
            return Err(SieveError::about("hasValue disagrees with the value graph for ", self.name.as_str()));
        }
        if let Some(proof_steps) = &self.proof_steps {
            if !self.has_value {
                return Err(SieveError::about("proof steps recorded for valueless declaration ", self.name.as_str()));
            }
            if validate_proof_steps(proof_steps).is_err() {
                return Err(SieveError::about("invalid proof steps for ", self.name.as_str()));
            }
        }
        Ok(())
    }
}

/// Whether the symbol table records `name`.
pub fn symbol_index_of(snapshot: &ExtractionSnapshot, name: &str) -> (r: Option<usize>)
    ensures
        r matches Some(k) ==> k < snapshot.symbols@.len() && snapshot.symbols@[k as int].name@ == name@
            && forall|j: int| 0 <= j < k ==> #[trigger] snapshot.symbols@[j].name@ != name@,
        r is None <==> !symbol_known(*snapshot, name@),
{
    let mut k: usize = 0;
    while k < snapshot.symbols.len()
        invariant
            k <= snapshot.symbols@.len(),
            forall|j: int| 0 <= j < k ==> #[trigger] snapshot.symbols@[j].name@ != name@,
        decreases snapshot.symbols@.len() - k,
    {
        if text_eq(snapshot.symbols[k].name.as_str(), name) {
            return Some(k);
        }
        k = k + 1;
    }
    None
}

/// Checks a whole snapshot before analysis.
#[verifier::loop_isolation(false)]
pub fn validate_snapshot(snapshot: &ExtractionSnapshot) -> (r: Result<(), SieveError>)
    ensures
        r is Ok <==> snapshot_valid(*snapshot),
{
    if snapshot.schema_version != 6 {
        return Err(SieveError::new("unsupported extraction schema"));
    }
    if snapshot.imported_modules.len() == 0 {
        return Err(SieveError::new("snapshot has no imported modules"));
    }
    let symbols = &snapshot.symbols;
    let mut a: usize = 0;
    while a < symbols.len()
        invariant
            a <= symbols@.len(),
            forall|x: int, y: int| 0 <= x < y < a ==> #[trigger] symbols@[x].name@ != #[trigger] symbols@[y].name@,
        decreases symbols@.len() - a,
    {
        let mut b: usize = 0;
        while b < a
            invariant
                a < symbols@.len(),
                b <= a,
                forall|x: int| 0 <= x < b ==> symbols@[x].name@ != symbols@[a as int].name@,
            decreases a - b,
        {
            if text_eq(symbols[b].name.as_str(), symbols[a].name.as_str()) {
                return Err(SieveError::new("duplicate symbols"));
            }
            b = b + 1;
        }
        a = a + 1;
    }
    let decls = &snapshot.declarations;
    let mut i: usize = 0;
    while i < decls.len()
        invariant
            i <= decls@.len(),
            forall|x: int| 0 <= x < i ==> declaration_valid(#[trigger] decls@[x]),
            forall|x: int, y: int| 0 <= x < y < i ==> #[trigger] decls@[x].name@ != #[trigger] decls@[y].name@,
            forall|x: int| 0 <= x < i ==> symbol_known(*snapshot, (#[trigger] decls@[x]).name@),
            forall|x: int, k: int| 0 <= x < i && 0 <= k < decls@[x].statement_dependencies@.len()
                ==> symbol_known(*snapshot, (#[trigger] decls@[x].statement_dependencies@[k])@),
            forall|x: int, k: int| 0 <= x < i && 0 <= k < decls@[x].proof_dependencies@.len()
                ==> symbol_known(*snapshot, (#[trigger] decls@[x].proof_dependencies@[k])@),
        decreases decls@.len() - i,
    {
        let declaration = &decls[i];
        let checked = declaration.validate();
        if checked.is_err() {
            return checked;
        }
        let mut b: usize = 0;
        while b < i
            invariant
                i < decls@.len(),
                b <= i,
                forall|x: int| 0 <= x < b ==> decls@[x].name@ != decls@[i as int].name@,
            decreases i - b,
        {
            if text_eq(decls[b].name.as_str(), declaration.name.as_str()) {
                return Err(SieveError::about("duplicate declaration ", declaration.name.as_str()));
            }
            b = b + 1;
        }
        if symbol_index_of(snapshot, declaration.name.as_str()).is_none() {
            return Err(SieveError::about("missing symbol metadata for ", declaration.name.as_str()));
        }
        let mut k: usize = 0;
        while k < declaration.statement_dependencies.len()
            invariant
                k <= declaration.statement_dependencies@.len(),
                forall|j: int| 0 <= j < k ==> symbol_known(*snapshot, (#[trigger] declaration.statement_dependencies@[j])@),
            decreases declaration.statement_dependencies@.len() - k,
        {
            if symbol_index_of(snapshot, declaration.statement_dependencies[k].as_str()).is_none() {
                return Err(SieveError::about("dependency target is absent from the symbol table: ", declaration.statement_dependencies[k].as_str()));
            }
            k = k + 1;
        }
        let mut k: usize = 0;
        while k < declaration.proof_dependencies.len()
            invariant
                k <= declaration.proof_dependencies@.len(),
                forall|j: int| 0 <= j < k ==> symbol_known(*snapshot, (#[trigger] declaration.proof_dependencies@[j])@),
            decreases declaration.proof_dependencies@.len() - k,
        {
            if symbol_index_of(snapshot, declaration.proof_dependencies[k].as_str()).is_none() {
                return Err(SieveError::about("dependency target is absent from the symbol table: ", declaration.proof_dependencies[k].as_str()));
            }
            k = k + 1;
        }
        i = i + 1;
    }
    Ok(())
}

proof fn lemma_paths_sum_monotone(g: ExpressionGraph, a: int, b: int)
    requires
        0 <= a <= b,
    ensures
        paths_sum(g, a) <= paths_sum(g, b),
    decreases b - a,
{
    if a < b {
        lemma_paths_sum_monotone(g, a, b - 1);
    }
}

} // verus!
