//! Proof-step graphs: validation of an extraction, navigation of the
//! prerequisite DAG, and the conservative outline that contracts plumbing.
use vstd::prelude::*;
use crate::error::SieveError;
use crate::model::{copy_steps, same_step, NamedResultSnapshot, ProofContextEntry, ProofStep, ProofStepExtraction};
use crate::analysis::corpus::increasing;
use crate::sorting::{sort_ranked, Ranked};
use crate::strings::{append_text, decimal, decimal_text, copy_opt_text, copy_text, copy_texts, opt_view, contains_text, starts_with_text, text_contains, text_eq, text_from, text_starts_with, texts_view};
use crate::tally::{tally_add, tally_count, tally_sorted};
use crate::validation::graph_valid;

verus! {

/// `left` is a prefix of `right`.
pub open spec fn scope_prefix(left: Seq<Seq<char>>, right: Seq<Seq<char>>) -> bool {
    left.len() <= right.len() && forall|i: int| 0 <= i < left.len() ==> #[trigger] left[i] == right[i]
}

/// The ids of a step's context entries, in order.
pub open spec fn context_ids(context: Seq<ProofContextEntry>) -> Seq<Seq<char>> {
    context.map_values(|entry: ProofContextEntry| entry.id@)
}

/// The step's context entries have distinct ids and well-formed types.
pub open spec fn context_ok(step: ProofStep) -> bool {
    let context = step.context@;
    &&& forall|a: int, b: int| 0 <= a < b < context.len() ==> #[trigger] context[a].id@ != #[trigger] context[b].id@
    &&& forall|a: int| 0 <= a < context.len() ==> graph_valid(#[trigger] context[a].type_graph)
}

/// The step's scope lists its context ids in order.
pub open spec fn scope_ok(step: ProofStep) -> bool {
    texts_view(step.scope@) == context_ids(step.context@)
}

/// The step's prerequisites are distinct earlier steps in comparable scopes.
pub open spec fn prerequisites_ok(e: ProofStepExtraction, i: int) -> bool {
    let step = e.steps@[i];
    let prerequisites = step.prerequisite_steps@;
    &&& forall|k: int| 0 <= k < prerequisites.len() ==> #[trigger] prerequisites[k] < i
    &&& forall|a: int, b: int| 0 <= a < b < prerequisites.len() ==> #[trigger] prerequisites[a] != #[trigger] prerequisites[b]
    &&& forall|k: int| 0 <= k < prerequisites.len() ==> {
        let scope = texts_view(e.steps@[#[trigger] prerequisites[k] as int].scope@);
        scope_prefix(scope, texts_view(step.scope@)) || scope_prefix(texts_view(step.scope@), scope)
    }
}

/// `id` names an assumption of the context.
pub open spec fn assumption_available(context: Seq<ProofContextEntry>, id: Seq<char>) -> bool {
    exists|c: int| 0 <= c < context.len() && #[trigger] context[c].id@ == id && context[c].kind@ == "assumption"@
}

/// Every hypothesis the step uses is an assumption in its context.
pub open spec fn hypotheses_ok(step: ProofStep) -> bool {
    forall|h: int| 0 <= h < step.hypothesis_references@.len() ==> assumption_available(
        step.context@,
        (#[trigger] step.hypothesis_references@[h])@,
    )
}

/// `name` is recorded among the named results.
pub open spec fn result_recorded(e: ProofStepExtraction, name: Seq<char>) -> bool {
    exists|r: int| 0 <= r < e.named_results@.len() && #[trigger] e.named_results@[r].name@ == name
}

/// Every named result the step uses is recorded in the extraction.
pub open spec fn named_ok(e: ProofStepExtraction, step: ProofStep) -> bool {
    forall|n: int| 0 <= n < step.named_references@.len() ==> result_recorded(e, (#[trigger] step.named_references@[n])@)
}

/// One step is well formed within its extraction.
pub open spec fn step_valid(e: ProofStepExtraction, i: int) -> bool {
    let step = e.steps@[i];
    &&& step.id == i
    &&& graph_valid(step.proposition_graph)
    &&& context_ok(step)
    &&& scope_ok(step)
    &&& prerequisites_ok(e, i)
    &&& hypotheses_ok(step)
    &&& named_ok(e, step)
}

/// A proof-step extraction is internally consistent: completeness agrees with
/// the truncation reason, named results are distinct and well formed, steps
/// are numbered in order, occupy distinct proof-term paths, refer only to
/// earlier steps in comparable scopes, to available assumptions and to
/// recorded named results, and a complete nonempty extraction ends in its
/// conclusion step.
pub open spec fn proof_steps_valid(e: ProofStepExtraction) -> bool {
    let steps = e.steps@;
    let named = e.named_results@;
    &&& e.complete == e.truncation_reason.is_none()
    &&& forall|a: int, b: int| 0 <= a < b < named.len() ==> #[trigger] named[a].name@ != #[trigger] named[b].name@
    &&& forall|a: int| 0 <= a < named.len() ==> graph_valid(#[trigger] named[a].type_graph)
    &&& forall|i: int| 0 <= i < steps.len() ==> #[trigger] step_valid(e, i)
    &&& forall|a: int, b: int| 0 <= a < b < steps.len() ==> #[trigger] steps[a].proof_term_path@ != #[trigger] steps[b].proof_term_path@
    &&& (e.complete && steps.len() > 0) ==> (e.conclusion_step matches Some(c) && c < steps.len()
        && steps[c as int].kind@ == "conclusion"@)
}

/// Whether `left` is a prefix of `right`.
fn is_prefix(left: &Vec<String>, right: &Vec<String>) -> (r: bool)
    ensures
        r == scope_prefix(texts_view(left@), texts_view(right@)),
{
    if left.len() > right.len() {
        return false;
    }
    let mut i: usize = 0;
    while i < left.len()
        invariant
            left@.len() <= right@.len(),
            i <= left@.len(),
            forall|j: int| 0 <= j < i ==> #[trigger] left@[j]@ == right@[j]@,
        decreases left@.len() - i,
    {
        if !text_eq(left[i].as_str(), right[i].as_str()) {
            proof {
                assert(texts_view(left@)[i as int] != texts_view(right@)[i as int]);
            }
            return false;
        }
        i = i + 1;
    }
    proof {
        assert forall|j: int| 0 <= j < texts_view(left@).len() implies #[trigger] texts_view(left@)[j] == texts_view(right@)[j] by {
            assert(left@[j]@ == right@[j]@);
        }
    }
    true
}

/// Whether two index lists are equal.
fn same_indices(a: &Vec<usize>, b: &Vec<usize>) -> (r: bool)
    ensures
        r == (a@ == b@),
{
    if a.len() != b.len() {
        return false;
    }
    let mut i: usize = 0;
    while i < a.len()
        invariant
            a@.len() == b@.len(),
            i <= a@.len(),
            forall|j: int| 0 <= j < i ==> a@[j] == b@[j],
        decreases a@.len() - i,
    {
        if a[i] != b[i] {
            return false;
        }
        i = i + 1;
    }
    assert(a@ =~= b@);
    true
}

/// Checks the context entries of a step.
#[verifier::loop_isolation(false)]
fn check_context(step: &ProofStep) -> (r: bool)
    ensures
        r == context_ok(*step),
{
    let context = &step.context;
    let mut a: usize = 0;
    while a < context.len()
        invariant
            context == step.context,
            a <= context@.len(),
            forall|x: int, y: int| 0 <= x < y < a ==> #[trigger] context@[x].id@ != #[trigger] context@[y].id@,
            forall|x: int| 0 <= x < a ==> graph_valid(#[trigger] context@[x].type_graph),
        decreases context@.len() - a,
    {
        let mut b: usize = 0;
        while b < a
            invariant
                a < context@.len(),
                b <= a,
                forall|x: int| 0 <= x < b ==> context@[x].id@ != context@[a as int].id@,
            decreases a - b,
        {
            if text_eq(context[b].id.as_str(), context[a].id.as_str()) {
                proof {
                    assert(context@[b as int].id@ == context@[a as int].id@);
                }
                return false;
            }
            b = b + 1;
        }
        if context[a].type_graph.validate().is_err() {
            return false;
        }
        a = a + 1;
    }
    true
}

/// Checks that a step's scope lists its context ids.
#[verifier::loop_isolation(false)]
fn check_scope(step: &ProofStep) -> (r: bool)
    ensures
        r == scope_ok(*step),
{
    let context = &step.context;
    if step.scope.len() != context.len() {
        proof {
            assert(texts_view(step.scope@).len() != context_ids(context@).len());
        }
        return false;
    }
    let mut k: usize = 0;
    while k < context.len()
        invariant
            context == step.context,
            step.scope@.len() == context@.len(),
            k <= context@.len(),
            forall|x: int| 0 <= x < k ==> #[trigger] step.scope@[x]@ == context@[x].id@,
        decreases context@.len() - k,
    {
        if !text_eq(step.scope[k].as_str(), context[k].id.as_str()) {
            proof {
                assert(texts_view(step.scope@)[k as int] != context_ids(context@)[k as int]);
            }
            return false;
        }
        k = k + 1;
    }
    assert(texts_view(step.scope@) =~= context_ids(context@));
    true
}

/// Checks the prerequisites of step `i`.
#[verifier::loop_isolation(false)]
fn check_prerequisites(e: &ProofStepExtraction, i: usize) -> (r: bool)
    requires
        i < e.steps@.len(),
        e.steps@[i as int].id == i,
    ensures
        r == prerequisites_ok(*e, i as int),
{
    let step = &e.steps[i];
    let prerequisites = &step.prerequisite_steps;
    let mut p: usize = 0;
    while p < prerequisites.len()
        invariant
            i < e.steps@.len(),
            step == e.steps@[i as int],
            step.id == i,
            prerequisites == step.prerequisite_steps,
            p <= prerequisites@.len(),
            forall|x: int| 0 <= x < p ==> #[trigger] prerequisites@[x] < i,
            forall|x: int, y: int| 0 <= x < y < p ==> #[trigger] prerequisites@[x] != #[trigger] prerequisites@[y],
            forall|x: int| 0 <= x < p ==> {
                let scope = texts_view(e.steps@[#[trigger] prerequisites@[x] as int].scope@);
                scope_prefix(scope, texts_view(step.scope@)) || scope_prefix(texts_view(step.scope@), scope)
            },
        decreases prerequisites@.len() - p,
    {
        let prerequisite = prerequisites[p];
        if prerequisite >= step.id {
            return false;
        }
        let mut q: usize = 0;
        while q < p
            invariant
                p < prerequisites@.len(),
                prerequisite == prerequisites@[p as int],
                q <= p,
                forall|x: int| 0 <= x < q ==> prerequisites@[x] != prerequisite,
            decreases p - q,
        {
            if prerequisites[q] == prerequisite {
                proof {
                    assert(prerequisites@[q as int] == prerequisites@[p as int]);
                }
                return false;
            }
            q = q + 1;
        }
        let prerequisite_scope = &e.steps[prerequisite].scope;
        if !(is_prefix(prerequisite_scope, &step.scope) || is_prefix(&step.scope, prerequisite_scope)) {
            return false;
        }
        p = p + 1;
    }
    true
}

/// Checks that every hypothesis a step uses is an assumption in its context.
fn check_hypotheses(step: &ProofStep) -> (r: bool)
    ensures
        r == hypotheses_ok(*step),
{
    let mut h: usize = 0;
    while h < step.hypothesis_references.len()
        invariant
            h <= step.hypothesis_references@.len(),
            forall|x: int| 0 <= x < h ==> assumption_available(step.context@, (#[trigger] step.hypothesis_references@[x])@),
        decreases step.hypothesis_references@.len() - h,
    {
        let mut c: usize = 0;
        let mut found = false;
        while c < step.context.len()
            invariant
                h < step.hypothesis_references@.len(),
                c <= step.context@.len(),
                !found ==> forall|y: int| 0 <= y < c ==> !(#[trigger] step.context@[y].id@ == step.hypothesis_references@[h as int]@
                    && step.context@[y].kind@ == "assumption"@),
                found ==> assumption_available(step.context@, step.hypothesis_references@[h as int]@),
            decreases step.context@.len() - c,
        {
            if text_eq(step.context[c].id.as_str(), step.hypothesis_references[h].as_str()) && text_eq(step.context[c].kind.as_str(), "assumption") {
                found = true;
            }
            c = c + 1;
        }
        if !found {
            proof {
                assert(!assumption_available(step.context@, step.hypothesis_references@[h as int]@));
            }
            return false;
        }
        h = h + 1;
    }
    true
}

/// Checks that every named result a step uses is recorded.
fn check_named(e: &ProofStepExtraction, step: &ProofStep) -> (r: bool)
    ensures
        r == named_ok(*e, *step),
{
    let mut n: usize = 0;
    while n < step.named_references.len()
        invariant
            n <= step.named_references@.len(),
            forall|x: int| 0 <= x < n ==> result_recorded(*e, (#[trigger] step.named_references@[x])@),
        decreases step.named_references@.len() - n,
    {
        let mut y: usize = 0;
        let mut found = false;
        while y < e.named_results.len()
            invariant
                n < step.named_references@.len(),
                y <= e.named_results@.len(),
                !found ==> forall|z: int| 0 <= z < y ==> #[trigger] e.named_results@[z].name@ != step.named_references@[n as int]@,
                found ==> result_recorded(*e, step.named_references@[n as int]@),
            decreases e.named_results@.len() - y,
        {
            if text_eq(e.named_results[y].name.as_str(), step.named_references[n].as_str()) {
                found = true;
            }
            y = y + 1;
        }
        if !found {
            proof {
                assert(!result_recorded(*e, step.named_references@[n as int]@));
            }
            return false;
        }
        n = n + 1;
    }
    true
}

/// Checks one step against the rest of its extraction.
fn validate_step(e: &ProofStepExtraction, i: usize) -> (r: Result<(), SieveError>)
    requires
        i < e.steps@.len(),
    ensures
        r is Ok <==> step_valid(*e, i as int),
{
    let step = &e.steps[i];
    if step.id != i {
        return Err(SieveError::new("proof step ids are not contiguous"));
    }
    if step.proposition_graph.validate().is_err() {
        return Err(SieveError::new("invalid proposition graph for a proof step"));
    }
    if !check_context(step) {
        return Err(SieveError::new("duplicate or invalid context entry in a proof step"));
    }
    if !check_scope(step) {
        return Err(SieveError::new("scope disagrees with context for a proof step"));
    }
    if !check_prerequisites(e, i) {
        return Err(SieveError::new("a proof step has an invalid prerequisite"));
    }
    if !check_hypotheses(step) {
        return Err(SieveError::new("a proof step references an unavailable hypothesis"));
    }
    if !check_named(e, step) {
        return Err(SieveError::new("a proof step references a missing named result"));
    }
    Ok(())
}

/// Checks a proof-step extraction for internal consistency.
#[verifier::loop_isolation(false)]
pub fn validate_proof_steps(extraction: &ProofStepExtraction) -> (r: Result<(), SieveError>)
    ensures
        r is Ok <==> proof_steps_valid(*extraction),
{
    if extraction.complete != extraction.truncation_reason.is_none() {
        return Err(SieveError::new("proof-step completeness and truncation reason disagree"));
    }
    let named = &extraction.named_results;
    let mut a: usize = 0;
    while a < named.len()
        invariant
            a <= named@.len(),
            forall|x: int, y: int| 0 <= x < y < a ==> #[trigger] named@[x].name@ != #[trigger] named@[y].name@,
            forall|x: int| 0 <= x < a ==> graph_valid(#[trigger] named@[x].type_graph),
        decreases named@.len() - a,
    {
        let mut b: usize = 0;
        while b < a
            invariant
                a < named@.len(),
                b <= a,
                forall|x: int| 0 <= x < b ==> named@[x].name@ != named@[a as int].name@,
            decreases a - b,
        {
            if text_eq(named[b].name.as_str(), named[a].name.as_str()) {
                return Err(SieveError::new("duplicate named proof result"));
            }
            b = b + 1;
        }
        if named[a].type_graph.validate().is_err() {
            return Err(SieveError::new("invalid statement graph for a named result"));
        }
        a = a + 1;
    }
    let steps = &extraction.steps;
    let mut i: usize = 0;
    while i < steps.len()
        invariant
            steps == extraction.steps,
            i <= steps@.len(),
            forall|x: int| 0 <= x < i ==> #[trigger] step_valid(*extraction, x),
            forall|x: int, y: int| 0 <= x < y < i ==> #[trigger] steps@[x].proof_term_path@ != #[trigger] steps@[y].proof_term_path@,
        decreases steps@.len() - i,
    {
        let mut j: usize = 0;
        while j < i
            invariant
                i < steps@.len(),
                j <= i,
                forall|x: int| 0 <= x < j ==> steps@[x].proof_term_path@ != steps@[i as int].proof_term_path@,
            decreases i - j,
        {
            if same_indices(&steps[j].proof_term_path, &steps[i].proof_term_path) {
                return Err(SieveError::new("multiple proof steps occupy one proof-term path"));
            }
            j = j + 1;
        }
        let checked = validate_step(extraction, i);
        if checked.is_err() {
            return checked;
        }
        i = i + 1;
    }
    if extraction.complete && steps.len() > 0 {
        match extraction.conclusion_step {
            None => {
                return Err(SieveError::new("complete proof-step extraction has no conclusion"));
            },
            Some(conclusion) => {
                if conclusion >= steps.len() {
                    return Err(SieveError::new("conclusion is out of bounds"));
                }
                if !text_eq(steps[conclusion].kind.as_str(), "conclusion") {
                    return Err(SieveError::new("conclusion step has the wrong kind"));
                }
            },
        }
    }
    Ok(())
}


/// One edge of the proof-step DAG. Edges always point from the prerequisite
/// step (`source`) to the claim that uses it (`target`).
#[derive(Clone, Copy, Debug, PartialEq, Eq, Structural, PartialOrd, Ord, Hash)]
pub struct ProofStepEdge {
    pub source: usize,
    pub target: usize,
}

/// The steps among the first `n` that use step `s` as a prerequisite, in order.
pub open spec fn dependents_upto(e: ProofStepExtraction, s: int, n: int) -> Seq<usize>
    decreases n,
{
    if n <= 0 {
        Seq::empty()
    } else if e.steps@[n - 1].prerequisite_steps@.contains(s as usize) {
        dependents_upto(e, s, n - 1).push((n - 1) as usize)
    } else {
        dependents_upto(e, s, n - 1)
    }
}

/// The steps that use step `s` as a prerequisite, in order.
pub open spec fn step_dependents(e: ProofStepExtraction, s: int) -> Seq<usize> {
    dependents_upto(e, s, e.steps@.len() as int)
}

/// The edges into the first `n` steps: for each step in order, one edge from
/// each of its prerequisites, in the order they are listed.
pub open spec fn edges_upto(e: ProofStepExtraction, n: int) -> Seq<ProofStepEdge>
    decreases n,
{
    if n <= 0 {
        Seq::empty()
    } else {
        edges_upto(e, n - 1) + e.steps@[n - 1].prerequisite_steps@.map_values(
            |p: usize| ProofStepEdge { source: p, target: e.steps@[n - 1].id },
        )
    }
}

/// Step `x` is step `s` or, transitively, a prerequisite of it.
pub open spec fn supports(e: ProofStepExtraction, s: int, x: int) -> bool
    decreases s - x,
{
    if x == s {
        true
    } else if x > s || x < 0 {
        false
    } else {
        exists|j: int| x < j <= s && #[trigger] e.steps@[j].prerequisite_steps@.contains(x as usize) && supports(e, s, j)
    }
}

/// The steps below `n`, other than `s`, that `s` transitively builds on, in order.
pub open spec fn support_below(e: ProofStepExtraction, s: int, n: int) -> Seq<usize>
    decreases n,
{
    if n <= 0 {
        Seq::empty()
    } else if n - 1 != s && supports(e, s, n - 1) {
        support_below(e, s, n - 1).push((n - 1) as usize)
    } else {
        support_below(e, s, n - 1)
    }
}

/// A DAG of proof steps, with the reverse (dependent) lists built once.
pub struct ProofStepGraph<'a> {
    extraction: &'a ProofStepExtraction,
    dependents: Vec<Vec<usize>>,
}

impl<'a> ProofStepGraph<'a> {
    /// The extraction the graph navigates.
    pub closed spec fn extraction_view(&self) -> ProofStepExtraction {
        *self.extraction
    }

    /// The extraction is valid and the reverse lists are exactly the dependents.
    #[verifier::type_invariant]
    pub closed spec fn wf(&self) -> bool {
        &&& proof_steps_valid(*self.extraction)
        &&& self.dependents@.len() == self.extraction.steps@.len()
        &&& forall|s: int| 0 <= s < self.dependents@.len() ==> (#[trigger] self.dependents@[s])@ == step_dependents(*self.extraction, s)
    }

    /// Validates the extraction and builds the dependent lists.
    pub fn new(extraction: &'a ProofStepExtraction) -> (r: Result<ProofStepGraph<'a>, SieveError>)
        ensures
            r is Ok <==> proof_steps_valid(*extraction),
            r matches Ok(g) ==> g.extraction_view() == *extraction,
    {
        match validate_proof_steps(extraction) {
            Ok(()) => {},
            Err(e) => {
                return Err(e);
            },
        }
        let n = extraction.steps.len();
        let mut dependents: Vec<Vec<usize>> = Vec::new();
        let mut i: usize = 0;
        while i < n
            invariant
                i <= n,
                dependents@.len() == i,
                forall|p: int| 0 <= p < i ==> (#[trigger] dependents@[p])@ == dependents_upto(*extraction, p, 0),
            decreases n - i,
        {
            dependents.push(Vec::new());
            i = i + 1;
        }
        let mut t: usize = 0;
        while t < n
            invariant
                n == extraction.steps@.len(),
                proof_steps_valid(*extraction),
                t <= n,
                dependents@.len() == n,
                forall|p: int| 0 <= p < n ==> (#[trigger] dependents@[p])@ == dependents_upto(*extraction, p, t as int),
            decreases n - t,
        {
            let step = &extraction.steps[t];
            let prerequisites = &step.prerequisite_steps;
            proof {
                assert(step_valid(*extraction, t as int));
            }
            let mut k: usize = 0;
            while k < prerequisites.len()
                invariant
                    n == extraction.steps@.len(),
                    t < n,
                    step == extraction.steps@[t as int],
                    prerequisites == step.prerequisite_steps,
                    prerequisites_ok(*extraction, t as int),
                    k <= prerequisites@.len(),
                    dependents@.len() == n,
                    forall|p: int| 0 <= p < n ==> (#[trigger] dependents@[p])@ == if prerequisites@.take(k as int).contains(p as usize) {
                        dependents_upto(*extraction, p, t as int).push(t)
                    } else {
                        dependents_upto(*extraction, p, t as int)
                    },
                decreases prerequisites@.len() - k,
            {
                let p = prerequisites[k];
                let ghost before = dependents@;
                proof {
                    assert(p < t);
                    assert(!prerequisites@.take(k as int).contains(p)) by {
                        if prerequisites@.take(k as int).contains(p) {
                            let a = choose|a: int| 0 <= a < k && prerequisites@.take(k as int)[a] == p;
                            assert(prerequisites@[a] != prerequisites@[k as int]);
                        }
                    }
                }
                dependents[p].push(t);
                proof {
                    assert forall|q: int| 0 <= q < n implies (#[trigger] dependents@[q])@ == if prerequisites@.take(k + 1).contains(q as usize) {
                        dependents_upto(*extraction, q, t as int).push(t)
                    } else {
                        dependents_upto(*extraction, q, t as int)
                    } by {
                        let pre = prerequisites@.take(k as int);
                        assert(prerequisites@.take(k + 1) == pre.push(p));
                        if q != p {
                            assert(dependents@[q] == before[q]);
                            if pre.push(p).contains(q as usize) {
                                let a = choose|a: int| 0 <= a < pre.push(p).len() && pre.push(p)[a] == q as usize;
                                assert(a < pre.len());
                                assert(pre[a] == q as usize);
                            }
                            if pre.contains(q as usize) {
                                let a = choose|a: int| 0 <= a < pre.len() && pre[a] == q as usize;
                                assert(pre.push(p)[a] == q as usize);
                            }
                        } else {
                            assert(pre.push(p)[pre.len() as int] == p);
                            assert(dependents@[q]@ == before[q]@.push(t));
                        }
                    }
                }
                k = k + 1;
            }
            proof {
                assert(prerequisites@.take(k as int) == prerequisites@);
            }
            t = t + 1;
        }
        Ok(ProofStepGraph { extraction, dependents })
    }

    /// Every edge of the DAG, from prerequisite to claim, step by step.
    pub fn edges(&self) -> (r: Vec<ProofStepEdge>)
        ensures
            r@ == edges_upto(self.extraction_view(), self.extraction_view().steps@.len() as int),
    {
        let steps = &self.extraction.steps;
        let mut r: Vec<ProofStepEdge> = Vec::new();
        let mut t: usize = 0;
        while t < steps.len()
            invariant
                steps == self.extraction.steps,
                t <= steps@.len(),
                r@ == edges_upto(*self.extraction, t as int),
            decreases steps@.len() - t,
        {
            let step = &steps[t];
            let ghost start = r@;
            let mut k: usize = 0;
            while k < step.prerequisite_steps.len()
                invariant
                    steps == self.extraction.steps,
                    t < steps@.len(),
                    step == steps@[t as int],
                    start == edges_upto(*self.extraction, t as int),
                    k <= step.prerequisite_steps@.len(),
                    r@ == start + step.prerequisite_steps@.take(k as int).map_values(
                        |p: usize| ProofStepEdge { source: p, target: step.id },
                    ),
                decreases step.prerequisite_steps@.len() - k,
            {
                r.push(ProofStepEdge { source: step.prerequisite_steps[k], target: step.id });
                proof {
                    assert(step.prerequisite_steps@.take(k + 1) == step.prerequisite_steps@.take(k as int).push(step.prerequisite_steps@[k as int]));
                    assert(r@ =~= start + step.prerequisite_steps@.take(k + 1).map_values(
                        |p: usize| ProofStepEdge { source: p, target: step.id },
                    ));
                }
                k = k + 1;
            }
            proof {
                assert(step.prerequisite_steps@.take(k as int) == step.prerequisite_steps@);
            }
            t = t + 1;
        }
        r
    }

    /// The prerequisites of a step, where the step exists.
    pub fn direct_prerequisites(&self, step: usize) -> (r: Option<&[usize]>)
        ensures
            match r {
                Some(p) => step < self.extraction_view().steps@.len()
                    && p@ == self.extraction_view().steps@[step as int].prerequisite_steps@,
                None => step >= self.extraction_view().steps@.len(),
            },
    {
        if step < self.extraction.steps.len() {
            Some(self.extraction.steps[step].prerequisite_steps.as_slice())
        } else {
            None
        }
    }

    /// The steps that use a step as a prerequisite, in order, where the step exists.
    pub fn direct_dependents(&self, step: usize) -> (r: Option<&[usize]>)
        ensures
            match r {
                Some(d) => step < self.extraction_view().steps@.len() && d@ == step_dependents(self.extraction_view(), step as int),
                None => step >= self.extraction_view().steps@.len(),
            },
    {
        proof {
            use_type_invariant(self);
        }
        if step < self.dependents.len() {
            Some(self.dependents[step].as_slice())
        } else {
            None
        }
    }
}


/// Some step in `lo..=s` that `s` builds on uses step `y` as a prerequisite.
pub open spec fn supported_from(e: ProofStepExtraction, s: int, y: int, lo: int) -> bool {
    exists|j: int| lo <= j <= s && #[trigger] e.steps@[j].prerequisite_steps@.contains(y as usize) && supports(e, s, j)
}

proof fn lemma_supports_unfold(e: ProofStepExtraction, s: int, y: int)
    requires
        0 <= y < s,
    ensures
        supports(e, s, y) == supported_from(e, s, y, y + 1),
{
}

proof fn lemma_supported_from_step(e: ProofStepExtraction, s: int, y: int, i: int)
    requires
        0 <= y < i <= s,
    ensures
        supported_from(e, s, y, i) == (supported_from(e, s, y, i + 1)
            || (e.steps@[i].prerequisite_steps@.contains(y as usize) && supports(e, s, i))),
{
    if supported_from(e, s, y, i) {
        let j = choose|j: int| i <= j <= s && #[trigger] e.steps@[j].prerequisite_steps@.contains(y as usize) && supports(e, s, j);
        if j > i {
            assert(supported_from(e, s, y, i + 1));
        }
    }
    if supported_from(e, s, y, i + 1) {
        let j = choose|j: int| i + 1 <= j <= s && #[trigger] e.steps@[j].prerequisite_steps@.contains(y as usize) && supports(e, s, j);
        assert(i <= j <= s);
    }
}

impl<'a> ProofStepGraph<'a> {
    /// For every step up to `step`, whether `step` builds on it.
    fn support_marks(&self, step: usize) -> (mark: Vec<bool>)
        requires
            step < self.extraction_view().steps@.len(),
        ensures
            mark@.len() == step + 1,
            forall|z: int| 0 <= z <= step ==> #[trigger] mark@[z] == supports(self.extraction_view(), step as int, z),
    {
        proof {
            use_type_invariant(self);
        }
        let steps = &self.extraction.steps;
        let ghost e = *self.extraction;
        let mut mark: Vec<bool> = Vec::new();
        let n = steps.len();
        let mut x: usize = 0;
        while x <= step
            invariant
                step < n,
                x <= step + 1,
                mark@.len() == x,
                forall|y: int| 0 <= y < x ==> #[trigger] mark@[y] == (y == step),
            decreases step + 1 - x,
        {
            mark.push(x == step);
            x = x + 1;
        }
        let mut i: usize = step + 1;
        while i > 0
            invariant
                steps == self.extraction.steps,
                e == *self.extraction,
                step < steps@.len(),
                proof_steps_valid(e),
                i <= step + 1,
                mark@.len() == step + 1,
                forall|y: int| i <= y <= step ==> #[trigger] mark@[y] == supports(e, step as int, y),
                forall|y: int| 0 <= y < i ==> #[trigger] mark@[y] == (y == step || supported_from(e, step as int, y, i as int)),
            decreases i,
        {
            i = i - 1;
            proof {
                if i < step {
                    lemma_supports_unfold(e, step as int, i as int);
                }
                assert(mark@[i as int] == supports(e, step as int, i as int));
                assert(step_valid(e, i as int));
            }
            if mark[i] {
                let prerequisites = &steps[i].prerequisite_steps;
                let mut k: usize = 0;
                while k < prerequisites.len()
                    invariant
                        steps == self.extraction.steps,
                        e == *self.extraction,
                        i <= step < steps@.len(),
                        prerequisites == steps@[i as int].prerequisite_steps,
                        prerequisites_ok(e, i as int),
                        supports(e, step as int, i as int),
                        mark@.len() == step + 1,
                        k <= prerequisites@.len(),
                        forall|y: int| i <= y <= step ==> #[trigger] mark@[y] == supports(e, step as int, y),
                        forall|y: int| 0 <= y < i ==> #[trigger] mark@[y] == (y == step || supported_from(e, step as int, y, i + 1)
                            || prerequisites@.take(k as int).contains(y as usize)),
                    decreases prerequisites@.len() - k,
                {
                    let p = prerequisites[k];
                    proof {
                        assert(p < i);
                    }
                    mark.set(p, true);
                    proof {
                        assert forall|y: int| 0 <= y < i implies #[trigger] mark@[y] == (y == step || supported_from(e, step as int, y, i + 1)
                            || prerequisites@.take(k + 1).contains(y as usize)) by {
                            let pre = prerequisites@.take(k as int);
                            assert(prerequisites@.take(k + 1) == pre.push(p));
                            if y != p {
                                if pre.push(p).contains(y as usize) {
                                    let a = choose|a: int| 0 <= a < pre.push(p).len() && pre.push(p)[a] == y as usize;
                                    assert(pre[a] == y as usize);
                                }
                                if pre.contains(y as usize) {
                                    let a = choose|a: int| 0 <= a < pre.len() && pre[a] == y as usize;
                                    assert(pre.push(p)[a] == y as usize);
                                }
                            } else {
                                assert(pre.push(p)[pre.len() as int] == p);
                            }
                        }
                    }
                    k = k + 1;
                }
                proof {
                    assert(prerequisites@.take(k as int) == prerequisites@);
                }
            }
            proof {
                assert forall|y: int| 0 <= y < i implies #[trigger] mark@[y] == (y == step || supported_from(e, step as int, y, i as int)) by {
                    lemma_supported_from_step(e, step as int, y, i as int);
                }
            }
        }
        mark
    }

    /// The steps that a step transitively builds on, in increasing order,
    /// where the step exists.
    pub fn transitive_prerequisites(&self, step: usize) -> (r: Option<Vec<usize>>)
        ensures
            match r {
                Some(v) => step < self.extraction_view().steps@.len()
                    && v@ == support_below(self.extraction_view(), step as int, step as int),
                None => step >= self.extraction_view().steps@.len(),
            },
    {
        if step >= self.extraction.steps.len() {
            return None;
        }
        let ghost e = *self.extraction;
        let mark = self.support_marks(step);
        let mut r: Vec<usize> = Vec::new();
        let mut y: usize = 0;
        while y < step
            invariant
                e == *self.extraction,
                y <= step,
                mark@.len() == step + 1,
                forall|z: int| 0 <= z <= step ==> #[trigger] mark@[z] == supports(e, step as int, z),
                r@ == support_below(e, step as int, y as int),
            decreases step - y,
        {
            if mark[y] {
                r.push(y);
            }
            y = y + 1;
        }
        Some(r)
    }
}


/// Every route from step `cur` forward along dependents to step `goal`, each
/// listing its steps from `cur` on, in depth-first order of the dependents.
pub open spec fn routes(e: ProofStepExtraction, cur: int, goal: int) -> Seq<Seq<usize>>
    decreases e.steps@.len() - cur, 1int, 0int,
{
    if cur == goal {
        seq![seq![cur as usize]]
    } else {
        routes_via(e, cur, goal, step_dependents(e, cur), 0)
    }
}

/// The routes from `cur` that continue through `next[k]`, `next[k + 1]`, ...
pub open spec fn routes_via(e: ProofStepExtraction, cur: int, goal: int, next: Seq<usize>, k: int) -> Seq<Seq<usize>>
    decreases e.steps@.len() - cur, 0int, next.len() - k,
{
    if k < 0 || k >= next.len() {
        Seq::empty()
    } else if next[k] <= cur || next[k] >= e.steps@.len() {
        routes_via(e, cur, goal, next, k + 1)
    } else {
        prefixed(seq![cur as usize], routes(e, next[k] as int, goal))
            + routes_via(e, cur, goal, next, k + 1)
    }
}

/// Each list of `rs` with `pre` put in front.
pub open spec fn prefixed(pre: Seq<usize>, rs: Seq<Seq<usize>>) -> Seq<Seq<usize>> {
    rs.map_values(|r: Seq<usize>| pre + r)
}

/// The contents of a list of lists.
pub open spec fn lists_view(v: Seq<Vec<usize>>) -> Seq<Seq<usize>> {
    v.map_values(|x: Vec<usize>| x@)
}

/// `after` extends `before` with the leading routes of `all` until `max`
/// lists are held; `truncated` reports that routes were left out.
pub open spec fn collected(before: Seq<Seq<usize>>, after: Seq<Seq<usize>>, truncated: bool, all: Seq<Seq<usize>>, max: int) -> bool {
    if before.len() >= max {
        after == before && truncated
    } else {
        let room = max - before.len();
        &&& after == before + all.take(if all.len() < room { all.len() as int } else { room })
        &&& all.len() > room ==> truncated
        &&& truncated ==> all.len() >= room
    }
}

/// A copy of an index list.
fn copy_indices(v: &Vec<usize>) -> (r: Vec<usize>)
    ensures
        r@ == v@,
{
    let mut r: Vec<usize> = Vec::new();
    let mut i: usize = 0;
    while i < v.len()
        invariant
            i <= v@.len(),
            r@ == v@.take(i as int),
        decreases v@.len() - i,
    {
        r.push(v[i]);
        proof {
            assert(v@.take(i + 1) == v@.take(i as int).push(v@[i as int]));
        }
        i = i + 1;
    }
    proof {
        assert(v@.take(i as int) == v@);
    }
    r
}

proof fn lemma_dependents_later(e: ProofStepExtraction, s: usize, n: int)
    requires
        proof_steps_valid(e),
        n <= usize::MAX,
        0 <= n <= e.steps@.len(),
    ensures
        forall|k: int| 0 <= k < dependents_upto(e, s as int, n).len() ==> s < #[trigger] dependents_upto(e, s as int, n)[k] < n,
    decreases n,
{
    if n > 0 {
        lemma_dependents_later(e, s, n - 1);
        let d = dependents_upto(e, s as int, n - 1);
        if e.steps@[n - 1].prerequisite_steps@.contains(s as usize) {
            assert(step_valid(e, n - 1));
            assert(prerequisites_ok(e, n - 1));
            let k = choose|k: int| 0 <= k < e.steps@[n - 1].prerequisite_steps@.len() && #[trigger] e.steps@[n - 1].prerequisite_steps@[k] == s as usize;
            assert(e.steps@[n - 1].prerequisite_steps@[k] < n - 1);
            assert(dependents_upto(e, s as int, n) == d.push((n - 1) as usize));
            assert forall|j: int| 0 <= j < dependents_upto(e, s as int, n).len() implies s < #[trigger] dependents_upto(e, s as int, n)[j] < n by {
                if j < d.len() {
                    assert(dependents_upto(e, s as int, n)[j] == d[j]);
                }
            }
        } else {
            assert(dependents_upto(e, s as int, n) == d);
        }
    }
}

proof fn lemma_routes_via_split(e: ProofStepExtraction, cur: int, goal: int, next: Seq<usize>, k: int)
    requires
        0 <= k < next.len(),
        cur < next[k] < e.steps@.len(),
    ensures
        routes_via(e, cur, goal, next, k) == prefixed(seq![cur as usize], routes(e, next[k] as int, goal))
            + routes_via(e, cur, goal, next, k + 1),
{
}

impl<'a> ProofStepGraph<'a> {
    /// Walks the dependents depth first from `current`, recording each route
    /// to the conclusion, until `maximum_paths` routes are held.
    fn collect_paths(
        &self,
        current: usize,
        conclusion: usize,
        maximum_paths: usize,
        path: &mut Vec<usize>,
        paths: &mut Vec<Vec<usize>>,
        truncated: &mut bool,
    )
        requires
            current < self.extraction_view().steps@.len(),
            old(path)@.len() > 0,
            old(path)@.last() == current,
            !*old(truncated),
        ensures
            final(path)@ == old(path)@,
            collected(
                lists_view(old(paths)@),
                lists_view(final(paths)@),
                *final(truncated),
                prefixed(old(path)@.drop_last(), routes(self.extraction_view(), current as int, conclusion as int)),
                maximum_paths as int,
            ),
        decreases self.extraction_view().steps@.len() - current,
    {
        proof {
            use_type_invariant(self);
        }
        let ghost e = *self.extraction;
        let ghost pre = path@.drop_last();
        let ghost all = prefixed(pre, routes(e, current as int, conclusion as int));
        proof {
            assert(pre.push(current) =~= path@);
        }
        if paths.len() >= maximum_paths {
            *truncated = true;
            return;
        }
        if current == conclusion {
            let copy = copy_indices(path);
            paths.push(copy);
            proof {
                assert(pre + seq![current] =~= path@);
                assert(all =~= seq![path@]);
                assert(lists_view(paths@) =~= lists_view(old(paths)@) + all.take(1));
            }
            return;
        }
        let next = &self.dependents[current];
        let total = self.dependents.len();
        let ghost deps = step_dependents(e, current as int);
        proof {
            assert(self.dependents@.len() == e.steps@.len());
            lemma_dependents_later(e, current, total as int);
            assert(next@ == deps);
        }
        let ghost mut consumed: Seq<Seq<usize>> = Seq::empty();
        let mut k: usize = 0;
        while k < next.len()
            invariant
                e == *self.extraction,
                next@ == deps,
                deps == step_dependents(e, current as int),
                forall|j: int| 0 <= j < deps.len() ==> current < #[trigger] deps[j] < e.steps@.len(),
                current != conclusion,
                current < e.steps@.len(),
                k <= next@.len(),
                path@ == pre.push(current),
                old(path)@ == pre.push(current),
                pre == old(path)@.drop_last(),
                !*truncated,
                all == prefixed(pre, routes(e, current as int, conclusion as int)),
                routes(e, current as int, conclusion as int) == routes_via(e, current as int, conclusion as int, deps, 0),
                prefixed(pre, routes_via(e, current as int, conclusion as int, deps, 0))
                    == consumed + prefixed(pre, routes_via(e, current as int, conclusion as int, deps, k as int)),
                lists_view(old(paths)@).len() < maximum_paths,
                consumed.len() <= maximum_paths - lists_view(old(paths)@).len(),
                lists_view(paths@) == lists_view(old(paths)@) + consumed,
            decreases next@.len() - k,
        {
            let d = next[k];
            let ghost before_paths = lists_view(paths@);
            let ghost child = routes(e, d as int, conclusion as int);
            path.push(d);
            proof {
                assert(path@.drop_last() =~= pre.push(current));
            }
            self.collect_paths(d, conclusion, maximum_paths, path, paths, truncated);
            let _ = path.pop();
            proof {
                lemma_routes_via_split(e, current as int, conclusion as int, deps, k as int);
                let head = prefixed(seq![current], child);
                let rest = routes_via(e, current as int, conclusion as int, deps, k + 1);
                assert(prefixed(pre, head) =~= prefixed(pre.push(current), child)) by {
                    assert forall|i: int| 0 <= i < child.len() implies
                        prefixed(pre, head)[i] == prefixed(pre.push(current), child)[i]
                        && #[trigger] child[i] == child[i] by {
                        assert(pre + (seq![current] + child[i]) =~= pre.push(current) + child[i]);
                    }
                }
                assert(prefixed(pre, (head + rest)) =~= prefixed(pre, head)
                    + prefixed(pre, rest));
                assert(path@ =~= pre.push(current));
            }
            if *truncated {
                proof {
                    let head = prefixed(pre.push(current), child);
                    let rest = prefixed(pre, routes_via(e, current as int, conclusion as int, deps, k + 1));
                    assert(all == consumed + (head + rest));
                    let room = maximum_paths - lists_view(old(paths)@).len();
                    if before_paths.len() >= maximum_paths {
                        assert(consumed.len() == room);
                        assert(all.take(room) =~= consumed);
                        assert(lists_view(paths@) == before_paths);
                        assert(lists_view(paths@) =~= lists_view(old(paths)@) + all.take(room));
                    } else {
                        let room2 = maximum_paths - before_paths.len();
                        assert(room2 == room - consumed.len());
                        assert(head.len() >= room2);
                        assert(lists_view(paths@) == before_paths + head.take(room2));
                        assert(all.take(room) =~= consumed + head.take(room2));
                        assert(lists_view(paths@) =~= lists_view(old(paths)@) + all.take(room));
                    }
                    assert(all.len() >= room);
                }
                return;
            }
            proof {
                let head = prefixed(pre.push(current), child);
                let rest = prefixed(pre, routes_via(e, current as int, conclusion as int, deps, k + 1));
                assert(before_paths.len() < maximum_paths);
                assert(lists_view(paths@) == before_paths + head);
                assert(consumed + (head + rest) =~= (consumed + head) + rest);
                consumed = consumed + head;
            }
            k = k + 1;
        }
        proof {
            assert(routes_via(e, current as int, conclusion as int, deps, k as int) == Seq::<Seq<usize>>::empty());
            assert(prefixed(pre, routes_via(e, current as int, conclusion as int, deps, k as int)) =~= Seq::<Seq<usize>>::empty());
            assert(all =~= consumed);
            assert(all.take(all.len() as int) =~= all);
        }
    }

    /// The routes from a step to the conclusion, at most `maximum_paths` of
    /// them, and whether routes were left out. `None` where the step does not
    /// exist or the extraction names no conclusion.
    pub fn paths_to_conclusion(&self, step: usize, maximum_paths: usize) -> (r: Option<(Vec<Vec<usize>>, bool)>)
        ensures
            match r {
                Some((paths, truncated)) => {
                    &&& step < self.extraction_view().steps@.len()
                    &&& self.extraction_view().conclusion_step matches Some(c)
                    &&& collected(Seq::empty(), lists_view(paths@), truncated,
                        routes(self.extraction_view(), step as int, c as int), maximum_paths as int)
                },
                None => step >= self.extraction_view().steps@.len() || self.extraction_view().conclusion_step is None,
            },
    {
        if step >= self.extraction.steps.len() {
            return None;
        }
        let conclusion = match self.extraction.conclusion_step {
            Some(c) => c,
            None => {
                return None;
            },
        };
        let mut paths: Vec<Vec<usize>> = Vec::new();
        let mut path: Vec<usize> = Vec::new();
        path.push(step);
        let mut truncated = false;
        self.collect_paths(step, conclusion, maximum_paths, &mut path, &mut paths, &mut truncated);
        proof {
            let all = routes(*self.extraction, step as int, conclusion as int);
            assert(prefixed(seq![step].drop_last(), all) =~= all) by {
                assert(seq![step].drop_last() =~= Seq::<usize>::empty());
                assert forall|i: int| 0 <= i < all.len() implies prefixed(seq![step].drop_last(), all)[i] == #[trigger] all[i] by {
                    assert(Seq::<usize>::empty() + all[i] =~= all[i]);
                }
            }
            assert(lists_view(Seq::<Vec<usize>>::empty()) =~= Seq::<Seq<usize>>::empty());
        }
        Some((paths, truncated))
    }
}


/// A named reference that is proof plumbing: core equality, congruence and
/// logical-connective lemmas.
pub open spec fn core_plumbing(name: Seq<char>) -> bool {
    ||| name == "id"@
    ||| name == "rfl"@
    ||| name == "Eq.refl"@
    ||| name == "congrArg"@
    ||| name == "Eq.mpr"@
    ||| name == "Eq.mp"@
    ||| name == "Eq.symm"@
    ||| name == "Iff.mpr"@
    ||| name == "Iff.mp"@
    ||| name == "Exists.intro"@
    ||| name == "Exists.elim"@
    ||| name == "And.intro"@
    ||| name == "And.left"@
    ||| name == "And.right"@
    ||| name == "Or.elim"@
    ||| name == "Subtype.property"@
}

/// A named reference worth a landmark: not a generated instance, not a
/// coercion adapter or match helper, not core plumbing.
pub open spec fn meaningful_reference(name: Seq<char>) -> bool {
    &&& !text_starts_with(name, "inst"@)
    &&& !text_contains(name, ".to"@)
    &&& !text_contains(name, ".match_"@)
    &&& !core_plumbing(name)
}

/// The core plumbing lemmas `id`, `rfl`, `Eq.refl`, `congrArg`, `Eq.mpr`,
/// `Eq.mp`, `Eq.symm`, `Iff.mpr`, `Iff.mp`, `Exists.intro`, `Exists.elim`,
/// `And.intro`, `And.left`, `And.right`, `Or.elim` and `Subtype.property` are
/// never meaningful references.
pub proof fn lemma_core_plumbing_never_meaningful(name: Seq<char>)
    requires
        name == "id"@ || name == "rfl"@ || name == "Eq.refl"@ || name == "congrArg"@ || name == "Eq.mpr"@ || name == "Eq.mp"@ || name == "Eq.symm"@ || name == "Iff.mpr"@ || name == "Iff.mp"@ || name == "Exists.intro"@ || name == "Exists.elim"@ || name == "And.intro"@ || name == "And.left"@ || name == "And.right"@ || name == "Or.elim"@ || name == "Subtype.property"@,
    ensures
        !meaningful_reference(name),
{
}

/// A reference is meaningful exactly when it names no generated instance
/// (a name starting with `inst`), no coercion adapter (holding `.to`), no
/// match helper (holding `.match_`) and no core plumbing lemma.
pub proof fn lemma_meaningful_exactly(name: Seq<char>)
    ensures
        meaningful_reference(name) <==> !text_starts_with(name, "inst"@) && !text_contains(name, ".to"@)
            && !text_contains(name, ".match_"@) && !(name == "id"@ || name == "rfl"@ || name == "Eq.refl"@ || name == "congrArg"@ || name == "Eq.mpr"@ || name == "Eq.mp"@ || name == "Eq.symm"@ || name == "Iff.mpr"@ || name == "Iff.mp"@ || name == "Exists.intro"@ || name == "Exists.elim"@ || name == "And.intro"@ || name == "And.left"@ || name == "And.right"@ || name == "Or.elim"@ || name == "Subtype.property"@),
{
}

/// A named application that cites only core plumbing lemmas is no outline
/// candidate unless it is the conclusion itself.
pub proof fn lemma_plumbing_applications_condensed(e: ProofStepExtraction, c: int, x: int)
    requires
        0 <= x < e.steps@.len(),
        x != c,
        e.steps@[x].kind@ == "namedApplication"@,
        forall|k: int| 0 <= k < e.steps@[x].named_references@.len() ==> {
            let name = #[trigger] e.steps@[x].named_references@[k]@;
            name == "id"@ || name == "rfl"@ || name == "Eq.refl"@ || name == "congrArg"@ || name == "Eq.mpr"@ || name == "Eq.mp"@ || name == "Eq.symm"@ || name == "Iff.mpr"@ || name == "Iff.mp"@ || name == "Exists.intro"@ || name == "Exists.elim"@ || name == "And.intro"@ || name == "And.left"@ || name == "And.right"@ || name == "Or.elim"@ || name == "Subtype.property"@
        },
    ensures
        !outline_candidate(e, c, x),
{
    reveal_strlit("namedApplication");
    reveal_strlit("localFact");
    reveal_strlit("branchConclusion");
    assert("namedApplication"@[0] != "localFact"@[0]);
    assert("namedApplication"@[0] != "branchConclusion"@[0]);
    assert forall|k: int| 0 <= k < e.steps@[x].named_references@.len()
        implies !meaningful_reference(#[trigger] e.steps@[x].named_references@[k]@) by {
        lemma_core_plumbing_never_meaningful(e.steps@[x].named_references@[k]@);
    }
}

/// Whether a named reference is worth a landmark in the outline.
pub fn meaningful_named_reference(name: &str) -> (r: bool)
    ensures
        r == meaningful_reference(name@),
{
    if starts_with_text(name, "inst") || contains_text(name, ".to") || contains_text(name, ".match_") {
        return false;
    }
    !(text_eq(name, "id") || text_eq(name, "rfl") || text_eq(name, "Eq.refl") || text_eq(name, "congrArg")
        || text_eq(name, "Eq.mpr") || text_eq(name, "Eq.mp") || text_eq(name, "Eq.symm") || text_eq(name, "Iff.mpr")
        || text_eq(name, "Iff.mp") || text_eq(name, "Exists.intro") || text_eq(name, "Exists.elim")
        || text_eq(name, "And.intro") || text_eq(name, "And.left") || text_eq(name, "And.right")
        || text_eq(name, "Or.elim") || text_eq(name, "Subtype.property"))
}

/// The step is a local fact or a branch conclusion.
pub open spec fn landmark_kind(step: ProofStep) -> bool {
    step.kind@ == "localFact"@ || step.kind@ == "branchConclusion"@
}

/// The step is retained in the outline of a proof concluding at `c`: it is
/// `c` or one of its ancestors, and it is the conclusion, a local fact, a
/// branch conclusion, or a named application with a meaningful reference.
pub open spec fn outline_candidate(e: ProofStepExtraction, c: int, x: int) -> bool {
    let step = e.steps@[x];
    &&& 0 <= c < e.steps@.len()
    &&& 0 <= x <= c
    &&& supports(e, c, x)
    &&& (x == c || landmark_kind(step) || (step.kind@ == "namedApplication"@ && exists|k: int|
        0 <= k < step.named_references@.len() && meaningful_reference(#[trigger] step.named_references@[k]@)))
}

/// The outline candidates below `n`, in order.
pub open spec fn outline_candidates(e: ProofStepExtraction, c: int, n: int) -> Seq<usize>
    decreases n,
{
    if n <= 0 {
        Seq::empty()
    } else if outline_candidate(e, c, n - 1) {
        outline_candidates(e, c, n - 1).push((n - 1) as usize)
    } else {
        outline_candidates(e, c, n - 1)
    }
}

/// The candidates that are local facts or branch conclusions, other than `c`.
pub open spec fn landmarks(e: ProofStepExtraction, candidates: Seq<usize>, c: int) -> Seq<usize> {
    candidates.filter(|x: usize| x != c && landmark_kind(e.steps@[x as int]))
}

/// The number of set flags.
pub open spec fn count_true(s: Seq<bool>) -> nat
    decreases s.len(),
{
    if s.len() == 0 {
        0
    } else {
        count_true(s.drop_last()) + if s.last() { 1nat } else { 0nat }
    }
}

pub proof fn lemma_count_true_set(s: Seq<bool>, i: int)
    requires
        0 <= i < s.len(),
    ensures
        count_true(s.update(i, true)) == count_true(s) + if s[i] { 0nat } else { 1nat },
        count_true(s) <= s.len(),
    decreases s.len(),
{
    let t = s.update(i, true);
    if i < s.len() - 1 {
        assert(t.drop_last() == s.drop_last().update(i, true));
        lemma_count_true_set(s.drop_last(), i);
    } else {
        assert(t.drop_last() == s.drop_last());
        if s.len() > 1 {
            lemma_count_true_set(s.drop_last(), 0);
        }
    }
}

/// The rules the outline applies, in words.
pub fn proof_outline_retention_rules() -> (r: Vec<String>)
    ensures
        r@.len() == 4,
{
    let mut r: Vec<String> = Vec::new();
    r.push(text_from("retain the conclusion and every local-fact or branch-conclusion ancestor"));
    r.push(text_from("retain named applications except generated instances, coercion adapters, and core equality/congruence plumbing"));
    r.push(text_from("for large proofs, limit named-application landmarks to a 240-node overview, prioritizing rare references and sampling the full proof order"));
    r.push(text_from("replace omitted paths with condensed edges carrying inclusive raw-step paths"));
    r
}

/// The largest number of nodes an outline keeps.
pub const MAX_OUTLINE_NODES: usize = 240;

/// An optional landmark with the rarity of its rarest reference.
#[derive(Clone, Copy, Debug)]
struct RankedStep {
    rarity: usize,
    id: usize,
}

impl Ranked for RankedStep {
    closed spec fn rank_lt(self, other: Self) -> bool {
        self.rarity < other.rarity || (self.rarity == other.rarity && self.id < other.id)
    }

    fn precedes(&self, other: &Self) -> (r: bool) {
        self.rarity < other.rarity || (self.rarity == other.rarity && self.id < other.id)
    }

    proof fn lemma_rank_order(a: Self, b: Self, c: Self) {
    }
}

/// Which of the steps `ids` are marked, in order.
spec fn marks_of(ids: Seq<usize>, mark: Seq<bool>) -> Seq<bool> {
    ids.map_values(|a: usize| mark[a as int])
}

proof fn lemma_count_true_none(s: Seq<bool>)
    requires
        forall|i: int| 0 <= i < s.len() ==> !#[trigger] s[i],
    ensures
        count_true(s) == 0,
    decreases s.len(),
{
    if s.len() > 0 {
        lemma_count_true_none(s.drop_last());
    }
}

/// Sorting ranked optional steps keeps each of them once: every sorted
/// entry is one of the steps, and no two entries name the same step.
proof fn lemma_sorted_ids(optional: Seq<usize>, ranked: Seq<RankedStep>, sorted: Seq<RankedStep>)
    requires
        increasing(optional),
        ranked.len() == optional.len(),
        forall|i: int| 0 <= i < optional.len() ==> (#[trigger] ranked[i]).id == optional[i],
        sorted.to_multiset() == ranked.to_multiset(),
    ensures
        sorted.len() == optional.len(),
        forall|i: int| 0 <= i < sorted.len() ==> optional.contains(#[trigger] sorted[i].id),
        forall|i: int, j: int| 0 <= i < sorted.len() && 0 <= j < sorted.len() && i != j ==> (#[trigger] sorted[i]).id != (#[trigger] sorted[j]).id,
{
    broadcast use vstd::seq_lib::group_to_multiset_ensures;
    vstd::seq_lib::to_multiset_len(sorted);
    vstd::seq_lib::to_multiset_len(ranked);
    assert forall|i: int| 0 <= i < sorted.len() implies exists|a: int| 0 <= a < ranked.len() && #[trigger] ranked[a] == #[trigger] sorted[i] by {
        assert(sorted.to_multiset().count(sorted[i]) > 0);
        assert(ranked.contains(sorted[i]));
    }
    assert forall|i: int| 0 <= i < sorted.len() implies optional.contains(#[trigger] sorted[i].id) by {
        let a = choose|a: int| 0 <= a < ranked.len() && #[trigger] ranked[a] == sorted[i];
        assert(optional[a] == sorted[i].id);
    }
    assert(ranked.no_duplicates()) by {
        assert forall|a: int, b: int| 0 <= a < ranked.len() && 0 <= b < ranked.len() && a != b implies ranked[a] != ranked[b] by {
            if a < b {
                assert(optional[a] < optional[b]);
            } else {
                assert(optional[b] < optional[a]);
            }
        }
    }
    ranked.lemma_multiset_has_no_duplicates();
    assert forall|x: RankedStep| sorted.to_multiset().contains(x) implies sorted.to_multiset().count(x) == 1 by {
        assert(ranked.to_multiset().contains(x));
    }
    sorted.lemma_multiset_has_no_duplicates_conv();
    assert forall|i: int, j: int| 0 <= i < sorted.len() && 0 <= j < sorted.len() && i != j implies (#[trigger] sorted[i]).id != (#[trigger] sorted[j]).id by {
        let a = choose|a: int| 0 <= a < ranked.len() && #[trigger] ranked[a] == sorted[i];
        let b = choose|b: int| 0 <= b < ranked.len() && #[trigger] ranked[b] == sorted[j];
        assert(sorted[i] != sorted[j]);
        if a < b {
            assert(optional[a] < optional[b]);
        } else if b < a {
            assert(optional[b] < optional[a]);
        }
    }
}

/// With at least as many items as samples, later samples take later items.
proof fn lemma_sample_increasing(i: int, j: int, len: int, budget: int)
    requires
        0 <= i < j,
        0 < budget <= len,
    ensures
        i * len / budget < j * len / budget,
{
    assert(j * len >= i * len + budget) by (nonlinear_arith)
        requires
            0 <= i < j,
            0 < budget <= len,
    ;
    assert(i * len / budget < j * len / budget) by (nonlinear_arith)
        requires
            j * len >= i * len + budget,
            0 < budget,
            0 <= i * len,
    {
        let a = i * len;
        let b = j * len;
        assert(a / budget * budget <= a);
        assert(b / budget * budget > b - budget);
    }
}

proof fn lemma_sample_below(index: int, len: int, budget: int)
    requires
        0 <= index < budget,
        0 < len,
    ensures
        0 <= index * len / budget < len,
{
    assert(0 <= index * len) by (nonlinear_arith)
        requires
            0 <= index,
            0 < len,
    ;
    assert(index * len < budget * len) by (nonlinear_arith)
        requires
            0 <= index < budget,
            0 < len,
    ;
    assert(index * len / budget < len) by (nonlinear_arith)
        requires
            index * len < budget * len,
            0 < budget,
            0 <= index * len,
    ;
    assert(0 <= index * len / budget) by (nonlinear_arith)
        requires
            0 <= index * len,
            0 < budget,
    ;
}

/// The index of the `index`-th of `budget` evenly spread samples of `len` items.
fn sample_position(index: usize, len: usize, budget: usize) -> (r: usize)
    requires
        index < budget,
        0 < len,
    ensures
        r == (index as int) * (len as int) / (budget as int),
        r < len,
{
    proof {
        lemma_sample_below(index as int, len as int, budget as int);
    }
    assert((index as int) * (len as int) <= 0xffff_ffff_ffff_ffff_int * 0xffff_ffff_ffff_ffff_int) by (nonlinear_arith)
        requires
            0 <= index <= 0xffff_ffff_ffff_ffff_int,
            0 <= len <= 0xffff_ffff_ffff_ffff_int,
    ;
    let wide = (index as u128) * (len as u128) / (budget as u128);
    assert(wide == (index as int) * (len as int) / (budget as int));
    wide as usize
}

/// Keeps every candidate of a small outline; for a large one keeps the
/// conclusion, the local facts and branch conclusions (evenly sampled where
/// there are too many), then the named applications with the rarest
/// references, then an even sample of the rest in proof order.
fn select_outline_nodes(extraction: &ProofStepExtraction, candidates: &Vec<usize>, conclusion: usize) -> (r: Vec<usize>)
    requires
        increasing(candidates@),
        forall|k: int| 0 <= k < candidates@.len() ==> #[trigger] candidates@[k] < extraction.steps@.len(),
        conclusion < extraction.steps@.len(),
        candidates@.contains(conclusion),
    ensures
        candidates@.len() <= MAX_OUTLINE_NODES ==> r@ == candidates@,
        r@.len() <= MAX_OUTLINE_NODES,
        increasing(r@),
        forall|k: int| 0 <= k < r@.len() ==> candidates@.contains(#[trigger] r@[k]),
        r@.contains(conclusion),
        landmarks(*extraction, candidates@, conclusion as int).len() < MAX_OUTLINE_NODES - 1 ==> forall|k: int|
            0 <= k < landmarks(*extraction, candidates@, conclusion as int).len()
                ==> r@.contains(#[trigger] landmarks(*extraction, candidates@, conclusion as int)[k]),
        candidates@.len() > MAX_OUTLINE_NODES ==> r@.len() == MAX_OUTLINE_NODES,
{
    if candidates.len() <= MAX_OUTLINE_NODES {
        proof {
            broadcast use Seq::lemma_filter_contains_rev;
            assert forall|k: int| 0 <= k < landmarks(*extraction, candidates@, conclusion as int).len()
                implies candidates@.contains(#[trigger] landmarks(*extraction, candidates@, conclusion as int)[k]) by {
                assert(landmarks(*extraction, candidates@, conclusion as int).contains(landmarks(*extraction, candidates@, conclusion as int)[k]));
            }
        }
        return copy_indices(candidates);
    }
    let steps = &extraction.steps;
    let n = steps.len();
    let ghost e = *extraction;
    let ghost cands = candidates@;
    let mut mark: Vec<bool> = Vec::new();
    let mut x: usize = 0;
    while x < n
        invariant
            n == steps@.len(),
            x <= n,
            mark@.len() == x,
            forall|y: int| 0 <= y < x ==> !#[trigger] mark@[y],
            count_true(mark@) == 0,
        decreases n - x,
    {
        let ghost before = mark@;
        mark.push(false);
        proof {
            assert(mark@.drop_last() == before);
        }
        x = x + 1;
    }
    let mut mandatory: Vec<usize> = Vec::new();
    let mut optional: Vec<usize> = Vec::new();
    let mut k: usize = 0;
    while k < candidates.len()
        invariant
            n == steps@.len(),
            e == *extraction,
            steps == extraction.steps,
            cands == candidates@,
            increasing(cands),
            forall|j: int| 0 <= j < cands.len() ==> #[trigger] cands[j] < n,
            k <= cands.len(),
            mandatory@ == landmarks(e, cands.take(k as int), conclusion as int),
            increasing(mandatory@),
            increasing(optional@),
            forall|j: int| 0 <= j < mandatory@.len() ==> cands.take(k as int).contains(#[trigger] mandatory@[j]),
            forall|j: int| 0 <= j < optional@.len() ==> cands.take(k as int).contains(#[trigger] optional@[j])
                && optional@[j] != conclusion,
            forall|j: int| 0 <= j < mandatory@.len() ==> #[trigger] mandatory@[j] != conclusion,
            forall|j: int, i: int| 0 <= j < mandatory@.len() && 0 <= i < optional@.len() ==> #[trigger] mandatory@[j] != #[trigger] optional@[i],
            mandatory@.len() + optional@.len() + (if cands.take(k as int).contains(conclusion) { 1int } else { 0int }) == k,
        decreases cands.len() - k,
    {
        let id = candidates[k];
        proof {
            broadcast use Seq::lemma_filter_push;
            assert(cands.take(k + 1).drop_last() == cands.take(k as int));
            assert(cands.take(k + 1).last() == id);
            assert forall|j: int| 0 <= j < mandatory@.len() implies #[trigger] mandatory@[j] < id by {
                let a = choose|a: int| 0 <= a < k && cands.take(k as int)[a] == mandatory@[j];
                assert(cands[a] < cands[k as int]);
            }
            assert forall|j: int| 0 <= j < optional@.len() implies #[trigger] optional@[j] < id by {
                let a = choose|a: int| 0 <= a < k && cands.take(k as int)[a] == optional@[j];
                assert(cands[a] < cands[k as int]);
            }
            assert forall|y: usize| cands.take(k as int).contains(y) implies cands.take(k + 1).contains(y) by {
                let a = choose|a: int| 0 <= a < k && cands.take(k as int)[a] == y;
                assert(cands.take(k + 1)[a] == y);
            }
            assert(cands.take(k + 1)[k as int] == id);
            assert(cands.take(k + 1) == cands.take(k as int).push(id));
            assert(landmarks(e, cands.take(k + 1), conclusion as int) == if id != conclusion && landmark_kind(e.steps@[id as int]) {
                landmarks(e, cands.take(k as int), conclusion as int).push(id)
            } else {
                landmarks(e, cands.take(k as int), conclusion as int)
            });
        }
        proof {
            assert(!cands.take(k as int).contains(id)) by {
                if cands.take(k as int).contains(id) {
                    let a = choose|a: int| 0 <= a < k && cands.take(k as int)[a] == id;
                    assert(cands[a] < cands[k as int]);
                }
            }
            assert(cands.take(k + 1).contains(conclusion) == (cands.take(k as int).contains(conclusion) || id == conclusion)) by {
                if cands.take(k + 1).contains(conclusion) && id != conclusion {
                    let a = choose|a: int| 0 <= a < k + 1 && #[trigger] cands.take(k + 1)[a] == conclusion;
                    assert(cands.take(k as int)[a] == conclusion);
                }
                if id == conclusion {
                    assert(cands.take(k + 1)[k as int] == conclusion);
                }
            }
        }
        if id != conclusion {
            let kind = steps[id].kind.as_str();
            if text_eq(kind, "localFact") || text_eq(kind, "branchConclusion") {
                mandatory.push(id);
            } else {
                optional.push(id);
            }
        }
        k = k + 1;
    }
    proof {
        assert(cands.take(k as int) == cands);
        assert(mandatory@.len() + optional@.len() + 1 == cands.len());
    }
    let ghost before_first = mark@;
    mark.set(conclusion, true);
    proof {
        lemma_count_true_set(before_first, conclusion as int);
    }
    let ghost lm = landmarks(e, cands, conclusion as int);
    proof {
        assert(mandatory@ == lm);
    }
    if mandatory.len() >= MAX_OUTLINE_NODES - 1 {
        let budget: usize = MAX_OUTLINE_NODES - 1;
        let mut index: usize = 0;
        while index < budget
            invariant
                budget == MAX_OUTLINE_NODES - 1,
                n == mark@.len(),
                index <= budget,
                conclusion < n,
                mark@[conclusion as int],
                forall|i: int| 0 <= i < mandatory@.len() ==> #[trigger] mandatory@[i] < n,
                count_true(mark@) == 1 + index,
                forall|y: int| 0 <= y < n && #[trigger] mark@[y] ==> cands.contains(y as usize),
                forall|j: int| 0 <= j < mandatory@.len() ==> cands.contains(#[trigger] mandatory@[j]),
                forall|j: int| 0 <= j < cands.len() ==> #[trigger] cands[j] < n,
                mandatory@.len() >= budget,
                increasing(mandatory@),
                forall|j: int| 0 <= j < mandatory@.len() ==> #[trigger] mandatory@[j] != conclusion,
                index == 0 ==> forall|y: int| 0 <= y < n && #[trigger] mark@[y] ==> y == conclusion,
                index > 0 ==> forall|y: int| 0 <= y < n && #[trigger] mark@[y] ==> y == conclusion
                    || y <= mandatory@[(index - 1) * mandatory@.len() / budget as int],
            decreases budget - index,
        {
            let at = sample_position(index, mandatory.len(), budget);
            let id = mandatory[at];
            proof {
                assert(cands.contains(id));
                let a = choose|a: int| 0 <= a < cands.len() && cands[a] == id;
                assert(cands[a] < n);
                if index > 0 {
                    lemma_sample_increasing(index - 1, index as int, mandatory@.len() as int, budget as int);
                    lemma_sample_below((index - 1) as int, mandatory@.len() as int, budget as int);
                    assert(mandatory@[(index - 1) * mandatory@.len() / budget as int] < mandatory@[at as int]);
                }
                assert(!mark@[id as int]);
                lemma_count_true_set(mark@, id as int);
            }
            mark.set(id, true);
            index = index + 1;
        }
    } else {
        proof {
            assert forall|i: int| 0 <= i < optional@.len() implies #[trigger] optional@[i] < n by {
                let a = choose|a: int| 0 <= a < cands.len() && cands[a] == optional@[i];
                assert(cands[a] < n);
            }
            assert forall|y: int| 0 <= y < n && #[trigger] mark@[y] implies y == conclusion by {
                if y != conclusion {
                    assert(!before_first[y]);
                }
            }
        }
        let mut j: usize = 0;
        while j < mandatory.len()
            invariant
                n == mark@.len(),
                mandatory@ == lm,
                increasing(mandatory@),
                j <= mandatory@.len(),
                conclusion < n,
                mark@[conclusion as int],
                forall|i: int| 0 <= i < mandatory@.len() ==> #[trigger] mandatory@[i] < n,
                forall|i: int| 0 <= i < mandatory@.len() ==> #[trigger] mandatory@[i] != conclusion,
                count_true(mark@) == 1 + j,
                forall|y: int| 0 <= y < n && #[trigger] mark@[y] ==> cands.contains(y as usize),
                forall|y: int| 0 <= y < n && #[trigger] mark@[y] ==> y == conclusion || (j > 0 && y <= mandatory@[j - 1]),
                forall|y: int| 0 <= y < n && #[trigger] mark@[y] ==> y == conclusion || mandatory@.contains(y as usize),
                forall|i: int| 0 <= i < j ==> #[trigger] mark@[mandatory@[i] as int],
                forall|i: int| 0 <= i < mandatory@.len() ==> cands.contains(#[trigger] mandatory@[i]),
                forall|i: int| 0 <= i < cands.len() ==> #[trigger] cands[i] < n,
            decreases mandatory@.len() - j,
        {
            let id = mandatory[j];
            proof {
                if j > 0 {
                    assert(mandatory@[j - 1] < mandatory@[j as int]);
                }
                assert(!mark@[id as int]);
                lemma_count_true_set(mark@, id as int);
            }
            mark.set(id, true);
            proof {
                assert forall|y: int| 0 <= y < n && #[trigger] mark@[y] implies y == conclusion || mandatory@.contains(y as usize) by {
                    if y == id {
                        assert(mandatory@[j as int] == id);
                    }
                }
            }
            j = j + 1;
        }
        let ranked = rank_optional(extraction, &optional);
        let ghost ranked_view = ranked@;
        let sorted = sort_ranked(ranked);
        proof {
            lemma_sorted_ids(optional@, ranked_view, sorted@);
            assert forall|i: int| 0 <= i < sorted@.len() implies cands.contains((#[trigger] sorted@[i]).id) by {
                assert(optional@.contains(sorted@[i].id));
                let a = choose|a: int| 0 <= a < optional@.len() && optional@[a] == sorted@[i].id;
                assert(cands.contains(optional@[a]));
            }
            assert forall|i: int| 0 <= i < optional@.len() implies !#[trigger] marks_of(optional@, mark@)[i] by {
                let y = optional@[i];
                if mark@[y as int] {
                    if mandatory@.contains(y) {
                        let q = choose|q: int| 0 <= q < mandatory@.len() && mandatory@[q] == y;
                        assert(mandatory@[q] != optional@[i]);
                    }
                }
            }
            lemma_count_true_none(marks_of(optional@, mark@));
        }
        let retained_count = 1 + mandatory.len();
        let budget = MAX_OUTLINE_NODES - retained_count;
        let priority = budget * 3 / 4;
        let mut p: usize = 0;
        while p < priority && p < sorted.len()
            invariant
                n == mark@.len(),
                p <= priority,
                priority < budget,
                budget + retained_count == MAX_OUTLINE_NODES,
                p <= sorted@.len(),
                conclusion < n,
                mark@[conclusion as int],
                forall|i: int| 0 <= i < mandatory@.len() ==> #[trigger] mandatory@[i] < n,
                count_true(mark@) == retained_count + p,
                retained_count == 1 + mandatory@.len(),
                forall|y: int| 0 <= y < n && #[trigger] mark@[y] ==> cands.contains(y as usize),
                forall|y: int| 0 <= y < n && #[trigger] mark@[y] ==> y == conclusion || mandatory@.contains(y as usize)
                    || exists|i: int| 0 <= i < p && #[trigger] sorted@[i].id == y as usize,
                forall|i: int| 0 <= i < mandatory@.len() ==> #[trigger] mark@[mandatory@[i] as int],
                forall|i: int| 0 <= i < sorted@.len() ==> cands.contains((#[trigger] sorted@[i]).id),
                forall|i: int| 0 <= i < sorted@.len() ==> optional@.contains(#[trigger] sorted@[i].id),
                forall|i: int, k2: int| 0 <= i < sorted@.len() && 0 <= k2 < sorted@.len() && i != k2
                    ==> (#[trigger] sorted@[i]).id != (#[trigger] sorted@[k2]).id,
                forall|i: int| 0 <= i < optional@.len() ==> #[trigger] optional@[i] != conclusion,
                forall|q: int, i: int| 0 <= q < mandatory@.len() && 0 <= i < optional@.len() ==> #[trigger] mandatory@[q] != #[trigger] optional@[i],
                increasing(optional@),
                forall|i: int| 0 <= i < optional@.len() ==> #[trigger] optional@[i] < n,
                count_true(marks_of(optional@, mark@)) == p,
                forall|i: int| 0 <= i < cands.len() ==> #[trigger] cands[i] < n,
            decreases priority - p,
        {
            let id = sorted[p].id;
            let ghost bs = marks_of(optional@, mark@);
            proof {
                assert(optional@.contains(sorted@[p as int].id));
                let a = choose|a: int| 0 <= a < optional@.len() && optional@[a] == id;
                assert(!mark@[id as int]) by {
                    if mark@[id as int] {
                        if mandatory@.contains(id) {
                            let q = choose|q: int| 0 <= q < mandatory@.len() && mandatory@[q] == id;
                            assert(mandatory@[q] != optional@[a]);
                        }
                        if exists|i: int| 0 <= i < p && #[trigger] sorted@[i].id == id {
                            let i = choose|i: int| 0 <= i < p && #[trigger] sorted@[i].id == id;
                            assert(sorted@[i].id != sorted@[p as int].id);
                        }
                    }
                }
                lemma_count_true_set(mark@, id as int);
                lemma_count_true_set(bs, a);
                assert(marks_of(optional@, mark@.update(id as int, true)) =~= bs.update(a, true)) by {
                    assert forall|b: int| 0 <= b < optional@.len() && b != a implies optional@[b] != id by {
                        if b < a {
                            assert(optional@[b] < optional@[a]);
                        } else {
                            assert(optional@[a] < optional@[b]);
                        }
                    }
                }
            }
            mark.set(id, true);
            proof {
                assert forall|y: int| 0 <= y < n && #[trigger] mark@[y] implies y == conclusion || mandatory@.contains(y as usize)
                    || exists|i: int| 0 <= i < p + 1 && #[trigger] sorted@[i].id == y as usize by {
                    if y == id {
                        assert(sorted@[p as int].id == y as usize);
                    }
                }
            }
            p = p + 1;
        }
        let ghost mark1 = mark@;
        let mut remainder: Vec<usize> = Vec::new();
        let mut o: usize = 0;
        while o < optional.len()
            invariant
                n == mark@.len(),
                mark@ == mark1,
                o <= optional@.len(),
                increasing(optional@),
                forall|i: int| 0 <= i < optional@.len() ==> #[trigger] optional@[i] < n,
                forall|i: int| 0 <= i < optional@.len() ==> cands.contains(#[trigger] optional@[i]),
                forall|i: int| 0 <= i < remainder@.len() ==> cands.contains(#[trigger] remainder@[i]),
                forall|i: int| 0 <= i < cands.len() ==> #[trigger] cands[i] < n,
                increasing(remainder@),
                forall|i: int| 0 <= i < remainder@.len() ==> !mark@[#[trigger] remainder@[i] as int] && remainder@[i] < n,
                forall|i: int| 0 <= i < remainder@.len() ==> exists|a: int| 0 <= a < o && optional@[a] == #[trigger] remainder@[i],
                remainder@.len() + count_true(marks_of(optional@.take(o as int), mark@)) == o,
            decreases optional@.len() - o,
        {
            let id = optional[o];
            proof {
                assert(marks_of(optional@.take(o + 1), mark@) =~= marks_of(optional@.take(o as int), mark@).push(mark@[id as int]));
                assert(marks_of(optional@.take(o + 1), mark@).drop_last() =~= marks_of(optional@.take(o as int), mark@));
            }
            if !mark[id] {
                let ghost r0 = remainder@;
                remainder.push(id);
                proof {
                    assert forall|i: int, k2: int| 0 <= i < k2 < remainder@.len() implies remainder@[i] < remainder@[k2] by {
                        if k2 == remainder@.len() - 1 {
                            let a = choose|a: int| 0 <= a < o && optional@[a] == #[trigger] r0[i];
                            assert(optional@[a] < optional@[o as int]);
                        } else {
                            assert(r0[i] < r0[k2]);
                        }
                    }
                    assert forall|i: int| 0 <= i < remainder@.len() implies exists|a: int| 0 <= a < o + 1 && optional@[a] == #[trigger] remainder@[i] by {
                        if i < r0.len() {
                            assert(remainder@[i] == r0[i]);
                            let a = choose|a: int| 0 <= a < o && optional@[a] == #[trigger] r0[i];
                        } else {
                            assert(optional@[o as int] == remainder@[i]);
                        }
                    }
                }
            } else {
                proof {
                    assert forall|i: int| 0 <= i < remainder@.len() implies exists|a: int| 0 <= a < o + 1 && optional@[a] == #[trigger] remainder@[i] by {
                        let a = choose|a: int| 0 <= a < o && optional@[a] == #[trigger] remainder@[i];
                    }
                }
            }
            o = o + 1;
        }
        proof {
            assert(optional@.take(o as int) =~= optional@);
        }
        let marked = count_marks(&mark);
        if marked < MAX_OUTLINE_NODES && remainder.len() > 0 {
            let remaining = MAX_OUTLINE_NODES - marked;
            let ghost mark2 = mark@;
            let mut index: usize = 0;
            while index < remaining
                invariant
                    n == mark@.len(),
                    mark2.len() == n,
                    index <= remaining,
                    remainder@.len() > 0,
                    cands.len() > MAX_OUTLINE_NODES,
                    cands.len() > MAX_OUTLINE_NODES ==> remaining <= remainder@.len(),
                    conclusion < n,
                    mark@[conclusion as int],
                    forall|i: int| 0 <= i < mandatory@.len() ==> #[trigger] mandatory@[i] < n,
                    cands.len() > MAX_OUTLINE_NODES ==> count_true(mark@) == marked + index,
                    marked + remaining == MAX_OUTLINE_NODES,
                    forall|y: int| 0 <= y < n && #[trigger] mark@[y] ==> cands.contains(y as usize),
                    forall|i: int| 0 <= i < mandatory@.len() ==> #[trigger] mark@[mandatory@[i] as int],
                    forall|i: int| 0 <= i < remainder@.len() ==> cands.contains(#[trigger] remainder@[i]),
                    forall|i: int| 0 <= i < cands.len() ==> #[trigger] cands[i] < n,
                    increasing(remainder@),
                    forall|i: int| 0 <= i < remainder@.len() ==> !mark2[#[trigger] remainder@[i] as int] && remainder@[i] < n,
                    forall|y: int| 0 <= y < n && #[trigger] mark@[y] && !mark2[y] ==> index > 0
                        && y <= remainder@[(index - 1) * remainder@.len() / remaining as int],
                decreases remaining - index,
            {
                let at = sample_position(index, remainder.len(), remaining);
                let id = remainder[at];
                proof {
                    let a = choose|a: int| 0 <= a < cands.len() && cands[a] == id;
                    assert(cands[a] < n);
                    if cands.len() > MAX_OUTLINE_NODES {
                        if index > 0 {
                            lemma_sample_increasing(index - 1, index as int, remainder@.len() as int, remaining as int);
                            lemma_sample_below((index - 1) as int, remainder@.len() as int, remaining as int);
                            assert(remainder@[(index - 1) * remainder@.len() / remaining as int] < remainder@[at as int]);
                        }
                        assert(!mark@[id as int]);
                    }
                    lemma_count_true_set(mark@, id as int);
                }
                mark.set(id, true);
                proof {
                    assert forall|y: int| 0 <= y < n && #[trigger] mark@[y] && !mark2[y] implies index + 1 > 0
                        && y <= remainder@[(index + 1 - 1) * remainder@.len() / remaining as int] by {
                        if y != id {
                            if index > 0 {
                                lemma_sample_increasing(index - 1, index as int, remainder@.len() as int, remaining as int);
                                lemma_sample_below((index - 1) as int, remainder@.len() as int, remaining as int);
                            }
                        }
                    }
                }
                index = index + 1;
            }
        }
        proof {
            if cands.len() > MAX_OUTLINE_NODES {
                assert(count_true(mark@) == MAX_OUTLINE_NODES);
            }
        }
    }
    let r = collect_marked(&mark);
    proof {
        if lm.len() < MAX_OUTLINE_NODES - 1 {
            assert forall|k: int| 0 <= k < lm.len() implies r@.contains(#[trigger] lm[k]) by {
                assert(mark@[mandatory@[k] as int]);
            }
        }
    }
    r
}

/// Each optional landmark with the rarity of its rarest reference: the least
/// number of times, over all optional landmarks, that one of its references
/// is used (the largest count where it has none).
fn rank_optional(extraction: &ProofStepExtraction, optional: &Vec<usize>) -> (ranked: Vec<RankedStep>)
    requires
        forall|i: int| 0 <= i < optional@.len() ==> #[trigger] optional@[i] < extraction.steps@.len(),
    ensures
        ranked@.len() == optional@.len(),
        forall|i: int| 0 <= i < optional@.len() ==> (#[trigger] ranked@[i]).id == optional@[i],
{
    let steps = &extraction.steps;
    let n = steps.len();
    let mut frequency: Vec<(String, usize)> = Vec::new();
    let mut o: usize = 0;
    while o < optional.len()
        invariant
            n == steps@.len(),
            tally_sorted(frequency@),
            o <= optional@.len(),
            forall|i: int| 0 <= i < optional@.len() ==> #[trigger] optional@[i] < n,
        decreases optional@.len() - o,
    {
        let id = optional[o];
        let names = &steps[id].named_references;
        let mut t: usize = 0;
        while t < names.len()
            invariant
                tally_sorted(frequency@),
                t <= names@.len(),
            decreases names@.len() - t,
        {
            let current = tally_count(&frequency, names[t].as_str());
            if current < usize::MAX {
                tally_add(&mut frequency, names[t].as_str(), 1);
            }
            t = t + 1;
        }
        o = o + 1;
    }
    let mut ranked: Vec<RankedStep> = Vec::new();
    let mut o: usize = 0;
    while o < optional.len()
        invariant
            n == steps@.len(),
            tally_sorted(frequency@),
            o <= optional@.len(),
            ranked@.len() == o,
            forall|i: int| 0 <= i < o ==> (#[trigger] ranked@[i]).id == optional@[i],
            forall|i: int| 0 <= i < optional@.len() ==> #[trigger] optional@[i] < n,
        decreases optional@.len() - o,
    {
        let id = optional[o];
        let names = &steps[id].named_references;
        let mut rarity: usize = usize::MAX;
        let mut t: usize = 0;
        while t < names.len()
            invariant
                tally_sorted(frequency@),
                t <= names@.len(),
            decreases names@.len() - t,
        {
            let current = tally_count(&frequency, names[t].as_str());
            if current < rarity {
                rarity = current;
            }
            t = t + 1;
        }
        ranked.push(RankedStep { rarity, id });
        o = o + 1;
    }
    ranked
}

/// The number of set flags.
fn count_marks(mark: &Vec<bool>) -> (r: usize)
    ensures
        r == count_true(mark@),
{
    let mut r: usize = 0;
    let mut i: usize = 0;
    while i < mark.len()
        invariant
            i <= mark@.len(),
            r == count_true(mark@.take(i as int)),
            r <= i,
        decreases mark@.len() - i,
    {
        proof {
            assert(mark@.take(i + 1).drop_last() == mark@.take(i as int));
        }
        if mark[i] {
            r = r + 1;
        }
        i = i + 1;
    }
    proof {
        assert(mark@.take(i as int) == mark@);
    }
    r
}

/// The positions of the set flags, in order.
fn collect_marked(mark: &Vec<bool>) -> (r: Vec<usize>)
    ensures
        increasing(r@),
        r@.len() == count_true(mark@),
        forall|k: int| 0 <= k < r@.len() ==> #[trigger] r@[k] < mark@.len() && mark@[r@[k] as int],
        forall|y: int| 0 <= y < mark@.len() && #[trigger] mark@[y] ==> r@.contains(y as usize),
{
    let mut r: Vec<usize> = Vec::new();
    let mut i: usize = 0;
    while i < mark.len()
        invariant
            i <= mark@.len(),
            increasing(r@),
            r@.len() == count_true(mark@.take(i as int)),
            forall|k: int| 0 <= k < r@.len() ==> #[trigger] r@[k] < i && mark@[r@[k] as int],
            forall|y: int| 0 <= y < i && #[trigger] mark@[y] ==> r@.contains(y as usize),
        decreases mark@.len() - i,
    {
        proof {
            assert(mark@.take(i + 1).drop_last() == mark@.take(i as int));
        }
        if mark[i] {
            let ghost before = r@;
            r.push(i);
            proof {
                assert forall|y: int| 0 <= y < i + 1 && #[trigger] mark@[y] implies r@.contains(y as usize) by {
                    if y < i {
                        let k = choose|k: int| 0 <= k < before.len() && before[k] == y as usize;
                        assert(r@[k] == y as usize);
                    } else {
                        assert(r@[before.len() as int] == i);
                    }
                }
            }
        }
        i = i + 1;
    }
    proof {
        assert(mark@.take(i as int) == mark@);
    }
    r
}


proof fn lemma_dependents_use(e: ProofStepExtraction, s: usize, n: int)
    requires
        0 <= n <= e.steps@.len(),
        n <= usize::MAX,
    ensures
        forall|k: int| 0 <= k < dependents_upto(e, s as int, n).len() ==> {
            let d = #[trigger] dependents_upto(e, s as int, n)[k];
            d < n && e.steps@[d as int].prerequisite_steps@.contains(s)
        },
    decreases n,
{
    if n > 0 {
        lemma_dependents_use(e, s, n - 1);
        let d = dependents_upto(e, s as int, n - 1);
        if e.steps@[n - 1].prerequisite_steps@.contains(s) {
            assert(dependents_upto(e, s as int, n) == d.push((n - 1) as usize));
            assert forall|k: int| 0 <= k < dependents_upto(e, s as int, n).len() implies {
                let x = #[trigger] dependents_upto(e, s as int, n)[k];
                x < n && e.steps@[x as int].prerequisite_steps@.contains(s)
            } by {
                if k < d.len() {
                    assert(dependents_upto(e, s as int, n)[k] == d[k]);
                } else {
                    assert(dependents_upto(e, s as int, n)[k] == (n - 1) as usize);
                }
            }
        } else {
            assert(dependents_upto(e, s as int, n) == d);
        }
    }
}

/// A retained step of the outline with the parts of its raw step a reader needs.
#[derive(Clone, Debug)]
pub struct ProofOutlineNode {
    pub raw_step_id: usize,
    pub kind: String,
    pub proposition: String,
    pub context: Vec<ProofContextEntry>,
    pub hypothesis_references: Vec<String>,
    pub named_references: Vec<String>,
}

/// An outline edge standing for the raw paths between two retained steps
/// that cross only omitted steps.
#[derive(Clone, Debug, PartialEq, Eq, PartialOrd, Ord)]
pub struct ProofOutlineEdge {
    pub source: usize,
    pub target: usize,
    /// Number of raw paths represented by this edge.
    pub path_count: usize,
    /// Longest represented path, including both retained endpoints.
    pub maximum_raw_path_length: usize,
    /// One inclusive raw-step path, retained as inspectable evidence.
    pub raw_step_path: Vec<usize>,
}

/// The outline of a proof together with the full raw extraction.
#[derive(Clone, Debug)]
pub struct ProofOutlineEvidence {
    pub algorithm: String,
    pub retention_rules: Vec<String>,
    pub complete: bool,
    pub truncation_reason: Option<String>,
    pub visited_terms: usize,
    pub conclusion_step: Option<usize>,
    pub raw_steps: Vec<ProofStep>,
    pub raw_edges: Vec<ProofStepEdge>,
    /// Nodes matching the semantic retention rules before overview limiting.
    pub candidate_node_count: usize,
    pub retained_nodes: Vec<ProofOutlineNode>,
    pub condensed_edges: Vec<ProofOutlineEdge>,
}

/// `p` follows raw edges, from prerequisite to claim, through at least two steps.
pub open spec fn raw_path(e: ProofStepExtraction, p: Seq<usize>) -> bool {
    &&& p.len() >= 2
    &&& forall|i: int| 0 <= i < p.len() - 1 ==> #[trigger] p[i] < p[i + 1] && p[i + 1] < e.steps@.len()
        && e.steps@[p[i + 1] as int].prerequisite_steps@.contains(p[i])
}

/// The edge joins two retained steps by a raw path whose inner steps are
/// omitted ancestors of the conclusion `c`.
pub open spec fn condensed_edge_ok(e: ProofStepExtraction, c: int, retained: Seq<usize>, edge: ProofOutlineEdge) -> bool {
    let p = edge.raw_step_path@;
    &&& retained.contains(edge.source)
    &&& retained.contains(edge.target)
    &&& raw_path(e, p)
    &&& p[0] == edge.source
    &&& p.last() == edge.target
    &&& forall|i: int| 0 < i < p.len() - 1 ==> !retained.contains(#[trigger] p[i]) && supports(e, c, p[i] as int)
    &&& supports(e, c, edge.target as int)
    &&& edge.path_count >= 1
    &&& edge.maximum_raw_path_length >= 2
}

/// `p` is a raw path from `source` to `t` whose inner steps are omitted
/// ancestors of the conclusion `c`, and `t` is an ancestor of it too.
pub open spec fn omitted_path(e: ProofStepExtraction, c: int, retained: Seq<usize>, source: int, t: int, p: Seq<usize>) -> bool {
    &&& raw_path(e, p)
    &&& p[0] == source
    &&& p.last() == t
    &&& forall|i: int| 0 < i < p.len() - 1 ==> !retained.contains(#[trigger] p[i]) && supports(e, c, p[i] as int)
    &&& supports(e, c, t)
}

/// A path of at least three steps without its last step is a path to the
/// step before, which is omitted.
proof fn lemma_path_prefix(e: ProofStepExtraction, c: int, retained: Seq<usize>, source: int, t: int, p: Seq<usize>)
    requires
        omitted_path(e, c, retained, source, t, p),
        p.len() >= 3,
    ensures
        omitted_path(e, c, retained, source, p[p.len() - 2] as int, p.take(p.len() - 1)),
        !retained.contains(p[p.len() - 2]),
        p.take(p.len() - 1)[p.len() - 3] < p[p.len() - 2],
        p[p.len() - 2] < t,
        e.steps@[t].prerequisite_steps@.contains(p[p.len() - 2]),
{
    let q = p.take(p.len() - 1);
    assert forall|i: int| 0 <= i < q.len() - 1 implies #[trigger] q[i] < q[i + 1] && q[i + 1] < e.steps@.len()
        && e.steps@[q[i + 1] as int].prerequisite_steps@.contains(q[i]) by {
        assert(q[i] == p[i] && q[i + 1] == p[i + 1]);
    }
    assert forall|i: int| 0 < i < q.len() - 1 implies !retained.contains(#[trigger] q[i]) && supports(e, c, q[i] as int) by {
        assert(q[i] == p[i]);
    }
    let m = p.len() - 2;
    assert(0 < m < p.len() - 1);
    assert(!retained.contains(p[m]) && supports(e, c, p[m] as int));
    assert(p[m] < p[m + 1]);
    assert(p[m - 1] < p[m]);
}

/// A path of two steps leads from `source` to one of its dependents.
proof fn lemma_path_short(e: ProofStepExtraction, c: int, retained: Seq<usize>, source: int, t: int, p: Seq<usize>)
    requires
        omitted_path(e, c, retained, source, t, p),
    ensures
        p.len() == 2 <==> p[p.len() - 2] == source,
        p[p.len() - 2] >= source,
        source < t < e.steps@.len(),
        e.steps@[t].prerequisite_steps@.contains(p[p.len() - 2]),
{
    assert forall|i: int| 0 <= i < p.len() implies #[trigger] p[i] >= source && (i > 0 ==> p[i] > source) by {
        if i > 0 {
            lemma_raw_path_increasing(e, p, 0, i);
        }
    }
    let m = p.len() - 2;
    assert(p[m] < p[m + 1]);
}

proof fn lemma_raw_path_increasing(e: ProofStepExtraction, p: Seq<usize>, i: int, j: int)
    requires
        raw_path(e, p),
        0 <= i < j < p.len(),
    ensures
        p[i] < p[j],
        p[j] < e.steps@.len(),
    decreases j - i,
{
    assert(p[j - 1] < p[j]);
    if i < j - 1 {
        lemma_raw_path_increasing(e, p, i, j - 1);
    }
}

/// Every later step that lists `s` as a prerequisite is among its dependents.
proof fn lemma_dependents_complete(e: ProofStepExtraction, s: int, n: int)
    requires
        n <= usize::MAX,
    ensures
        forall|y: int| 0 <= y < n && #[trigger] e.steps@[y].prerequisite_steps@.contains(s as usize)
            ==> dependents_upto(e, s, n).contains(y as usize),
    decreases n,
{
    if n > 0 {
        lemma_dependents_complete(e, s, n - 1);
        let prev = dependents_upto(e, s, n - 1);
        assert forall|y: int| 0 <= y < n && #[trigger] e.steps@[y].prerequisite_steps@.contains(s as usize)
            implies dependents_upto(e, s, n).contains(y as usize) by {
            if y < n - 1 {
                let k = choose|k: int| 0 <= k < prev.len() && prev[k] == y as usize;
                if e.steps@[n - 1].prerequisite_steps@.contains(s as usize) {
                    assert(dependents_upto(e, s, n)[k] == prev[k]);
                }
            } else {
                assert(dependents_upto(e, s, n)[prev.len() as int] == (n - 1) as usize);
            }
        }
    }
}

/// Every step from `current` on that an omitted path reaches from an
/// earlier step is pending.
pub open spec fn pending_covers(e: ProofStepExtraction, c: int, retained: Seq<usize>, source: int, current: int, present: Seq<bool>) -> bool {
    forall|y: int, p: Seq<usize>| current <= y < e.steps@.len() && #[trigger] omitted_path(e, c, retained, source, y, p)
        && p[p.len() - 2] < current ==> present[y]
}

/// Every retained step before `current` that an omitted path reaches has an
/// edge among `edges[from..]`.
pub open spec fn edges_cover(e: ProofStepExtraction, c: int, retained: Seq<usize>, source: int, current: int,
    edges: Seq<ProofOutlineEdge>, from: int) -> bool {
    forall|t: int, p: Seq<usize>| t < current && retained.contains(t as usize) && #[trigger] omitted_path(e, c, retained, source, t, p)
        ==> exists|k: int| from <= k < edges.len() && (#[trigger] edges[k]).target == t
}

/// Once the source's direct dependents that support the conclusion are
/// pending, every step that an omitted path reaches from the source itself
/// is.
proof fn lemma_pending_start(e: ProofStepExtraction, c: int, retained: Seq<usize>, source: int,
    present: Seq<bool>, first: Seq<usize>, ancestor: Seq<bool>)
    requires
        0 <= source < e.steps@.len(),
        forall|y: int| 0 <= y < e.steps@.len() && #[trigger] e.steps@[y].prerequisite_steps@.contains(source as usize)
            ==> first.contains(y as usize),
        forall|j: int| 0 <= j < first.len() && ancestor[first[j] as int] ==> present[#[trigger] first[j] as int],
        ancestor.len() == e.steps@.len(),
        forall|y: int| 0 <= y < ancestor.len() ==> #[trigger] ancestor[y] == supports(e, c, y),
    ensures
        pending_covers(e, c, retained, source, source + 1, present),
{
    assert forall|y: int, p: Seq<usize>| source + 1 <= y < e.steps@.len() && #[trigger] omitted_path(e, c, retained, source, y, p)
        && p[p.len() - 2] < source + 1 implies present[y] by {
        lemma_path_short(e, c, retained, source, y, p);
        assert(p[p.len() - 2] == source as usize);
        assert(first.contains(y as usize));
        let j = choose|j: int| 0 <= j < first.len() && first[j] == y as usize;
        assert(ancestor[first[j] as int]);
    }
}

/// No omitted path from the source ends at or before it.
proof fn lemma_edges_start(e: ProofStepExtraction, c: int, retained: Seq<usize>, source: int, edges: Seq<ProofOutlineEdge>, from: int)
    ensures
        edges_cover(e, c, retained, source, source + 1, edges, from),
{
    assert forall|t: int, p: Seq<usize>| t < source + 1 && retained.contains(t as usize) && #[trigger] omitted_path(e, c, retained, source, t, p)
        implies exists|k: int| from <= k < edges.len() && (#[trigger] edges[k]).target == t by {
        lemma_path_short(e, c, retained, source, t, p);
    }
}

/// With every step handled, every reached retained step has an edge.
proof fn lemma_edges_done(e: ProofStepExtraction, c: int, retained: Seq<usize>, source: int, edges: Seq<ProofOutlineEdge>, from: int)
    requires
        edges_cover(e, c, retained, source, e.steps@.len() as int, edges, from),
    ensures
        forall|t: int, p: Seq<usize>| retained.contains(t as usize) && #[trigger] omitted_path(e, c, retained, source, t, p)
            ==> exists|k: int| from <= k < edges.len() && (#[trigger] edges[k]).target == t,
{
    assert forall|t: int, p: Seq<usize>| retained.contains(t as usize) && #[trigger] omitted_path(e, c, retained, source, t, p)
        implies exists|k: int| from <= k < edges.len() && (#[trigger] edges[k]).target == t by {
        lemma_path_short(e, c, retained, source, t, p);
    }
}

/// Handling step `current` keeps the pending steps covering what omitted
/// paths reach.
proof fn lemma_pending_advance(e: ProofStepExtraction, c: int, retained: Seq<usize>, source: int, current: int,
    before: Seq<bool>, after: Seq<bool>, deps: Seq<usize>)
    requires
        source < current < e.steps@.len(),
        before.len() == e.steps@.len(),
        pending_covers(e, c, retained, source, current, before),
        forall|y: int| 0 <= y < e.steps@.len() && #[trigger] e.steps@[y].prerequisite_steps@.contains(current as usize)
            ==> deps.contains(y as usize),
        forall|y: int| current < y < e.steps@.len() && #[trigger] before[y] ==> after[y],
        before[current] && !retained.contains(current as usize) ==> forall|y: int| current < y < e.steps@.len()
            && #[trigger] deps.contains(y as usize) && supports(e, c, y) ==> after[y],
    ensures
        pending_covers(e, c, retained, source, current + 1, after),
{
    assert forall|y: int, p: Seq<usize>| current + 1 <= y < e.steps@.len() && #[trigger] omitted_path(e, c, retained, source, y, p)
        && p[p.len() - 2] < current + 1 implies after[y] by {
        lemma_path_short(e, c, retained, source, y, p);
        if p[p.len() - 2] == current {
            lemma_path_prefix(e, c, retained, source, y, p);
            let q = p.take(p.len() - 1);
            assert(before[current]);
            assert(deps.contains(y as usize));
        } else {
            assert(before[y]);
        }
    }
}

/// Handling step `current` keeps every reached retained step before it
/// joined by an edge.
proof fn lemma_edges_advance(e: ProofStepExtraction, c: int, retained: Seq<usize>, source: int, current: int,
    before: Seq<bool>, edges0: Seq<ProofOutlineEdge>, edges1: Seq<ProofOutlineEdge>, from: int)
    requires
        source < current < e.steps@.len(),
        0 <= from,
        pending_covers(e, c, retained, source, current, before),
        edges_cover(e, c, retained, source, current, edges0, from),
        edges1.len() >= edges0.len(),
        forall|k: int| 0 <= k < edges0.len() ==> #[trigger] edges1[k] == edges0[k],
        before[current] && retained.contains(current as usize) ==> exists|k: int| from <= k < edges1.len() && (#[trigger] edges1[k]).target == current,
    ensures
        edges_cover(e, c, retained, source, current + 1, edges1, from),
{
    assert forall|t: int, p: Seq<usize>| t < current + 1 && retained.contains(t as usize) && #[trigger] omitted_path(e, c, retained, source, t, p)
        implies exists|k: int| from <= k < edges1.len() && (#[trigger] edges1[k]).target == t by {
        if t < current {
            let k = choose|k: int| from <= k < edges0.len() && (#[trigger] edges0[k]).target == t;
            assert(edges1[k] == edges0[k]);
        } else {
            lemma_path_short(e, c, retained, source, t, p);
            assert(before[current]);
        }
    }
}

/// Edges are ordered by source, then target, each pair once.
pub open spec fn edges_ordered(edges: Seq<ProofOutlineEdge>) -> bool {
    forall|i: int, j: int| 0 <= i < j < edges.len() ==> (#[trigger] edges[i]).source < (#[trigger] edges[j]).source
        || (edges[i].source == edges[j].source && edges[i].target < edges[j].target)
}

/// What a pending summary of the paths from `source` to step `x` holds.
pub open spec fn pending_ok(
    e: ProofStepExtraction,
    c: int,
    retained: Seq<usize>,
    source: int,
    x: int,
    count: usize,
    longest: usize,
    sample: Seq<usize>,
) -> bool {
    &&& source < x
    &&& raw_path(e, sample)
    &&& sample[0] == source
    &&& sample.last() == x
    &&& forall|i: int| 0 < i < sample.len() - 1 ==> !retained.contains(#[trigger] sample[i]) && supports(e, c, sample[i] as int)
    &&& supports(e, c, x)
    &&& count >= 1
    &&& longest >= 2
}

impl<'a> ProofStepGraph<'a> {
    /// Appends the outline edges that leave `source`: paths are followed
    /// forward through omitted ancestors of the conclusion, merging the paths
    /// that meet at a step, and end at the first retained step.
    #[verifier::rlimit(60)]
    fn condense_from(
        &self,
        ancestor: &Vec<bool>,
        retained_mark: &Vec<bool>,
        retained: Ghost<Seq<usize>>,
        conclusion: usize,
        source: usize,
        edges: &mut Vec<ProofOutlineEdge>,
    )
        requires
            source < self.extraction_view().steps@.len(),
            conclusion < self.extraction_view().steps@.len(),
            ancestor@.len() == self.extraction_view().steps@.len(),
            retained_mark@.len() == self.extraction_view().steps@.len(),
            forall|x: int| 0 <= x < ancestor@.len() ==> #[trigger] ancestor@[x] == supports(self.extraction_view(), conclusion as int, x),
            forall|x: int| 0 <= x < retained_mark@.len() ==> #[trigger] retained_mark@[x] == retained@.contains(x as usize),
            retained@.contains(source),
            forall|k: int| 0 <= k < old(edges)@.len() ==> condensed_edge_ok(self.extraction_view(), conclusion as int, retained@, #[trigger] old(edges)@[k]),
            edges_ordered(old(edges)@),
            forall|k: int| 0 <= k < old(edges)@.len() ==> (#[trigger] old(edges)@[k]).source < source,
        ensures
            forall|k: int| 0 <= k < final(edges)@.len() ==> condensed_edge_ok(self.extraction_view(), conclusion as int, retained@, #[trigger] final(edges)@[k]),
            edges_ordered(final(edges)@),
            forall|k: int| 0 <= k < final(edges)@.len() ==> (#[trigger] final(edges)@[k]).source <= source,
            final(edges)@.len() >= old(edges)@.len(),
            forall|k: int| 0 <= k < old(edges)@.len() ==> #[trigger] final(edges)@[k] == old(edges)@[k],
            forall|k: int| old(edges)@.len() <= k < final(edges)@.len() ==> (#[trigger] final(edges)@[k]).source == source,
            forall|t: int, p: Seq<usize>| retained@.contains(t as usize)
                && #[trigger] omitted_path(self.extraction_view(), conclusion as int, retained@, source as int, t, p)
                ==> exists|k: int| old(edges)@.len() <= k < final(edges)@.len() && (#[trigger] final(edges)@[k]).target == t,
    {
        proof {
            use_type_invariant(self);
        }
        let ghost e = *self.extraction;
        let ghost c = conclusion as int;
        let n = self.dependents.len();
        let mut present: Vec<bool> = Vec::new();
        let mut counts: Vec<usize> = Vec::new();
        let mut longest: Vec<usize> = Vec::new();
        let mut samples: Vec<Vec<usize>> = Vec::new();
        let mut x: usize = 0;
        while x < n
            invariant
                x <= n,
                present@.len() == x,
                counts@.len() == x,
                longest@.len() == x,
                samples@.len() == x,
                forall|y: int| 0 <= y < x ==> !#[trigger] present@[y],
            decreases n - x,
        {
            present.push(false);
            counts.push(0);
            longest.push(0);
            samples.push(Vec::new());
            x = x + 1;
        }
        let ghost e0 = edges@;
        proof {
            lemma_dependents_use(e, source, n as int);
            lemma_dependents_later(e, source, n as int);
        }
        let first = &self.dependents[source];
        let mut k: usize = 0;
        while k < first.len()
            invariant
                e == *self.extraction,
                n == e.steps@.len(),
                first@ == step_dependents(e, source as int),
                forall|j: int| 0 <= j < first@.len() ==> source < #[trigger] first@[j] < n
                    && e.steps@[first@[j] as int].prerequisite_steps@.contains(source),
                ancestor@.len() == n,
                forall|y: int| 0 <= y < ancestor@.len() ==> #[trigger] ancestor@[y] == supports(e, c, y),
                k <= first@.len(),
                present@.len() == n,
                counts@.len() == n,
                longest@.len() == n,
                samples@.len() == n,
                forall|y: int| 0 <= y < n && #[trigger] present@[y] ==> pending_ok(e, c, retained@, source as int, y, counts@[y], longest@[y], samples@[y]@),
                forall|j: int| 0 <= j < k && ancestor@[first@[j] as int] ==> present@[#[trigger] first@[j] as int],
            decreases first@.len() - k,
        {
            let next = first[k];
            if ancestor[next] {
                present.set(next, true);
                counts.set(next, 1);
                longest.set(next, 2);
                let mut sample: Vec<usize> = Vec::new();
                sample.push(source);
                sample.push(next);
                samples.set(next, sample);
                proof {
                    let p = samples@[next as int]@;
                    assert(p == seq![source, next]);
                    assert(raw_path(e, p));
                }
            }
            k = k + 1;
        }
        proof {
            assert(e.steps@.len() == e.steps.len());
            lemma_dependents_complete(e, source as int, n as int);
            lemma_pending_start(e, c, retained@, source as int, present@, first@, ancestor@);
            lemma_edges_start(e, c, retained@, source as int, edges@, e0.len() as int);
        }
        let mut current: usize = source + 1;
        while current < n
            invariant
                e == *self.extraction,
                n == e.steps@.len(),
                n == self.dependents@.len(),
                forall|s: int| 0 <= s < n ==> (#[trigger] self.dependents@[s])@ == step_dependents(e, s),
                proof_steps_valid(e),
                source < current <= n,
                ancestor@.len() == n,
                retained_mark@.len() == n,
                forall|y: int| 0 <= y < n ==> #[trigger] ancestor@[y] == supports(e, c, y),
                forall|y: int| 0 <= y < n ==> #[trigger] retained_mark@[y] == retained@.contains(y as usize),
                present@.len() == n,
                counts@.len() == n,
                longest@.len() == n,
                samples@.len() == n,
                forall|y: int| 0 <= y < n && #[trigger] present@[y] ==> current <= y
                    && pending_ok(e, c, retained@, source as int, y, counts@[y], longest@[y], samples@[y]@),
                retained@.contains(source),
                forall|j: int| 0 <= j < edges@.len() ==> condensed_edge_ok(e, c, retained@, #[trigger] edges@[j]),
                edges_ordered(edges@),
                forall|j: int| 0 <= j < edges@.len() ==> (#[trigger] edges@[j]).source < source
                    || (edges@[j].source == source && edges@[j].target < current),
                edges@.len() >= e0.len(),
                forall|k: int| 0 <= k < e0.len() ==> #[trigger] edges@[k] == e0[k],
                forall|k: int| e0.len() <= k < edges@.len() ==> (#[trigger] edges@[k]).source == source,
                pending_covers(e, c, retained@, source as int, current as int, present@),
                edges_cover(e, c, retained@, source as int, current as int, edges@, e0.len() as int),
            decreases n - current,
        {
            let ghost pres0 = present@;
            let ghost edges0 = edges@;
            proof {
                assert(e.steps@.len() == e.steps.len());
                lemma_dependents_complete(e, current as int, n as int);
            }
            if present[current] {
                present.set(current, false);
                let count = counts[current];
                let long = longest[current];
                let sample = copy_indices(&samples[current]);
                if retained_mark[current] {
                    let edge = ProofOutlineEdge {
                        source,
                        target: current,
                        path_count: count,
                        maximum_raw_path_length: long,
                        raw_step_path: sample,
                    };
                    proof {
                        assert(condensed_edge_ok(e, c, retained@, edge));
                    }
                    edges.push(edge);
                    proof {
                        assert forall|i: int, j: int| 0 <= i < j < edges@.len() implies (#[trigger] edges@[i]).source < (#[trigger] edges@[j]).source
                            || (edges@[i].source == edges@[j].source && edges@[i].target < edges@[j].target) by {
                            if j == edges@.len() - 1 {
                            }
                        }
                        assert(edges@[edges0.len() as int].target == current);
                    }
                } else {
                    proof {
                        lemma_dependents_use(e, current, n as int);
                        lemma_dependents_later(e, current, n as int);
                    }
                    let ghost pres1 = present@;
                    let ghost c1 = counts@;
                    let ghost l1 = longest@;
                    let ghost s1 = samples@;
                    spread_paths(
                        &self.dependents[current], ancestor, Ghost(e), Ghost(c), retained, source, current,
                        count, long, &sample, &mut present, &mut counts, &mut longest, &mut samples,
                    );
                    proof {
                        let deps = self.dependents@[current as int]@;
                        assert forall|y: int| 0 <= y < n implies (#[trigger] present@[y]) == (pres1[y] || (deps.contains(y as usize) && ancestor@[y])) by {
                            assert(spread_entry(deps.contains(y as usize), ancestor@[y], count, long, sample@, y,
                                pres1[y], c1[y], l1[y], s1[y]@, present@[y], counts@[y], longest@[y], samples@[y]@));
                        }
                    }
                }
            }
            proof {
                let deps = self.dependents@[current as int]@;
                assert forall|y: int| current < y < n && #[trigger] pres0[y] implies present@[y] by {}
                assert(pres0[current as int] && !retained@.contains(current) ==> forall|y: int| current < y < e.steps@.len()
                    && #[trigger] deps.contains(y as usize) && supports(e, c, y) ==> present@[y]);
                lemma_pending_advance(e, c, retained@, source as int, current as int, pres0, present@, deps);
                lemma_edges_advance(e, c, retained@, source as int, current as int, pres0, edges0, edges@, e0.len() as int);
            }
            current = current + 1;
        }
        proof {
            lemma_edges_done(e, c, retained@, source as int, edges@, e0.len() as int);
        }
    }
}


proof fn lemma_extend_pending(
    e: ProofStepExtraction,
    c: int,
    retained: Seq<usize>,
    source: int,
    current: usize,
    count: usize,
    long: usize,
    sample: Seq<usize>,
    next: usize,
    added: usize,
)
    requires
        pending_ok(e, c, retained, source, current as int, count, long, sample),
        !retained.contains(current),
        current < next < e.steps@.len(),
        e.steps@[next as int].prerequisite_steps@.contains(current),
        supports(e, c, next as int),
        added >= long,
    ensures
        pending_ok(e, c, retained, source, next as int, count, added, sample.push(next)),
{
    let p = sample.push(next);
    assert forall|i: int| 0 <= i < p.len() - 1 implies #[trigger] p[i] < p[i + 1] && p[i + 1] < e.steps@.len()
        && e.steps@[p[i + 1] as int].prerequisite_steps@.contains(p[i]) by {
        if i < p.len() - 2 {
            assert(p[i] == sample[i] && p[i + 1] == sample[i + 1]);
        } else {
            assert(p[i] == current);
        }
    }
    assert forall|i: int| 0 < i < p.len() - 1 implies !retained.contains(#[trigger] p[i]) && supports(e, c, p[i] as int) by {
        if i < p.len() - 2 {
            assert(p[i] == sample[i]);
        } else {
            assert(p[i] == current);
        }
    }
}

/// One more edge on a path of `long` edges, capped at the largest word.
spec fn one_longer(long: usize) -> usize {
    if long < usize::MAX { (long + 1) as usize } else { long }
}

/// What spreading paths does to one step's entry: a step that the current
/// step reaches and that supports the conclusion gains the current
/// paths, merged into what it had or as its first paths; any other step
/// keeps its entry.
spec fn spread_entry(reached: bool, supporting: bool, count: usize, long: usize, sample: Seq<usize>, y: int,
    p0: bool, c0: usize, l0: usize, s0: Seq<usize>, p1: bool, c1: usize, l1: usize, s1: Seq<usize>) -> bool {
    if !(reached && supporting) {
        p1 == p0 && c1 == c0 && l1 == l0 && s1 == s0
    } else if p0 {
        p1 && c1 == crate::analysis::dependency::saturating_sum(c0, count)
            && l1 == (if l0 < one_longer(long) { one_longer(long) } else { l0 }) && s1 == s0
    } else {
        p1 && c1 == count && l1 == one_longer(long) && s1 == sample.push(y as usize)
    }
}

/// The dependents of step `s` among the first `n` steps come in increasing
/// order, each below `n`.
proof fn lemma_dependents_increasing(e: ProofStepExtraction, s: int, n: int)
    requires
        n <= usize::MAX,
    ensures
        increasing(dependents_upto(e, s, n)),
        forall|i: int| 0 <= i < dependents_upto(e, s, n).len() ==> #[trigger] dependents_upto(e, s, n)[i] < n,
    decreases n,
{
    if n > 0 {
        lemma_dependents_increasing(e, s, n - 1);
        let prev = dependents_upto(e, s, n - 1);
        if e.steps@[n - 1].prerequisite_steps@.contains(s as usize) {
            let cur = prev.push((n - 1) as usize);
            assert(cur == dependents_upto(e, s, n));
            assert forall|i: int, j: int| 0 <= i < j < cur.len() implies #[trigger] cur[i] < #[trigger] cur[j] by {
                assert(cur[i] == prev[i]);
                if j < prev.len() {
                    assert(cur[j] == prev[j]);
                }
            }
            assert forall|i: int| 0 <= i < cur.len() implies #[trigger] cur[i] < n by {
                if i < prev.len() {
                    assert(cur[i] == prev[i]);
                }
            }
        }
    }
}

/// Carries the paths that reach `current` on to each of its dependents that
/// is an ancestor of the conclusion, merging with the paths already there.
#[verifier::rlimit(40)]
fn spread_paths(
    next_steps: &Vec<usize>,
    ancestor: &Vec<bool>,
    e: Ghost<ProofStepExtraction>,
    c: Ghost<int>,
    retained: Ghost<Seq<usize>>,
    source: usize,
    current: usize,
    count: usize,
    long: usize,
    sample: &Vec<usize>,
    present: &mut Vec<bool>,
    counts: &mut Vec<usize>,
    longest: &mut Vec<usize>,
    samples: &mut Vec<Vec<usize>>,
)
    requires
        next_steps@ == step_dependents(e@, current as int),
        forall|j: int| 0 <= j < next_steps@.len() ==> current < #[trigger] next_steps@[j] < e@.steps@.len()
            && e@.steps@[next_steps@[j] as int].prerequisite_steps@.contains(current),
        source < current < e@.steps@.len(),
        !retained@.contains(current),
        pending_ok(e@, c@, retained@, source as int, current as int, count, long, sample@),
        ancestor@.len() == e@.steps@.len(),
        forall|y: int| 0 <= y < ancestor@.len() ==> #[trigger] ancestor@[y] == supports(e@, c@, y),
        old(present)@.len() == e@.steps@.len(),
        old(counts)@.len() == e@.steps@.len(),
        old(longest)@.len() == e@.steps@.len(),
        old(samples)@.len() == e@.steps@.len(),
        forall|y: int| 0 <= y < old(present)@.len() && #[trigger] old(present)@[y] ==> current < y
            && pending_ok(e@, c@, retained@, source as int, y, old(counts)@[y], old(longest)@[y], old(samples)@[y]@),
    ensures
        final(present)@.len() == e@.steps@.len(),
        final(counts)@.len() == e@.steps@.len(),
        final(longest)@.len() == e@.steps@.len(),
        final(samples)@.len() == e@.steps@.len(),
        forall|y: int| 0 <= y < final(present)@.len() && #[trigger] final(present)@[y] ==> current < y
            && pending_ok(e@, c@, retained@, source as int, y, final(counts)@[y], final(longest)@[y], final(samples)@[y]@),
        forall|y: int| 0 <= y < e@.steps@.len() ==> #[trigger] spread_entry(next_steps@.contains(y as usize), ancestor@[y], count, long, sample@, y,
            old(present)@[y], old(counts)@[y], old(longest)@[y], old(samples)@[y]@,
            final(present)@[y], final(counts)@[y], final(longest)@[y], final(samples)@[y]@),
{
    let n = present.len();
    let ghost p0 = present@;
    let ghost c0 = counts@;
    let ghost l0 = longest@;
    let ghost s0 = samples@;
    proof {
        assert(e@.steps@.len() == e@.steps.len());
        lemma_dependents_increasing(e@, current as int, e@.steps@.len() as int);
    }
    let mut k: usize = 0;
    while k < next_steps.len()
        invariant
            n == e@.steps@.len(),
            forall|j: int| 0 <= j < next_steps@.len() ==> current < #[trigger] next_steps@[j] < n
                && e@.steps@[next_steps@[j] as int].prerequisite_steps@.contains(current),
            source < current < n,
            !retained@.contains(current),
            pending_ok(e@, c@, retained@, source as int, current as int, count, long, sample@),
            ancestor@.len() == n,
            forall|y: int| 0 <= y < n ==> #[trigger] ancestor@[y] == supports(e@, c@, y),
            present@.len() == n,
            counts@.len() == n,
            longest@.len() == n,
            samples@.len() == n,
            forall|y: int| 0 <= y < n && #[trigger] present@[y] ==> current < y
                && pending_ok(e@, c@, retained@, source as int, y, counts@[y], longest@[y], samples@[y]@),
            k <= next_steps@.len(),
            increasing(next_steps@),
            p0.len() == n && c0.len() == n && l0.len() == n && s0.len() == n,
            forall|y: int| 0 <= y < n ==> #[trigger] spread_entry(next_steps@.take(k as int).contains(y as usize), ancestor@[y], count, long, sample@, y,
                p0[y], c0[y], l0[y], s0[y]@, present@[y], counts@[y], longest@[y], samples@[y]@),
        decreases next_steps@.len() - k,
    {
        let ghost pk = present@;
        let ghost ck = counts@;
        let ghost lk = longest@;
        let ghost sk = samples@;
        let next = next_steps[k];
        proof {
            assert(!next_steps@.take(k as int).contains(next)) by {
                if next_steps@.take(k as int).contains(next) {
                    let j = choose|j: int| 0 <= j < k && next_steps@.take(k as int)[j] == next;
                    assert(next_steps@[j] < next_steps@[k as int]);
                }
            }
            assert forall|y: int| 0 <= y < n && y != next as int implies
                (#[trigger] next_steps@.take(k + 1).contains(y as usize)) == next_steps@.take(k as int).contains(y as usize) by {
                assert(next_steps@.take(k + 1) =~= next_steps@.take(k as int).push(next));
            }
            assert(next_steps@.take(k + 1) =~= next_steps@.take(k as int).push(next));
            assert(next_steps@.take(k + 1)[k as int] == next);
            assert(next_steps@.take(k + 1).contains(next));
        }
        if ancestor[next] {
            let added = if long < usize::MAX { long + 1 } else { long };
            if present[next] {
                let merged = if counts[next] <= usize::MAX - count { counts[next] + count } else { usize::MAX };
                counts.set(next, merged);
                if longest[next] < added {
                    longest.set(next, added);
                }
            } else {
                let mut extended = copy_indices(sample);
                extended.push(next);
                proof {
                    lemma_extend_pending(e@, c@, retained@, source as int, current, count, long, sample@, next, added);
                }
                present.set(next, true);
                counts.set(next, count);
                longest.set(next, added);
                samples.set(next, extended);
            }
        }
        proof {
            assert forall|y: int| 0 <= y < n implies #[trigger] spread_entry(next_steps@.take(k + 1).contains(y as usize), ancestor@[y], count, long, sample@, y,
                p0[y], c0[y], l0[y], s0[y]@, present@[y], counts@[y], longest@[y], samples@[y]@) by {
                assert(spread_entry(next_steps@.take(k as int).contains(y as usize), ancestor@[y], count, long, sample@, y,
                    p0[y], c0[y], l0[y], s0[y]@, pk[y], ck[y], lk[y], sk[y]@));
                if y != next as int {
                    assert(present@[y] == pk[y] && counts@[y] == ck[y] && longest@[y] == lk[y] && samples@[y] == sk[y]);
                }
            }
        }
        k = k + 1;
    }
    proof {
        assert(next_steps@.take(k as int) =~= next_steps@);
    }
}


/// The retained node carries its raw step's id, kind, proposition and references.
pub open spec fn node_describes(e: ProofStepExtraction, node: ProofOutlineNode) -> bool {
    let step = e.steps@[node.raw_step_id as int];
    &&& node.raw_step_id < e.steps@.len()
    &&& node.kind@ == step.kind@
    &&& node.proposition@ == step.proposition@
    &&& texts_view(node.hypothesis_references@) == texts_view(step.hypothesis_references@)
    &&& texts_view(node.named_references@) == texts_view(step.named_references@)
}

/// The ids of the retained nodes, in order.
pub open spec fn retained_ids(o: ProofOutlineEvidence) -> Seq<usize> {
    o.retained_nodes@.map_values(|node: ProofOutlineNode| node.raw_step_id)
}

/// What the outline of a valid extraction reports: the extraction's status
/// and raw edges, the candidates of the retention rules, the retained
/// landmarks, and condensed edges that stand for raw paths.
pub open spec fn outline_reports(e: ProofStepExtraction, o: ProofOutlineEvidence) -> bool {
    let ids = retained_ids(o);
    &&& o.algorithm@ == "conservative proof-step path contraction"@
    &&& o.retention_rules@.len() == 4
    &&& o.complete == e.complete
    &&& opt_view(&o.truncation_reason) == opt_view(&e.truncation_reason)
    &&& o.visited_terms == e.visited_terms
    &&& o.conclusion_step == e.conclusion_step
    &&& o.raw_steps@.len() == e.steps@.len()
    &&& forall|i: int| 0 <= i < e.steps@.len() ==> same_step(#[trigger] o.raw_steps@[i], e.steps@[i])
    &&& o.raw_edges@ == edges_upto(e, e.steps@.len() as int)
    &&& if e.conclusion_step is Some && e.conclusion_step->0 < e.steps@.len() {
        let c = e.conclusion_step->0;
        let cands = outline_candidates(e, c as int, e.steps@.len() as int);
        &&& o.candidate_node_count == cands.len()
        &&& (cands.len() <= MAX_OUTLINE_NODES ==> ids == cands)
        &&& ids.len() <= MAX_OUTLINE_NODES
        &&& (cands.len() > MAX_OUTLINE_NODES ==> ids.len() == MAX_OUTLINE_NODES)
        &&& increasing(ids)
        &&& forall|k: int| 0 <= k < ids.len() ==> cands.contains(#[trigger] ids[k])
        &&& ids.contains(c)
        &&& (landmarks(e, cands, c as int).len() < MAX_OUTLINE_NODES - 1 ==> forall|k: int|
            0 <= k < landmarks(e, cands, c as int).len() ==> ids.contains(#[trigger] landmarks(e, cands, c as int)[k]))
        &&& forall|k: int| 0 <= k < o.retained_nodes@.len() ==> node_describes(e, #[trigger] o.retained_nodes@[k])
        &&& forall|k: int| 0 <= k < o.condensed_edges@.len() ==> condensed_edge_ok(e, c as int, ids, #[trigger] o.condensed_edges@[k])
        &&& edges_ordered(o.condensed_edges@)
        &&& forall|a: int, t: int, p: Seq<usize>| ids.contains(a as usize) && ids.contains(t as usize)
            && #[trigger] omitted_path(e, c as int, ids, a, t, p)
            ==> exists|k: int| 0 <= k < o.condensed_edges@.len() && (#[trigger] o.condensed_edges@[k]).source == a
                && o.condensed_edges@[k].target == t
    } else {
        &&& o.candidate_node_count == 0
        &&& o.retained_nodes@.len() == 0
        &&& o.condensed_edges@.len() == 0
    }
}

/// The step has a reference worth a landmark.
fn has_meaningful_reference(step: &ProofStep) -> (r: bool)
    ensures
        r == exists|k: int| 0 <= k < step.named_references@.len() && meaningful_reference(#[trigger] step.named_references@[k]@),
{
    let mut k: usize = 0;
    while k < step.named_references.len()
        invariant
            k <= step.named_references@.len(),
            forall|j: int| 0 <= j < k ==> !meaningful_reference(#[trigger] step.named_references@[j]@),
        decreases step.named_references@.len() - k,
    {
        if meaningful_named_reference(step.named_references[k].as_str()) {
            return true;
        }
        k = k + 1;
    }
    false
}

/// An outline that keeps nothing but the extraction's status and raw edges.
fn empty_outline(extraction: &ProofStepExtraction, raw_edges: Vec<ProofStepEdge>) -> (o: ProofOutlineEvidence)
    ensures
        o.algorithm@ == "conservative proof-step path contraction"@,
        o.retention_rules@.len() == 4,
        o.complete == extraction.complete,
        opt_view(&o.truncation_reason) == opt_view(&extraction.truncation_reason),
        o.visited_terms == extraction.visited_terms,
        o.conclusion_step == extraction.conclusion_step,
        o.raw_steps@.len() == extraction.steps@.len(),
        forall|i: int| 0 <= i < extraction.steps@.len() ==> same_step(#[trigger] o.raw_steps@[i], extraction.steps@[i]),
        o.raw_edges@ == raw_edges@,
        o.candidate_node_count == 0,
        o.retained_nodes@.len() == 0,
        o.condensed_edges@.len() == 0,
{
    ProofOutlineEvidence {
        algorithm: text_from("conservative proof-step path contraction"),
        retention_rules: proof_outline_retention_rules(),
        complete: extraction.complete,
        truncation_reason: copy_opt_text(&extraction.truncation_reason),
        visited_terms: extraction.visited_terms,
        conclusion_step: extraction.conclusion_step,
        raw_steps: copy_steps(&extraction.steps),
        raw_edges,
        candidate_node_count: 0,
        retained_nodes: Vec::new(),
        condensed_edges: Vec::new(),
    }
}

/// Conservatively removes anonymous plumbing while retaining the conclusion,
/// local facts, branch conclusions, and non-plumbing named applications that
/// can reach the conclusion. Each replacement edge carries a complete raw
/// step path, and the full uncontracted extraction remains in the evidence.
pub fn build_proof_outline(extraction: &ProofStepExtraction) -> (r: Result<ProofOutlineEvidence, SieveError>)
    ensures
        r is Ok <==> proof_steps_valid(*extraction),
        r matches Ok(o) ==> outline_reports(*extraction, o),
{
    let graph = match ProofStepGraph::new(extraction) {
        Ok(g) => g,
        Err(e) => {
            return Err(e);
        },
    };
    let raw_edges = graph.edges();
    let steps = &extraction.steps;
    let n = steps.len();
    let conclusion = match extraction.conclusion_step {
        Some(c) => c,
        None => {
            return Ok(empty_outline(extraction, raw_edges));
        },
    };
    if conclusion >= n {
        return Ok(empty_outline(extraction, raw_edges));
    }
    let ghost e = *extraction;
    let ghost c = conclusion as int;
    let support = graph.support_marks(conclusion);
    let mut ancestor: Vec<bool> = Vec::new();
    let mut candidates: Vec<usize> = Vec::new();
    let mut x: usize = 0;
    while x < n
        invariant
            e == *extraction,
            c == conclusion as int,
            steps == extraction.steps,
            n == steps@.len(),
            conclusion < n,
            support@.len() == conclusion + 1,
            forall|z: int| 0 <= z <= conclusion ==> #[trigger] support@[z] == supports(e, c, z),
            x <= n,
            ancestor@.len() == x,
            forall|z: int| 0 <= z < x ==> #[trigger] ancestor@[z] == supports(e, c, z),
            candidates@ == outline_candidates(e, c, x as int),
            forall|k: int| 0 <= k < candidates@.len() ==> #[trigger] candidates@[k] < x,
            increasing(candidates@),
        decreases n - x,
    {
        let is_ancestor = x <= conclusion && support[x];
        proof {
            if x > conclusion {
                assert(!supports(e, c, x as int));
            }
        }
        ancestor.push(is_ancestor);
        if is_ancestor {
            let step = &steps[x];
            let kind = step.kind.as_str();
            let keep = x == conclusion || text_eq(kind, "localFact") || text_eq(kind, "branchConclusion")
                || (text_eq(kind, "namedApplication") && has_meaningful_reference(step));
            if keep {
                candidates.push(x);
            }
        }
        x = x + 1;
    }
    proof {
        assert(outline_candidate(e, c, c));
        assert(candidates@.contains(conclusion)) by {
            lemma_candidates_contain(e, c, n as int, c);
        }
    }
    let candidate_node_count = candidates.len();
    let retained = select_outline_nodes(extraction, &candidates, conclusion);
    let mut retained_mark: Vec<bool> = Vec::new();
    let mut x: usize = 0;
    while x < n
        invariant
            x <= n,
            retained_mark@.len() == x,
            forall|z: int| 0 <= z < x ==> #[trigger] retained_mark@[z] == retained@.contains(z as usize),
        decreases n - x,
    {
        retained_mark.push(contains_index(&retained, x));
        x = x + 1;
    }
    let mut retained_nodes: Vec<ProofOutlineNode> = Vec::new();
    let mut k: usize = 0;
    while k < retained.len()
        invariant
            e == *extraction,
            c == conclusion as int,
            steps == extraction.steps,
            n == steps@.len(),
            forall|j: int| 0 <= j < retained@.len() ==> candidates@.contains(#[trigger] retained@[j]),
            forall|j: int| 0 <= j < candidates@.len() ==> #[trigger] candidates@[j] < n,
            k <= retained@.len(),
            retained_nodes@.len() == k,
            forall|j: int| 0 <= j < k ==> (#[trigger] retained_nodes@[j]).raw_step_id == retained@[j]
                && node_describes(e, retained_nodes@[j]),
        decreases retained@.len() - k,
    {
        let id = retained[k];
        proof {
            let a = choose|a: int| 0 <= a < candidates@.len() && candidates@[a] == id;
            assert(candidates@[a] < n);
        }
        let step = &steps[id];
        retained_nodes.push(ProofOutlineNode {
            raw_step_id: id,
            kind: copy_text(&step.kind),
            proposition: copy_text(&step.proposition),
            context: step.context.clone(),
            hypothesis_references: copy_texts(&step.hypothesis_references),
            named_references: copy_texts(&step.named_references),
        });
        k = k + 1;
    }
    let mut condensed_edges: Vec<ProofOutlineEdge> = Vec::new();
    let mut k: usize = 0;
    while k < retained.len()
        invariant
            e == *extraction,
            c == conclusion as int,
            graph.extraction_view() == e,
            n == e.steps@.len(),
            conclusion < n,
            ancestor@.len() == n,
            retained_mark@.len() == n,
            forall|z: int| 0 <= z < n ==> #[trigger] ancestor@[z] == supports(e, c, z),
            forall|z: int| 0 <= z < n ==> #[trigger] retained_mark@[z] == retained@.contains(z as usize),
            increasing(retained@),
            forall|j: int| 0 <= j < retained@.len() ==> candidates@.contains(#[trigger] retained@[j]),
            forall|j: int| 0 <= j < candidates@.len() ==> #[trigger] candidates@[j] < n,
            k <= retained@.len(),
            forall|j: int| 0 <= j < condensed_edges@.len() ==> condensed_edge_ok(e, c, retained@, #[trigger] condensed_edges@[j]),
            edges_ordered(condensed_edges@),
            forall|j: int| 0 <= j < condensed_edges@.len() ==> k > 0 && (#[trigger] condensed_edges@[j]).source <= retained@[k - 1],
            forall|i: int, t: int, p: Seq<usize>| 0 <= i < k && retained@.contains(t as usize)
                && #[trigger] omitted_path(e, c, retained@, retained@[i] as int, t, p)
                ==> exists|j: int| 0 <= j < condensed_edges@.len() && (#[trigger] condensed_edges@[j]).source == retained@[i]
                    && condensed_edges@[j].target == t,
        decreases retained@.len() - k,
    {
        let ghost before = condensed_edges@;
        let source = retained[k];
        proof {
            let a = choose|a: int| 0 <= a < candidates@.len() && candidates@[a] == source;
            assert(candidates@[a] < n);
            assert(retained@.contains(source)) by {
                assert(retained@[k as int] == source);
            }
            if k > 0 {
                assert(retained@[k - 1] < retained@[k as int]);
            }
        }
        graph.condense_from(&ancestor, &retained_mark, Ghost(retained@), conclusion, source, &mut condensed_edges);
        proof {
            assert forall|i: int, t: int, p: Seq<usize>| 0 <= i < k + 1 && retained@.contains(t as usize)
                && #[trigger] omitted_path(e, c, retained@, retained@[i] as int, t, p)
                implies exists|j: int| 0 <= j < condensed_edges@.len() && (#[trigger] condensed_edges@[j]).source == retained@[i]
                    && condensed_edges@[j].target == t by {
                if i < k {
                    let j = choose|j: int| 0 <= j < before.len() && (#[trigger] before[j]).source == retained@[i] && before[j].target == t;
                    assert(condensed_edges@[j] == before[j]);
                } else {
                    let j = choose|j: int| before.len() <= j < condensed_edges@.len() && (#[trigger] condensed_edges@[j]).target == t;
                    assert(condensed_edges@[j].source == source);
                }
            }
        }
        k = k + 1;
    }
    let o = ProofOutlineEvidence {
        algorithm: text_from("conservative proof-step path contraction"),
        retention_rules: proof_outline_retention_rules(),
        complete: extraction.complete,
        truncation_reason: copy_opt_text(&extraction.truncation_reason),
        visited_terms: extraction.visited_terms,
        conclusion_step: extraction.conclusion_step,
        raw_steps: copy_steps(&extraction.steps),
        raw_edges,
        candidate_node_count,
        retained_nodes,
        condensed_edges,
    };
    proof {
        assert(retained_ids(o) =~= retained@);
        assert forall|a: int, t: int, p: Seq<usize>| retained@.contains(a as usize) && retained@.contains(t as usize)
            && #[trigger] omitted_path(e, c, retained@, a, t, p)
            implies exists|j: int| 0 <= j < condensed_edges@.len() && (#[trigger] condensed_edges@[j]).source == a
                && condensed_edges@[j].target == t by {
            let i = choose|i: int| 0 <= i < retained@.len() && retained@[i] == a as usize;
            lemma_path_short(e, c, retained@, a, t, p);
            assert(retained@[i] as int == a);
            assert(omitted_path(e, c, retained@, retained@[i] as int, t, p));
        }
    }
    Ok(o)
}

proof fn lemma_candidates_contain(e: ProofStepExtraction, c: int, n: int, x: int)
    requires
        0 <= x < n,
        outline_candidate(e, c, x),
    ensures
        outline_candidates(e, c, n).contains(x as usize),
    decreases n,
{
    if x < n - 1 {
        lemma_candidates_contain(e, c, n - 1, x);
        let s = outline_candidates(e, c, n - 1);
        let k = choose|k: int| 0 <= k < s.len() && s[k] == x as usize;
        if outline_candidate(e, c, n - 1) {
            assert(outline_candidates(e, c, n)[k] == x as usize);
        }
    } else {
        let s = outline_candidates(e, c, n - 1);
        assert(outline_candidates(e, c, n)[s.len() as int] == x as usize);
    }
}

/// Whether a list of step ids holds `x`.
fn contains_index(v: &Vec<usize>, x: usize) -> (r: bool)
    ensures
        r == v@.contains(x),
{
    let mut k: usize = 0;
    while k < v.len()
        invariant
            k <= v@.len(),
            forall|j: int| 0 <= j < k ==> v@[j] != x,
        decreases v@.len() - k,
    {
        if v[k] == x {
            return true;
        }
        k = k + 1;
    }
    false
}


/// Everything the graph knows about one step.
#[derive(Clone, Debug)]
pub struct StepInspection {
    pub step: usize,
    pub direct_prerequisites: Vec<usize>,
    pub transitive_prerequisites: Vec<usize>,
    pub direct_dependents: Vec<usize>,
    pub paths_to_conclusion: Vec<Vec<usize>>,
    pub paths_truncated: bool,
}

/// The inspection describes step `step` of `e`, with at most `maximum` routes.
pub open spec fn inspection_reports(e: ProofStepExtraction, step: int, maximum: int, i: StepInspection) -> bool {
    &&& i.step == step
    &&& i.direct_prerequisites@ == e.steps@[step].prerequisite_steps@
    &&& i.transitive_prerequisites@ == support_below(e, step, step)
    &&& i.direct_dependents@ == step_dependents(e, step)
    &&& match e.conclusion_step {
        Some(c) => collected(Seq::empty(), lists_view(i.paths_to_conclusion@), i.paths_truncated, routes(e, step, c as int), maximum),
        None => i.paths_to_conclusion@.len() == 0 && !i.paths_truncated,
    }
}

/// The proof-step report of one declaration, borrowing from its extraction.
#[derive(Clone, Debug)]
pub struct ProofStepsReport<'a> {
    pub declaration: &'a str,
    pub complete: bool,
    pub truncation_reason: Option<&'a str>,
    pub visited_terms: usize,
    pub conclusion_step: Option<usize>,
    pub steps: &'a [ProofStep],
    pub named_results: &'a [NamedResultSnapshot],
    pub edges: Vec<ProofStepEdge>,
    pub selected: Option<StepInspection>,
}

/// The number of routes a report lists for a selected step.
pub const REPORT_MAXIMUM_PATHS: usize = 100;

impl<'a> ProofStepGraph<'a> {
    /// The step's prerequisites, ancestors, dependents and routes to the
    /// conclusion, where the step exists.
    pub fn inspect(&self, step: usize, maximum_paths: usize) -> (r: Option<StepInspection>)
        ensures
            match r {
                Some(i) => step < self.extraction_view().steps@.len()
                    && inspection_reports(self.extraction_view(), step as int, maximum_paths as int, i),
                None => step >= self.extraction_view().steps@.len(),
            },
    {
        let direct_prerequisites = match self.direct_prerequisites(step) {
            Some(p) => vstd::slice::slice_to_vec(p),
            None => {
                return None;
            },
        };
        let transitive_prerequisites = match self.transitive_prerequisites(step) {
            Some(t) => t,
            None => {
                return None;
            },
        };
        let direct_dependents = match self.direct_dependents(step) {
            Some(d) => vstd::slice::slice_to_vec(d),
            None => {
                return None;
            },
        };
        let (paths_to_conclusion, paths_truncated) = match self.paths_to_conclusion(step, maximum_paths) {
            Some(found) => found,
            None => (Vec::new(), false),
        };
        proof {
            assert(lists_view(Seq::<Vec<usize>>::empty()) =~= Seq::<Seq<usize>>::empty());
        }
        Some(StepInspection {
            step,
            direct_prerequisites,
            transitive_prerequisites,
            direct_dependents,
            paths_to_conclusion,
            paths_truncated,
        })
    }

    /// The report of the whole extraction, with the selected step inspected;
    /// an error where the selected step does not exist.
    pub fn report(&self, declaration: &'a str, selected_step: Option<usize>) -> (r: Result<ProofStepsReport<'a>, SieveError>)
        ensures
            r is Err <==> (selected_step matches Some(s) && s >= self.extraction_view().steps@.len()),
            r matches Err(err) ==> selected_step matches Some(s) && err.message@ == "unknown proof step "@ + decimal(s as nat),
            r matches Ok(report) ==> {
                let e = self.extraction_view();
                &&& report.declaration@ == declaration@
                &&& report.complete == e.complete
                &&& report.truncation_reason.is_some() == e.truncation_reason.is_some()
                &&& (report.truncation_reason matches Some(t) ==> e.truncation_reason matches Some(u) && t@ == u@)
                &&& report.visited_terms == e.visited_terms
                &&& report.conclusion_step == e.conclusion_step
                &&& report.steps@ == e.steps@
                &&& report.named_results@ == e.named_results@
                &&& report.edges@ == edges_upto(e, e.steps@.len() as int)
                &&& match selected_step {
                    Some(s) => report.selected matches Some(i) && inspection_reports(e, s as int, REPORT_MAXIMUM_PATHS as int, i),
                    None => report.selected is None,
                }
            },
    {
        let selected = match selected_step {
            Some(step) => match self.inspect(step, REPORT_MAXIMUM_PATHS) {
                Some(inspection) => Some(inspection),
                None => {
                    let mut message = text_from("unknown proof step ");
                    let number = decimal_text(step);
                    append_text(&mut message, number.as_str());
                    return Err(SieveError { message });
                },
            },
            None => None,
        };
        let truncation_reason = match &self.extraction.truncation_reason {
            Some(t) => Some(t.as_str()),
            None => None,
        };
        Ok(ProofStepsReport {
            declaration,
            complete: self.extraction.complete,
            truncation_reason,
            visited_terms: self.extraction.visited_terms,
            conclusion_step: self.extraction.conclusion_step,
            steps: self.extraction.steps.as_slice(),
            named_results: self.extraction.named_results.as_slice(),
            edges: self.edges(),
            selected,
        })
    }
}

} // verus!

verus! {

/// Some condensed edge joins `a` to `b`.
pub open spec fn edge_joins(edges: Seq<ProofOutlineEdge>, a: int, b: int) -> bool {
    exists|k: int| 0 <= k < edges.len() && (#[trigger] edges[k]).source == a && edges[k].target == b
}

/// `a` reaches `c` along at most `n` condensed edges.
pub open spec fn outline_reaches(edges: Seq<ProofOutlineEdge>, a: int, c: int, n: nat) -> bool
    decreases n,
{
    a == c || (n > 0 && exists|b: int| #[trigger] edge_joins(edges, a, b) && outline_reaches(edges, b, c, (n - 1) as nat))
}

/// Every outline candidate below `n` is a candidate step.
proof fn lemma_candidates_sound(e: ProofStepExtraction, c: int, n: int, x: usize)
    requires
        outline_candidates(e, c, n).contains(x),
        n <= usize::MAX,
    ensures
        outline_candidate(e, c, x as int),
    decreases n,
{
    if n > 0 {
        let p = outline_candidates(e, c, n - 1);
        if outline_candidate(e, c, n - 1) {
            if x != (n - 1) as usize {
                let k = choose|k: int| 0 <= k < outline_candidates(e, c, n).len() && outline_candidates(e, c, n)[k] == x;
                assert(p[k] == x);
            }
        }
        if !(outline_candidate(e, c, n - 1) && x == (n - 1) as usize) {
            if outline_candidate(e, c, n - 1) {
                let k = choose|k: int| 0 <= k < outline_candidates(e, c, n).len() && outline_candidates(e, c, n)[k] == x;
                assert(k < p.len());
                assert(p.contains(x));
            }
            lemma_candidates_sound(e, c, n - 1, x);
        }
    }
}

/// What the outline facts give for reaching the conclusion: every retained
/// step supports it and it is retained, and every omitted path between
/// retained steps has its edge.
spec fn reach_facts(e: ProofStepExtraction, c: int, ids: Seq<usize>, edges: Seq<ProofOutlineEdge>) -> bool {
    &&& 0 <= c < e.steps@.len()
    &&& e.steps@.len() <= usize::MAX
    &&& ids.contains(c as usize)
    &&& forall|k: int| 0 <= k < ids.len() ==> supports(e, c, #[trigger] ids[k] as int)
    &&& forall|a: int, t: int, p: Seq<usize>| ids.contains(a as usize) && ids.contains(t as usize)
        && #[trigger] omitted_path(e, c, ids, a, t, p) ==> edge_joins(edges, a, t)
}

/// An omitted path from a retained step `a` extends to one that ends at a
/// retained step, from which the conclusion is reached.
#[verifier::spinoff_prover]
#[verifier::rlimit(40)]
proof fn lemma_path_reaches(e: ProofStepExtraction, c: int, ids: Seq<usize>, edges: Seq<ProofOutlineEdge>, a: int, x: int, p: Seq<usize>)
    requires
        reach_facts(e, c, ids, edges),
        ids.contains(a as usize),
        0 <= a < e.steps@.len(),
        omitted_path(e, c, ids, a, x, p),
    ensures
        exists|n: nat| outline_reaches(edges, a, c, n),
    decreases c - a, c - x,
{
    lemma_path_short(e, c, ids, a, x, p);
    assert(x <= c) by {
        if x > c {
            assert(!supports(e, c, x));
        }
    }
    if ids.contains(x as usize) {
        assert(edge_joins(edges, a, x));
        if x == c {
            assert(outline_reaches(edges, x, c, 0));
            assert(outline_reaches(edges, a, c, 1));
        } else {
            lemma_retained_reaches(e, c, ids, edges, x);
            let n = choose|n: nat| outline_reaches(edges, x, c, n);
            assert(outline_reaches(edges, a, c, n + 1));
        }
    } else {
        assert(x != c);
        assert(supports(e, c, x));
        let j = choose|j: int| x < j <= c && #[trigger] e.steps@[j].prerequisite_steps@.contains(x as usize) && supports(e, c, j);
        assert((j as usize) as int == j);
        let q = p.push(j as usize);
        assert forall|i: int| 0 <= i < q.len() - 1 implies #[trigger] q[i] < q[i + 1] && q[i + 1] < e.steps@.len()
            && e.steps@[q[i + 1] as int].prerequisite_steps@.contains(q[i]) by {
            if i < q.len() - 2 {
                assert(q[i] == p[i] && q[i + 1] == p[i + 1]);
            } else {
                assert(q[i] == p.last());
            }
        }
        assert forall|i: int| 0 < i < q.len() - 1 implies !ids.contains(#[trigger] q[i]) && supports(e, c, q[i] as int) by {
            if i < q.len() - 2 {
                assert(q[i] == p[i]);
            } else {
                assert(q[i] == p.last());
            }
        }
        assert(omitted_path(e, c, ids, a, j, q));
        lemma_path_reaches(e, c, ids, edges, a, j, q);
    }
}

/// A retained step reaches the conclusion along condensed edges.
proof fn lemma_retained_reaches(e: ProofStepExtraction, c: int, ids: Seq<usize>, edges: Seq<ProofOutlineEdge>, a: int)
    requires
        reach_facts(e, c, ids, edges),
        ids.contains(a as usize),
        0 <= a < e.steps@.len(),
    ensures
        exists|n: nat| outline_reaches(edges, a, c, n),
    decreases c - a, c - a + 1,
{
    assert((a as usize) as int == a);
    let k = choose|k: int| 0 <= k < ids.len() && ids[k] == a as usize;
    assert(supports(e, c, ids[k] as int));
    assert(supports(e, c, a));
    if a == c {
        assert(outline_reaches(edges, a, c, 0));
    } else {
        assert(a < c) by {
            if a > c {
                assert(!supports(e, c, a));
            }
        }
        let j = choose|j: int| a < j <= c && #[trigger] e.steps@[j].prerequisite_steps@.contains(a as usize) && supports(e, c, j);
        assert((j as usize) as int == j);
        let p = seq![a as usize, j as usize];
        assert(p[1] < e.steps@.len());
        assert(omitted_path(e, c, ids, a, j, p));
        lemma_path_reaches(e, c, ids, edges, a, j, p);
    }
}

/// Every retained step of an outline reaches the conclusion along condensed
/// edges.
pub proof fn lemma_outline_reaches_conclusion(e: ProofStepExtraction, o: ProofOutlineEvidence, a: usize)
    requires
        outline_reports(e, o),
        e.conclusion_step is Some,
        e.conclusion_step->0 < e.steps@.len(),
        retained_ids(o).contains(a),
    ensures
        exists|n: nat| outline_reaches(o.condensed_edges@, a as int, e.conclusion_step->0 as int, n),
{
    let c = e.conclusion_step->0 as int;
    let ids = retained_ids(o);
    assert(e.steps@.len() == e.steps.len());
    let cands = outline_candidates(e, c, e.steps@.len() as int);
    assert forall|k: int| 0 <= k < ids.len() implies supports(e, c, #[trigger] ids[k] as int) by {
        assert(cands.contains(ids[k]));
        lemma_candidates_sound(e, c, e.steps@.len() as int, ids[k]);
    }
    assert forall|x: int, t: int, p: Seq<usize>| ids.contains(x as usize) && ids.contains(t as usize)
        && #[trigger] omitted_path(e, c, ids, x, t, p) implies edge_joins(o.condensed_edges@, x, t) by {
        let k = choose|k: int| 0 <= k < o.condensed_edges@.len() && (#[trigger] o.condensed_edges@[k]).source == x
            && o.condensed_edges@[k].target == t;
    }
    assert(cands.contains(a));
    lemma_candidates_sound(e, c, e.steps@.len() as int, a);
    lemma_retained_reaches(e, c, ids, o.condensed_edges@, a as int);
}

} // verus!
