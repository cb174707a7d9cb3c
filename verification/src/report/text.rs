//! Plain text reports.
use vstd::prelude::*;
use crate::analysis::dependency::{DependencyPath, DependencyRecord, DependencySummary, GraphStructureResult, TraversalNode, TraversalResult};
use crate::analysis::structure::{RepeatedSubexpression, StructuralMatch, StructureLocation};
use crate::model::join;
use crate::report::{
    bool_string, bool_text, concat, concat_texts, layer_debug, layer_string, number_left, pad_left, selection_debug,
    selection_string,
};
use crate::strings::{copy_text, decimal, decimal_text, text_from, texts_view};
use crate::model::join_texts;
use crate::analysis::graph::insert_unique;
use crate::analysis::corpus::increasing;
use crate::analysis::proof_steps::{ProofStepsReport, StepInspection};
use crate::model::{NamedResultSnapshot, ProofContextEntry, ProofStep};
use crate::report::{pad_right, pad_right_text};

verus! {

/// A module with its count, as `module×count`.
pub open spec fn module_count(e: (String, usize)) -> Seq<char> {
    e.0@ + "×"@ + decimal(e.1 as nat)
}

/// The line of one dependency record.
pub open spec fn record_line(e: DependencyRecord) -> Seq<char> {
    concat(seq![
        "  "@, pad_left(decimal(e.occurrences as nat), 6), "  "@, layer_debug(e.layer), "  "@, e.source@, " -> "@, e.target@,
        " ["@, e.target_kind@, if e.target_in_corpus { ", internal"@ } else { ", external"@ }, "]\n"@,
    ])
}

/// The dependency summary as text: a header, the occurrences by module
/// where there are any, and one line per record.
pub open spec fn dependencies_text(sm: DependencySummary) -> Seq<char> {
    let header = concat(seq![
        sm.direction@, " dependencies for "@, sm.declaration@, " (layer="@, selection_debug(sm.config.filter.layer),
        ", weighted="@, bool_text(sm.config.weighted), ", truncated="@, bool_text(sm.truncated), "):\n"@,
    ]);
    let modules = if sm.occurrences_by_module@.len() == 0 {
        Seq::empty()
    } else {
        concat(seq!["  occurrences by module: "@, join(sm.occurrences_by_module@.map_values(|e: (String, usize)| module_count(e)), ", "@), "\n"@])
    };
    concat(seq![header, modules] + sm.edges@.map_values(|e: DependencyRecord| record_line(e)))
}

fn record_line_text(e: &DependencyRecord) -> (r: String)
    ensures
        r@ == record_line(*e),
{
    let mut parts: Vec<String> = Vec::new();
    parts.push(text_from("  "));
    parts.push(number_left(e.occurrences, 6));
    parts.push(text_from("  "));
    parts.push(layer_string(e.layer));
    parts.push(text_from("  "));
    parts.push(copy_text(&e.source));
    parts.push(text_from(" -> "));
    parts.push(copy_text(&e.target));
    parts.push(text_from(" ["));
    parts.push(copy_text(&e.target_kind));
    parts.push(if e.target_in_corpus { text_from(", internal") } else { text_from(", external") });
    parts.push(text_from("]\n"));
    let r = concat_texts(&parts);
    proof {
        assert(texts_view(parts@) =~= seq![
            "  "@, pad_left(decimal(e.occurrences as nat), 6), "  "@, layer_debug(e.layer), "  "@, e.source@, " -> "@, e.target@,
            " ["@, e.target_kind@, if e.target_in_corpus { ", internal"@ } else { ", external"@ }, "]\n"@,
        ]);
    }
    r
}

/// The dependency summary as text.
pub fn dependencies(summary: &DependencySummary) -> (r: String)
    ensures
        r@ == dependencies_text(*summary),
{
    let mut head: Vec<String> = Vec::new();
    head.push(copy_text(&summary.direction));
    head.push(text_from(" dependencies for "));
    head.push(copy_text(&summary.declaration));
    head.push(text_from(" (layer="));
    head.push(selection_string(summary.config.filter.layer));
    head.push(text_from(", weighted="));
    head.push(bool_string(summary.config.weighted));
    head.push(text_from(", truncated="));
    head.push(bool_string(summary.truncated));
    head.push(text_from("):\n"));
    let header = concat_texts(&head);
    proof {
        assert(texts_view(head@) =~= seq![
            summary.direction@, " dependencies for "@, summary.declaration@, " (layer="@, selection_debug(summary.config.filter.layer),
            ", weighted="@, bool_text(summary.config.weighted), ", truncated="@, bool_text(summary.truncated), "):\n"@,
        ]);
    }
    let modules = if summary.occurrences_by_module.len() == 0 {
        String::new()
    } else {
        let mut entries: Vec<String> = Vec::new();
        let mut i: usize = 0;
        while i < summary.occurrences_by_module.len()
            invariant
                i <= summary.occurrences_by_module@.len(),
                entries@.len() == i,
                forall|j: int| 0 <= j < i ==> (#[trigger] entries@[j])@ == module_count(summary.occurrences_by_module@[j]),
            decreases summary.occurrences_by_module@.len() - i,
        {
            let e = &summary.occurrences_by_module[i];
            let mut piece = copy_text(&e.0);
            crate::strings::append_text(&mut piece, "×");
            let d = decimal_text(e.1);
            crate::strings::append_text(&mut piece, d.as_str());
            entries.push(piece);
            i = i + 1;
        }
        let joined = join_texts(&entries, ", ");
        let mut m: Vec<String> = Vec::new();
        m.push(text_from("  occurrences by module: "));
        m.push(joined);
        m.push(text_from("\n"));
        let t = concat_texts(&m);
        proof {
            assert(texts_view(entries@) =~= summary.occurrences_by_module@.map_values(|e: (String, usize)| module_count(e)));
            assert(texts_view(m@) =~= seq!["  occurrences by module: "@, join(summary.occurrences_by_module@.map_values(|e: (String, usize)| module_count(e)), ", "@), "\n"@]);
        }
        t
    };
    let mut lines: Vec<String> = Vec::new();
    lines.push(header);
    lines.push(modules);
    let mut i: usize = 0;
    while i < summary.edges.len()
        invariant
            i <= summary.edges@.len(),
            lines@.len() == i + 2,
            lines@[0]@ == header@,
            lines@[1]@ == modules@,
            forall|j: int| 0 <= j < i ==> (#[trigger] lines@[j + 2])@ == record_line(summary.edges@[j]),
        decreases summary.edges@.len() - i,
    {
        lines.push(record_line_text(&summary.edges[i]));
        i = i + 1;
    }
    let r = concat_texts(&lines);
    proof {
        let modules_spec = if summary.occurrences_by_module@.len() == 0 {
            Seq::<char>::empty()
        } else {
            concat(seq!["  occurrences by module: "@, join(summary.occurrences_by_module@.map_values(|e: (String, usize)| module_count(e)), ", "@), "\n"@])
        };
        assert(modules@ == modules_spec);
        let want = seq![header@, modules@] + summary.edges@.map_values(|e: DependencyRecord| record_line(e));
        assert forall|j: int| 0 <= j < want.len() implies texts_view(lines@)[j] == want[j] by {
            if j >= 2 {
                assert(lines@[(j - 2) + 2]@ == record_line(summary.edges@[j - 2]));
            }
        }
        assert(texts_view(lines@) =~= want);
    }
    r
}

/// The line of one traversal node.
pub open spec fn traversal_line(n: TraversalNode) -> Seq<char> {
    concat(seq!["  depth "@, pad_left(decimal(n.depth as nat), 2), "  weight "@, pad_left(decimal(n.path_weight as nat), 6), "  "@, n.name@, "\n"@])
}

/// The traversal as text: a header and one line per node.
pub open spec fn traversal_text(t: TraversalResult) -> Seq<char> {
    let header = concat(seq![
        t.direction@, " traversal from "@, t.start@, " (depth≤"@, decimal(t.config.max_depth as nat), ", limit="@,
        decimal(t.config.limit as nat), ", truncated="@, bool_text(t.truncated), "):\n"@,
    ]);
    concat(seq![header] + t.nodes@.map_values(|n: TraversalNode| traversal_line(n)))
}

/// The traversal as text.
pub fn traversal(result: &TraversalResult) -> (r: String)
    ensures
        r@ == traversal_text(*result),
{
    let mut head: Vec<String> = Vec::new();
    head.push(copy_text(&result.direction));
    head.push(text_from(" traversal from "));
    head.push(copy_text(&result.start));
    head.push(text_from(" (depth≤"));
    head.push(decimal_text(result.config.max_depth));
    head.push(text_from(", limit="));
    head.push(decimal_text(result.config.limit));
    head.push(text_from(", truncated="));
    head.push(bool_string(result.truncated));
    head.push(text_from("):\n"));
    let header = concat_texts(&head);
    proof {
        assert(texts_view(head@) =~= seq![
            result.direction@, " traversal from "@, result.start@, " (depth≤"@, decimal(result.config.max_depth as nat), ", limit="@,
            decimal(result.config.limit as nat), ", truncated="@, bool_text(result.truncated), "):\n"@,
        ]);
    }
    let mut lines: Vec<String> = Vec::new();
    lines.push(header);
    let mut i: usize = 0;
    while i < result.nodes.len()
        invariant
            i <= result.nodes@.len(),
            lines@.len() == i + 1,
            lines@[0]@ == header@,
            forall|j: int| 0 <= j < i ==> (#[trigger] lines@[j + 1])@ == traversal_line(result.nodes@[j]),
        decreases result.nodes@.len() - i,
    {
        let n = &result.nodes[i];
        let mut parts: Vec<String> = Vec::new();
        parts.push(text_from("  depth "));
        parts.push(number_left(n.depth, 2));
        parts.push(text_from("  weight "));
        parts.push(number_left(n.path_weight, 6));
        parts.push(text_from("  "));
        parts.push(copy_text(&n.name));
        parts.push(text_from("\n"));
        let line = concat_texts(&parts);
        proof {
            assert(texts_view(parts@) =~= seq!["  depth "@, pad_left(decimal(n.depth as nat), 2), "  weight "@,
                pad_left(decimal(n.path_weight as nat), 6), "  "@, n.name@, "\n"@]);
        }
        lines.push(line);
        i = i + 1;
    }
    let r = concat_texts(&lines);
    proof {
        let want = seq![header@] + result.nodes@.map_values(|n: TraversalNode| traversal_line(n));
        assert forall|j: int| 0 <= j < want.len() implies texts_view(lines@)[j] == want[j] by {
            if j >= 1 {
                assert(lines@[(j - 1) + 1]@ == traversal_line(result.nodes@[j - 1]));
            }
        }
        assert(texts_view(lines@) =~= want);
    }
    r
}

/// The path as text: its length, weight and nodes, or that none was found.
pub open spec fn path_text(p: DependencyPath) -> Seq<char> {
    if p.nodes@.len() == 0 {
        "no dependency path found\n"@
    } else {
        concat(seq![
            "shortest path ("@, decimal(p.layers@.len()), " edges, total occurrence weight "@, decimal(p.total_weight as nat),
            "):\n  "@, join(texts_view(p.nodes@), " -> "@), "\n"@,
        ])
    }
}

/// The path as text.
pub fn path(found: &DependencyPath) -> (r: String)
    ensures
        r@ == path_text(*found),
{
    if found.nodes.len() == 0 {
        return text_from("no dependency path found\n");
    }
    let mut parts: Vec<String> = Vec::new();
    parts.push(text_from("shortest path ("));
    parts.push(decimal_text(found.layers.len()));
    parts.push(text_from(" edges, total occurrence weight "));
    parts.push(decimal_text(found.total_weight));
    parts.push(text_from("):\n  "));
    parts.push(join_texts(&found.nodes, " -> "));
    parts.push(text_from("\n"));
    let r = concat_texts(&parts);
    proof {
        assert(texts_view(parts@) =~= seq![
            "shortest path ("@, decimal(found.layers@.len()), " edges, total occurrence weight "@, decimal(found.total_weight as nat),
            "):\n  "@, join(texts_view(found.nodes@), " -> "@), "\n"@,
        ]);
    }
    r
}

/// The line of one duplicate group.
pub open spec fn duplicate_line(m: StructuralMatch) -> Seq<char> {
    concat(seq![
        "size "@, pad_left(decimal(m.expression_size as nat), 6), ", depth "@, pad_left(decimal(m.expression_depth as nat), 4),
        ", fingerprint "@, m.fingerprint@, ": "@, join(texts_view(m.declarations@), ", "@), "\n"@,
    ])
}

/// The duplicate groups as text, one line each.
pub open spec fn duplicates_text(ms: Seq<StructuralMatch>) -> Seq<char> {
    concat(ms.map_values(|m: StructuralMatch| duplicate_line(m)))
}

/// The duplicate groups as text.
pub fn duplicates(results: &[StructuralMatch]) -> (r: String)
    ensures
        r@ == duplicates_text(results@),
{
    let mut lines: Vec<String> = Vec::new();
    let mut i: usize = 0;
    while i < results.len()
        invariant
            i <= results@.len(),
            lines@.len() == i,
            forall|j: int| 0 <= j < i ==> (#[trigger] lines@[j])@ == duplicate_line(results@[j]),
        decreases results@.len() - i,
    {
        let m = &results[i];
        let mut parts: Vec<String> = Vec::new();
        parts.push(text_from("size "));
        parts.push(number_left(m.expression_size, 6));
        parts.push(text_from(", depth "));
        parts.push(number_left(m.expression_depth, 4));
        parts.push(text_from(", fingerprint "));
        parts.push(copy_text(&m.fingerprint));
        parts.push(text_from(": "));
        parts.push(join_texts(&m.declarations, ", "));
        parts.push(text_from("\n"));
        let line = concat_texts(&parts);
        proof {
            assert(texts_view(parts@) =~= seq![
                "size "@, pad_left(decimal(m.expression_size as nat), 6), ", depth "@, pad_left(decimal(m.expression_depth as nat), 4),
                ", fingerprint "@, m.fingerprint@, ": "@, join(texts_view(m.declarations@), ", "@), "\n"@,
            ]);
        }
        lines.push(line);
        i = i + 1;
    }
    let r = concat_texts(&lines);
    proof {
        assert(texts_view(lines@) =~= results@.map_values(|m: StructuralMatch| duplicate_line(m)));
    }
    r
}

/// The line of one location of a repeated subexpression.
pub open spec fn location_line(l: StructureLocation) -> Seq<char> {
    concat(seq!["  "@, layer_debug(l.layer), " "@, l.declaration@, " #"@, decimal(l.node as nat), " ×"@, decimal(l.occurrences as nat), "\n"@])
}

/// The text of one repeated subexpression: a summary line and one line per
/// location.
pub open spec fn repeat_block(x: RepeatedSubexpression) -> Seq<char> {
    let head = concat(seq![
        "size "@, pad_left(decimal(x.expression_size as nat), 6), ", depth "@, pad_left(decimal(x.expression_depth as nat), 4),
        ", support "@, pad_left(decimal(x.unique_declarations as nat), 4), ", occurrences "@,
        pad_left(decimal(x.total_occurrences as nat), 8), ", fingerprint "@, x.fingerprint@, "\n"@,
    ]);
    concat(seq![head] + x.locations@.map_values(|l: StructureLocation| location_line(l)))
}

/// The repeated subexpressions as text.
pub open spec fn repeated_text(xs: Seq<RepeatedSubexpression>) -> Seq<char> {
    concat(xs.map_values(|x: RepeatedSubexpression| repeat_block(x)))
}

fn repeat_block_text(x: &RepeatedSubexpression) -> (r: String)
    ensures
        r@ == repeat_block(*x),
{
    let mut parts: Vec<String> = Vec::new();
    parts.push(text_from("size "));
    parts.push(number_left(x.expression_size, 6));
    parts.push(text_from(", depth "));
    parts.push(number_left(x.expression_depth, 4));
    parts.push(text_from(", support "));
    parts.push(number_left(x.unique_declarations, 4));
    parts.push(text_from(", occurrences "));
    parts.push(number_left(x.total_occurrences, 8));
    parts.push(text_from(", fingerprint "));
    parts.push(copy_text(&x.fingerprint));
    parts.push(text_from("\n"));
    let head = concat_texts(&parts);
    proof {
        assert(texts_view(parts@) =~= seq![
            "size "@, pad_left(decimal(x.expression_size as nat), 6), ", depth "@, pad_left(decimal(x.expression_depth as nat), 4),
            ", support "@, pad_left(decimal(x.unique_declarations as nat), 4), ", occurrences "@,
            pad_left(decimal(x.total_occurrences as nat), 8), ", fingerprint "@, x.fingerprint@, "\n"@,
        ]);
    }
    let mut lines: Vec<String> = Vec::new();
    lines.push(head);
    let mut i: usize = 0;
    while i < x.locations.len()
        invariant
            i <= x.locations@.len(),
            lines@.len() == i + 1,
            lines@[0]@ == head@,
            forall|j: int| 0 <= j < i ==> (#[trigger] lines@[j + 1])@ == location_line(x.locations@[j]),
        decreases x.locations@.len() - i,
    {
        let l = &x.locations[i];
        let mut p: Vec<String> = Vec::new();
        p.push(text_from("  "));
        p.push(layer_string(l.layer));
        p.push(text_from(" "));
        p.push(copy_text(&l.declaration));
        p.push(text_from(" #"));
        p.push(decimal_text(l.node));
        p.push(text_from(" ×"));
        p.push(decimal_text(l.occurrences));
        p.push(text_from("\n"));
        let line = concat_texts(&p);
        proof {
            assert(texts_view(p@) =~= seq!["  "@, layer_debug(l.layer), " "@, l.declaration@, " #"@, decimal(l.node as nat), " ×"@,
                decimal(l.occurrences as nat), "\n"@]);
        }
        lines.push(line);
        i = i + 1;
    }
    let r = concat_texts(&lines);
    proof {
        let want = seq![head@] + x.locations@.map_values(|l: StructureLocation| location_line(l));
        assert forall|j: int| 0 <= j < want.len() implies texts_view(lines@)[j] == want[j] by {
            if j >= 1 {
                assert(lines@[(j - 1) + 1]@ == location_line(x.locations@[j - 1]));
            }
        }
        assert(texts_view(lines@) =~= want);
    }
    r
}

/// The repeated subexpressions as text.
pub fn repeated(results: &[RepeatedSubexpression]) -> (r: String)
    ensures
        r@ == repeated_text(results@),
{
    let mut blocks: Vec<String> = Vec::new();
    let mut i: usize = 0;
    while i < results.len()
        invariant
            i <= results@.len(),
            blocks@.len() == i,
            forall|j: int| 0 <= j < i ==> (#[trigger] blocks@[j])@ == repeat_block(results@[j]),
        decreases results@.len() - i,
    {
        blocks.push(repeat_block_text(&results[i]));
        i = i + 1;
    }
    let r = concat_texts(&blocks);
    proof {
        assert(texts_view(blocks@) =~= results@.map_values(|x: RepeatedSubexpression| repeat_block(x)));
    }
    r
}

/// The number of distinct community numbers.
pub open spec fn community_count(c: Seq<(String, usize)>) -> nat {
    c.map_values(|e: (String, usize)| e.1).to_set().len()
}

/// The graph structure as one line of counts.
pub open spec fn graph_structure_text(g: GraphStructureResult) -> Seq<char> {
    concat(seq![
        "graph structure: "@, decimal(community_count(g.communities@)), " communities, "@, decimal(g.articulation_points@.len()),
        " articulation points, "@, decimal(g.bridges@.len()), " bridges\n"@,
    ])
}

/// The graph structure as text.
pub fn graph_structure(result: &GraphStructureResult) -> (r: String)
    ensures
        r@ == graph_structure_text(*result),
{
    let mut values: Vec<usize> = Vec::new();
    let mut i: usize = 0;
    while i < result.communities.len()
        invariant
            i <= result.communities@.len(),
            increasing(values@),
            forall|v: usize| #[trigger] values@.contains(v) <==> exists|j: int| 0 <= j < i && (#[trigger] result.communities@[j]).1 == v,
        decreases result.communities@.len() - i,
    {
        let ghost before = values@;
        values = insert_unique(&values, result.communities[i].1);
        proof {
            assert forall|v: usize| #[trigger] values@.contains(v) <==> exists|j: int| 0 <= j < i + 1 && (#[trigger] result.communities@[j]).1 == v by {
                if v == result.communities@[i as int].1 {
                    assert(result.communities@[i as int].1 == v);
                }
                if exists|j: int| 0 <= j < i + 1 && (#[trigger] result.communities@[j]).1 == v {
                    let j = choose|j: int| 0 <= j < i + 1 && (#[trigger] result.communities@[j]).1 == v;
                    if j < i {
                        assert(before.contains(v));
                    }
                }
            }
        }
        i = i + 1;
    }
    proof {
        let c = result.communities@;
        let mapped = c.map_values(|e: (String, usize)| e.1);
        assert(values@.no_duplicates()) by {
            assert forall|a: int, b: int| 0 <= a < values@.len() && 0 <= b < values@.len() && a != b implies values@[a] != values@[b] by {
                if a < b {
                    assert(values@[a] < values@[b]);
                } else {
                    assert(values@[b] < values@[a]);
                }
            }
        }
        values@.unique_seq_to_set();
        assert(values@.to_set() =~= mapped.to_set()) by {
            assert forall|v: usize| values@.to_set().contains(v) <==> mapped.to_set().contains(v) by {
                if values@.contains(v) {
                    let j = choose|j: int| 0 <= j < c.len() && (#[trigger] c[j]).1 == v;
                    assert(mapped[j] == v);
                }
                if mapped.contains(v) {
                    let j = choose|j: int| 0 <= j < mapped.len() && mapped[j] == v;
                    assert(c[j].1 == v);
                }
            }
        }
    }
    let mut parts: Vec<String> = Vec::new();
    parts.push(text_from("graph structure: "));
    parts.push(decimal_text(values.len()));
    parts.push(text_from(" communities, "));
    parts.push(decimal_text(result.articulation_points.len()));
    parts.push(text_from(" articulation points, "));
    parts.push(decimal_text(result.bridges.len()));
    parts.push(text_from(" bridges\n"));
    let r = concat_texts(&parts);
    proof {
        assert(texts_view(parts@) =~= seq![
            "graph structure: "@, decimal(community_count(result.communities@)), " communities, "@, decimal(result.articulation_points@.len()),
            " articulation points, "@, decimal(result.bridges@.len()), " bridges\n"@,
        ]);
    }
    r
}

/// Step ids as `#id`, joined by `sep`.
pub open spec fn step_ids_text(ids: Seq<usize>, sep: Seq<char>) -> Seq<char> {
    join(ids.map_values(|id: usize| "#"@ + decimal(id as nat)), sep)
}

/// Step ids joined by arrows, or `<none>`.
pub open spec fn route_text(ids: Seq<usize>) -> Seq<char> {
    if ids.len() == 0 { "<none>"@ } else { step_ids_text(ids, " -> "@) }
}

/// The line of one context entry.
pub open spec fn context_line(e: ProofContextEntry) -> Seq<char> {
    concat(seq!["    "@, e.id@, "  "@, e.user_name@, " ["@, e.kind@, "]: "@, e.type_@, "\n"@])
}

/// A labelled list line, left out where the list is empty.
pub open spec fn list_line(label: Seq<char>, items: Seq<char>, empty: bool) -> Seq<char> {
    if empty { Seq::empty() } else { concat(seq![label, items, "\n"@]) }
}

/// The text of one proof step.
pub open spec fn step_block(step: ProofStep) -> Seq<char> {
    concat(seq![
        concat(seq!["\n#"@, pad_right(decimal(step.id as nat), 4), " ["@, step.kind@, "] term-path="@,
            join(step.proof_term_path@.map_values(|k: usize| decimal(k as nat)), "."@), "\n"@]),
        concat(seq!["  establishes: "@, step.proposition@, "\n"@]),
        list_line("  direct prerequisite steps: "@, step_ids_text(step.prerequisite_steps@, ", "@), step.prerequisite_steps@.len() == 0),
        list_line("  hypotheses used: "@, join(texts_view(step.hypothesis_references@), ", "@), step.hypothesis_references@.len() == 0),
        list_line("  named results: "@, join(texts_view(step.named_references@), ", "@), step.named_references@.len() == 0),
        "  context:\n"@,
        concat(step.context@.map_values(|e: ProofContextEntry| context_line(e))),
    ])
}

/// The evidence of a selected step.
pub open spec fn selected_block(i: StepInspection) -> Seq<char> {
    concat(seq![
        concat(seq!["\nselected step #"@, decimal(i.step as nat), " evidence\n"@]),
        concat(seq!["  direct prerequisites: "@, route_text(i.direct_prerequisites@), "\n"@]),
        concat(seq!["  transitive prerequisites: "@, route_text(i.transitive_prerequisites@), "\n"@]),
        concat(seq!["  direct dependents: "@, route_text(i.direct_dependents@), "\n"@]),
        concat(seq!["  paths to conclusion"@, if i.paths_truncated { " (truncated)"@ } else { ""@ }, ":\n"@]),
        concat(i.paths_to_conclusion@.map_values(|p: Vec<usize>| concat(seq!["    "@, route_text(p@), "\n"@]))),
    ])
}

/// The line of one named result.
pub open spec fn named_line(n: NamedResultSnapshot) -> Seq<char> {
    concat(seq!["  "@, n.name@, " ["@, n.kind@, "]: "@, n.type_@, "\n"@])
}

/// The proof steps report as text: the extraction status, each step with
/// its prerequisites and context, the selected step's evidence, and the
/// named results' statements.
pub open spec fn proof_steps_text(r: ProofStepsReport) -> Seq<char> {
    concat(seq![
        concat(seq!["proof steps for "@, r.declaration@, "\n"@]),
        concat(seq!["  extraction: complete="@, bool_text(r.complete), ", visited_terms="@, decimal(r.visited_terms as nat),
            ", steps="@, decimal(r.steps@.len()), ", conclusion="@,
            match r.conclusion_step { Some(id) => "#"@ + decimal(id as nat), None => "<none>"@ }, "\n"@]),
        match r.truncation_reason { Some(reason) => concat(seq!["  incomplete: "@, reason@, "\n"@]), None => Seq::empty() },
        concat(r.steps@.map_values(|st: ProofStep| step_block(st))),
        match r.selected { Some(i) => selected_block(i), None => Seq::empty() },
        "\nnamed result statements:\n"@,
        concat(r.named_results@.map_values(|n: NamedResultSnapshot| named_line(n))),
    ])
}

fn step_ids_string(ids: &Vec<usize>, sep: &str) -> (r: String)
    ensures
        r@ == step_ids_text(ids@, sep@),
{
    let mut parts: Vec<String> = Vec::new();
    let mut i: usize = 0;
    while i < ids.len()
        invariant
            i <= ids@.len(),
            parts@.len() == i,
            forall|j: int| 0 <= j < i ==> (#[trigger] parts@[j])@ == "#"@ + decimal(ids@[j] as nat),
        decreases ids@.len() - i,
    {
        let mut piece = text_from("#");
        let d = decimal_text(ids[i]);
        crate::strings::append_text(&mut piece, d.as_str());
        parts.push(piece);
        i = i + 1;
    }
    let r = join_texts(&parts, sep);
    proof {
        assert(texts_view(parts@) =~= ids@.map_values(|id: usize| "#"@ + decimal(id as nat)));
    }
    r
}

fn route_string(ids: &Vec<usize>) -> (r: String)
    ensures
        r@ == route_text(ids@),
{
    if ids.len() == 0 {
        text_from("<none>")
    } else {
        step_ids_string(ids, " -> ")
    }
}

fn list_line_string(label: &str, items: String, empty: bool) -> (r: String)
    ensures
        r@ == list_line(label@, items@, empty),
{
    if empty {
        return String::new();
    }
    let mut parts: Vec<String> = Vec::new();
    parts.push(text_from(label));
    parts.push(items);
    parts.push(text_from("\n"));
    let r = concat_texts(&parts);
    proof {
        assert(texts_view(parts@) =~= seq![label@, parts@[1]@, "\n"@]);
    }
    r
}

fn step_block_string(step: &ProofStep) -> (r: String)
    ensures
        r@ == step_block(*step),
{
    let mut path_parts: Vec<String> = Vec::new();
    let mut i: usize = 0;
    while i < step.proof_term_path.len()
        invariant
            i <= step.proof_term_path@.len(),
            path_parts@.len() == i,
            forall|j: int| 0 <= j < i ==> (#[trigger] path_parts@[j])@ == decimal(step.proof_term_path@[j] as nat),
        decreases step.proof_term_path@.len() - i,
    {
        path_parts.push(decimal_text(step.proof_term_path[i]));
        i = i + 1;
    }
    proof {
        assert(texts_view(path_parts@) =~= step.proof_term_path@.map_values(|k: usize| decimal(k as nat)));
    }
    let mut first: Vec<String> = Vec::new();
    first.push(text_from("\n#"));
    let id_text = decimal_text(step.id);
    first.push(pad_right_text(id_text.as_str(), 4));
    first.push(text_from(" ["));
    first.push(copy_text(&step.kind));
    first.push(text_from("] term-path="));
    first.push(join_texts(&path_parts, "."));
    first.push(text_from("\n"));
    let line1 = concat_texts(&first);
    proof {
        assert(texts_view(first@) =~= seq!["\n#"@, pad_right(decimal(step.id as nat), 4), " ["@, step.kind@, "] term-path="@,
            join(step.proof_term_path@.map_values(|k: usize| decimal(k as nat)), "."@), "\n"@]);
    }
    let mut second: Vec<String> = Vec::new();
    second.push(text_from("  establishes: "));
    second.push(copy_text(&step.proposition));
    second.push(text_from("\n"));
    let line2 = concat_texts(&second);
    proof {
        assert(texts_view(second@) =~= seq!["  establishes: "@, step.proposition@, "\n"@]);
    }
    let prerequisites = list_line_string("  direct prerequisite steps: ", step_ids_string(&step.prerequisite_steps, ", "),
        step.prerequisite_steps.len() == 0);
    let hypotheses = list_line_string("  hypotheses used: ", join_texts(&step.hypothesis_references, ", "),
        step.hypothesis_references.len() == 0);
    let named = list_line_string("  named results: ", join_texts(&step.named_references, ", "), step.named_references.len() == 0);
    let mut context: Vec<String> = Vec::new();
    let mut k: usize = 0;
    while k < step.context.len()
        invariant
            k <= step.context@.len(),
            context@.len() == k,
            forall|j: int| 0 <= j < k ==> (#[trigger] context@[j])@ == context_line(step.context@[j]),
        decreases step.context@.len() - k,
    {
        let e = &step.context[k];
        let mut p: Vec<String> = Vec::new();
        p.push(text_from("    "));
        p.push(copy_text(&e.id));
        p.push(text_from("  "));
        p.push(copy_text(&e.user_name));
        p.push(text_from(" ["));
        p.push(copy_text(&e.kind));
        p.push(text_from("]: "));
        p.push(copy_text(&e.type_));
        p.push(text_from("\n"));
        let line = concat_texts(&p);
        proof {
            assert(texts_view(p@) =~= seq!["    "@, e.id@, "  "@, e.user_name@, " ["@, e.kind@, "]: "@, e.type_@, "\n"@]);
        }
        context.push(line);
        k = k + 1;
    }
    let context_text = concat_texts(&context);
    proof {
        assert(texts_view(context@) =~= step.context@.map_values(|e: ProofContextEntry| context_line(e)));
    }
    let mut block: Vec<String> = Vec::new();
    block.push(line1);
    block.push(line2);
    block.push(prerequisites);
    block.push(hypotheses);
    block.push(named);
    block.push(text_from("  context:\n"));
    block.push(context_text);
    let r = concat_texts(&block);
    proof {
        assert(texts_view(block@) =~= seq![
            concat(seq!["\n#"@, pad_right(decimal(step.id as nat), 4), " ["@, step.kind@, "] term-path="@,
                join(step.proof_term_path@.map_values(|k: usize| decimal(k as nat)), "."@), "\n"@]),
            concat(seq!["  establishes: "@, step.proposition@, "\n"@]),
            list_line("  direct prerequisite steps: "@, step_ids_text(step.prerequisite_steps@, ", "@), step.prerequisite_steps@.len() == 0),
            list_line("  hypotheses used: "@, join(texts_view(step.hypothesis_references@), ", "@), step.hypothesis_references@.len() == 0),
            list_line("  named results: "@, join(texts_view(step.named_references@), ", "@), step.named_references@.len() == 0),
            "  context:\n"@,
            concat(step.context@.map_values(|e: ProofContextEntry| context_line(e))),
        ]);
    }
    r
}

fn labelled_route(label: &str, ids: &Vec<usize>) -> (r: String)
    ensures
        r@ == concat(seq![label@, route_text(ids@), "\n"@]),
{
    let mut p: Vec<String> = Vec::new();
    p.push(text_from(label));
    p.push(route_string(ids));
    p.push(text_from("\n"));
    let r = concat_texts(&p);
    proof {
        assert(texts_view(p@) =~= seq![label@, route_text(ids@), "\n"@]);
    }
    r
}

fn selected_block_string(i: &StepInspection) -> (r: String)
    ensures
        r@ == selected_block(*i),
{
    let mut head: Vec<String> = Vec::new();
    head.push(text_from("\nselected step #"));
    head.push(decimal_text(i.step));
    head.push(text_from(" evidence\n"));
    let line1 = concat_texts(&head);
    proof {
        assert(texts_view(head@) =~= seq!["\nselected step #"@, decimal(i.step as nat), " evidence\n"@]);
    }
    let line2 = labelled_route("  direct prerequisites: ", &i.direct_prerequisites);
    let line3 = labelled_route("  transitive prerequisites: ", &i.transitive_prerequisites);
    let line4 = labelled_route("  direct dependents: ", &i.direct_dependents);
    let mut p5: Vec<String> = Vec::new();
    p5.push(text_from("  paths to conclusion"));
    p5.push(if i.paths_truncated { text_from(" (truncated)") } else { text_from("") });
    p5.push(text_from(":\n"));
    let line5 = concat_texts(&p5);
    proof {
        assert(texts_view(p5@) =~= seq!["  paths to conclusion"@, if i.paths_truncated { " (truncated)"@ } else { ""@ }, ":\n"@]);
    }
    let mut routes: Vec<String> = Vec::new();
    let mut k: usize = 0;
    while k < i.paths_to_conclusion.len()
        invariant
            k <= i.paths_to_conclusion@.len(),
            routes@.len() == k,
            forall|j: int| 0 <= j < k ==> (#[trigger] routes@[j])@ == concat(seq!["    "@, route_text(i.paths_to_conclusion@[j]@), "\n"@]),
        decreases i.paths_to_conclusion@.len() - k,
    {
        routes.push(labelled_route("    ", &i.paths_to_conclusion[k]));
        k = k + 1;
    }
    let routes_text = concat_texts(&routes);
    proof {
        assert(texts_view(routes@) =~= i.paths_to_conclusion@.map_values(|p: Vec<usize>| concat(seq!["    "@, route_text(p@), "\n"@])));
    }
    let mut block: Vec<String> = Vec::new();
    block.push(line1);
    block.push(line2);
    block.push(line3);
    block.push(line4);
    block.push(line5);
    block.push(routes_text);
    let r = concat_texts(&block);
    proof {
        assert(texts_view(block@) =~= seq![
            concat(seq!["\nselected step #"@, decimal(i.step as nat), " evidence\n"@]),
            concat(seq!["  direct prerequisites: "@, route_text(i.direct_prerequisites@), "\n"@]),
            concat(seq!["  transitive prerequisites: "@, route_text(i.transitive_prerequisites@), "\n"@]),
            concat(seq!["  direct dependents: "@, route_text(i.direct_dependents@), "\n"@]),
            concat(seq!["  paths to conclusion"@, if i.paths_truncated { " (truncated)"@ } else { ""@ }, ":\n"@]),
            concat(i.paths_to_conclusion@.map_values(|p: Vec<usize>| concat(seq!["    "@, route_text(p@), "\n"@]))),
        ]);
    }
    r
}

/// The proof steps report as text.
pub fn proof_steps(report: &ProofStepsReport) -> (r: String)
    ensures
        r@ == proof_steps_text(*report),
{
    let mut first: Vec<String> = Vec::new();
    first.push(text_from("proof steps for "));
    first.push(text_from(report.declaration));
    first.push(text_from("\n"));
    let line1 = concat_texts(&first);
    proof {
        assert(texts_view(first@) =~= seq!["proof steps for "@, report.declaration@, "\n"@]);
    }
    let conclusion = match report.conclusion_step {
        Some(id) => {
            let mut c = text_from("#");
            let d = decimal_text(id);
            crate::strings::append_text(&mut c, d.as_str());
            c
        },
        None => text_from("<none>"),
    };
    let mut second: Vec<String> = Vec::new();
    second.push(text_from("  extraction: complete="));
    second.push(bool_string(report.complete));
    second.push(text_from(", visited_terms="));
    second.push(decimal_text(report.visited_terms));
    second.push(text_from(", steps="));
    second.push(decimal_text(report.steps.len()));
    second.push(text_from(", conclusion="));
    second.push(conclusion);
    second.push(text_from("\n"));
    let line2 = concat_texts(&second);
    proof {
        assert(texts_view(second@) =~= seq!["  extraction: complete="@, bool_text(report.complete), ", visited_terms="@,
            decimal(report.visited_terms as nat), ", steps="@, decimal(report.steps@.len()), ", conclusion="@,
            match report.conclusion_step { Some(id) => "#"@ + decimal(id as nat), None => "<none>"@ }, "\n"@]);
    }
    let incomplete = match report.truncation_reason {
        Some(reason) => {
            let mut p: Vec<String> = Vec::new();
            p.push(text_from("  incomplete: "));
            p.push(text_from(reason));
            p.push(text_from("\n"));
            let t = concat_texts(&p);
            proof {
                assert(texts_view(p@) =~= seq!["  incomplete: "@, reason@, "\n"@]);
            }
            t
        },
        None => String::new(),
    };
    let mut steps: Vec<String> = Vec::new();
    let mut k: usize = 0;
    while k < report.steps.len()
        invariant
            k <= report.steps@.len(),
            steps@.len() == k,
            forall|j: int| 0 <= j < k ==> (#[trigger] steps@[j])@ == step_block(report.steps@[j]),
        decreases report.steps@.len() - k,
    {
        steps.push(step_block_string(&report.steps[k]));
        k = k + 1;
    }
    let steps_text = concat_texts(&steps);
    proof {
        assert(texts_view(steps@) =~= report.steps@.map_values(|st: ProofStep| step_block(st)));
    }
    let selected = match &report.selected {
        Some(i) => selected_block_string(i),
        None => String::new(),
    };
    let mut named: Vec<String> = Vec::new();
    let mut k: usize = 0;
    while k < report.named_results.len()
        invariant
            k <= report.named_results@.len(),
            named@.len() == k,
            forall|j: int| 0 <= j < k ==> (#[trigger] named@[j])@ == named_line(report.named_results@[j]),
        decreases report.named_results@.len() - k,
    {
        let n = &report.named_results[k];
        let mut p: Vec<String> = Vec::new();
        p.push(text_from("  "));
        p.push(copy_text(&n.name));
        p.push(text_from(" ["));
        p.push(copy_text(&n.kind));
        p.push(text_from("]: "));
        p.push(copy_text(&n.type_));
        p.push(text_from("\n"));
        let line = concat_texts(&p);
        proof {
            assert(texts_view(p@) =~= seq!["  "@, n.name@, " ["@, n.kind@, "]: "@, n.type_@, "\n"@]);
        }
        named.push(line);
        k = k + 1;
    }
    let named_text = concat_texts(&named);
    proof {
        assert(texts_view(named@) =~= report.named_results@.map_values(|n: NamedResultSnapshot| named_line(n)));
    }
    let mut all: Vec<String> = Vec::new();
    all.push(line1);
    all.push(line2);
    all.push(incomplete);
    all.push(steps_text);
    all.push(selected);
    all.push(text_from("\nnamed result statements:\n"));
    all.push(named_text);
    let r = concat_texts(&all);
    proof {
        assert(texts_view(all@) =~= seq![
            concat(seq!["proof steps for "@, report.declaration@, "\n"@]),
            concat(seq!["  extraction: complete="@, bool_text(report.complete), ", visited_terms="@, decimal(report.visited_terms as nat),
                ", steps="@, decimal(report.steps@.len()), ", conclusion="@,
                match report.conclusion_step { Some(id) => "#"@ + decimal(id as nat), None => "<none>"@ }, "\n"@]),
            match report.truncation_reason { Some(reason) => concat(seq!["  incomplete: "@, reason@, "\n"@]), None => Seq::empty() },
            concat(report.steps@.map_values(|st: ProofStep| step_block(st))),
            match report.selected { Some(i) => selected_block(i), None => Seq::empty() },
            "\nnamed result statements:\n"@,
            concat(report.named_results@.map_values(|n: NamedResultSnapshot| named_line(n))),
        ]);
    }
    r
}

} // verus!
