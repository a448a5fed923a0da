//! Impact analysis: which components a change affects, and what to print for them.
use vstd::prelude::*;
use crate::adjacency;
use crate::cli::{DiffOpts, OutputOpts};
use crate::dependency::Dependency;
use crate::graph::{
    all_labels, closure_edge_mask, closure_vertex_mask, computes, edge_mask_keeping, edge_mask_within,
    empty_edge_mask, full_edge_mask, full_vertex_mask, holds, insert_sorted, keys_of, label_in,
    lemma_rows_equal_by_labels, listing, roots_mask, row_ascending, selected, strictly_sorted,
    vertex_mask_keeping, Graph, Subgraph,
};
use crate::text::string_models;
use crate::write::{dot_of, text_of, to_dot, to_text, DotFormat, Entry, TextFormat};

verus! {

/// Whether an edge is strong.
pub open spec fn is_strong(e: Dependency) -> bool {
    e == Dependency::Strong
}

/// The predicate that accepts strong edges.
pub open spec fn strong_labels() -> spec_fn(Dependency) -> bool {
    |e: Dependency| is_strong(e)
}

/// The scope asked for, by name.
pub open spec fn scope_of(opts: &OutputOpts) -> Option<Seq<char>> {
    match opts.scope {
        Some(s) => Some(s@),
        None => None,
    }
}

/// The vertex mask cut down to the vertex named `s`.
pub open spec fn named_vertex_mask(g: Graph<String, Dependency>, vm: Seq<bool>, s: Seq<char>) -> Seq<bool> {
    vertex_mask_keeping(vm, |i: int| g.vertex(i)@ == s)
}

/// The masks after scoping a view to one component and what it depends on,
/// then, if asked, to the components that nothing depends on.
pub open spec fn scope_masks(
    g: Graph<String, Dependency>,
    vm: Seq<bool>,
    em: Seq<Seq<bool>>,
    scope: Option<Seq<char>>,
    top_level: bool,
) -> (Seq<bool>, Seq<Seq<bool>>) {
    let rows = g.rows();
    let scoped = match scope {
        Some(s) => {
            let v0 = named_vertex_mask(g, vm, s);
            let e0 = edge_mask_within(rows, v0, em);
            (closure_vertex_mask(rows, v0, all_labels::<Dependency>()), closure_edge_mask(rows, v0, e0, all_labels::<Dependency>()))
        },
        None => (vm, em),
    };
    if top_level {
        (roots_mask(rows, scoped.0, scoped.1), empty_edge_mask(rows))
    } else {
        scoped
    }
}

/// The edges printed: all of them for the dependencies, the strong ones for the schedule.
pub open spec fn output_edges(rows: Seq<Seq<(usize, Dependency)>>, em: Seq<Seq<bool>>, dependencies: bool) -> Seq<Seq<bool>> {
    if dependencies {
        em
    } else {
        edge_mask_keeping(rows, em, strong_labels())
    }
}

/// The text printed for a listing: DOT or plain text, of the dependencies or of the schedule.
pub open spec fn output_text(l: Seq<Entry>, dot: bool, dependencies: bool) -> Seq<char> {
    if dot {
        dot_of(l, if dependencies { DotFormat::Dependencies } else { DotFormat::Schedule })
    } else {
        text_of(l, TextFormat::Simple, l.len() as int)
    }
}

/// What is printed for a view with masks `vm` and `em`.
pub open spec fn printed(g: Graph<String, Dependency>, vm: Seq<bool>, em: Seq<Seq<bool>>, opts: &OutputOpts) -> Seq<char> {
    let n = g.keys().len() as int;
    output_text(listing(g.keys(), g.rows(), vm, output_edges(g.rows(), em, opts.dependencies), n), opts.dot, opts.dependencies)
}

/// The graph with every edge turned around.
pub open spec fn reversed(g: Graph<String, Dependency>) -> Graph<String, Dependency> {
    choose|rev: Graph<String, Dependency>| rev.wf() && rev.is_reverse_of(g)
}

/// The components that depend, directly or not, on a changed one, the
/// changed ones included: what the changed vertices reach in the reversed graph.
pub open spec fn affected_mask(g: Graph<String, Dependency>, changed: Seq<Seq<char>>) -> Seq<bool> {
    let rev = reversed(g);
    closure_vertex_mask(rev.rows(), Seq::new(g.keys().len(), |i: int| changed.contains(g.keys()[i])), all_labels::<Dependency>())
}

proof fn lemma_reverse_unique(a: Graph<String, Dependency>, b: Graph<String, Dependency>, g: Graph<String, Dependency>)
    requires
        a.wf(),
        b.wf(),
        a.is_reverse_of(g),
        b.is_reverse_of(g),
    ensures
        a.rows() == b.rows(),
{
    let n = a.keys().len() as int;
    assert forall|i: int| 0 <= i < n implies #[trigger] a.rows()[i] == b.rows()[i] by {
        let x = a.rows()[i];
        let y = b.rows()[i];
        assert(row_ascending(x));
        assert(row_ascending(y));
        assert forall|j: int| label_in(x, j) == label_in(y, j) by {
            if 0 <= j < n {
                assert(a.label(i, j) == g.label(j, i));
                assert(b.label(i, j) == g.label(j, i));
            } else {
                assert forall|k: int| 0 <= k < x.len() implies x[k].0 != j by {}
                assert forall|k: int| 0 <= k < y.len() implies y[k].0 != j by {}
            }
        }
        lemma_rows_equal_by_labels(x, y);
    }
    assert(a.rows() =~= b.rows());
}

/// The components that a change of `changed` affects, ascending: the changed
/// ones and every component that depends on one, directly or not.
pub fn affected(graph: &Graph<String, Dependency>, changed: &Vec<String>) -> (r: Vec<String>)
    ensures
        string_models(r@) == selected(graph.keys(), affected_mask(*graph, string_models(changed@)), graph.keys().len() as int),
{
    let flipped = graph.reverse();
    let hit = |v: &String| -> (b: bool)
        ensures
            b == keys_of(changed@).contains(v@),
        { holds(changed, v) };
    proof {
        assert(keys_of(changed@) == string_models(changed@));
    }
    let ghost in_changed = |v: String| keys_of(changed@).contains(v@);
    assert(computes(hit, in_changed));
    let start = Subgraph::whole(&flipped).filter_vertices(hit);
    let reach = start.expand();
    let found = reach.vertices();
    let mut out: Vec<String> = Vec::new();
    let mut i: usize = 0;
    while i < found.len()
        invariant
            0 <= i <= found.len(),
            string_models(out@) == found@.map_values(|v: &String| v@).take(i as int),
        decreases found.len() - i,
    {
        let v = found[i].clone();
        proof {
            crate::graph::lemma_keys_of_push(out@, v);
            assert(found@.map_values(|v: &String| v@).take(i + 1) =~= found@.map_values(|v: &String| v@).take(i as int).push(found@[i as int]@));
        }
        out.push(v);
        i = i + 1;
    }
    proof {
        assert(found@.map_values(|v: &String| v@).take(found.len() as int) == found@.map_values(|v: &String| v@));
        let rev = reversed(*graph);
        lemma_reverse_unique(rev, flipped, *graph);
        let n = graph.keys().len() as int;
        let keys = graph.keys();
        crate::graph::lemma_listing_vertices(keys, flipped.rows(), reach.vmask(), reach.emask(), n);
        let want = Seq::new(keys.len(), |i: int| string_models(changed@).contains(keys[i]));
        assert(start.vmask() =~= want) by {
            assert forall|i: int| 0 <= i < n implies start.vmask()[i] == want[i] by {
                assert(flipped.vertex(i)@ == keys[i]);
            }
        }
    }
    out
}

/// Narrows a view to the scope that the options ask for.
pub fn scope_graph<'g>(graph: Subgraph<'g, String, Dependency>, opts: &OutputOpts) -> (r: Subgraph<'g, String, Dependency>)
    ensures
        r.graph() == graph.graph(),
        (r.vmask(), r.emask()) == scope_masks(graph.graph(), graph.vmask(), graph.emask(), scope_of(opts), opts.top_level),
{
    let ghost gr = graph.graph();
    let ghost vm = graph.vmask();
    let ghost em = graph.emask();
    let mut g = graph;
    match &opts.scope {
        Some(scope) => {
            let only = |v: &String| -> (b: bool)
                ensures
                    b == (v@ == scope@),
                { *v == *scope };
            let ghost named = |v: String| v@ == scope@;
            assert(computes(only, named));
            let one = g.filter_vertices(only);
            proof {
                let want = named_vertex_mask(gr, vm, scope@);
                assert(one.vmask() =~= want);
                assert(one.emask() == edge_mask_within(gr.rows(), want, em));
            }
            g = one.expand();
            assert(scope_of(opts) == Some(scope@));
            assert((g.vmask(), g.emask()) == scope_masks(gr, vm, em, scope_of(opts), false));
        },
        None => {
            assert((g.vmask(), g.emask()) == scope_masks(gr, vm, em, scope_of(opts), false));
        },
    }
    if opts.top_level {
        g = g.roots();
    }
    g
}

/// Prints a view as the options ask: the schedule keeps the strong edges
/// only; DOT or plain text.
pub fn print_output<'g>(graph: Subgraph<'g, String, Dependency>, output_opts: &OutputOpts) -> (r: String)
    ensures
        r@ == printed(graph.graph(), graph.vmask(), graph.emask(), output_opts),
{
    let strong = |e: &Dependency| -> (b: bool)
        ensures
            b == is_strong(*e),
        { *e == Dependency::Strong };
    let mut g = graph;
    let format = if !output_opts.dependencies {
        assert(computes(strong, strong_labels()));
        g = g.filter_edges(strong);
        DotFormat::Schedule
    } else {
        DotFormat::Dependencies
    };
    let listed = g.iter();
    if output_opts.dot {
        to_dot(&listed, format)
    } else {
        to_text(&listed, TextFormat::Simple)
    }
}

/// What `print` shows of a graph: the full text, or the scoped output.
pub fn print_graph(graph: &Graph<String, Dependency>, output_opts: &OutputOpts) -> (r: String)
    ensures
        ({
            let n = graph.keys().len() as int;
            let vm = full_vertex_mask(n);
            let em = full_edge_mask(graph.rows());
            if output_opts.full {
                r@ == text_of(graph@, TextFormat::Full, graph@.len() as int)
            } else {
                let (svm, sem) = scope_masks(*graph, vm, em, scope_of(output_opts), output_opts.top_level);
                r@ == printed(*graph, svm, sem, output_opts)
            }
        }),
{
    if output_opts.full {
        return to_text(&graph.iter(), TextFormat::Full);
    }
    let whole = Subgraph::whole(graph);
    let scoped = scope_graph(whole, output_opts);
    print_output(scoped, output_opts)
}

/// The vertex mask cut down to the vertices named in `names`.
pub open spec fn listed_vertex_mask(g: Graph<String, Dependency>, vm: Seq<bool>, names: Seq<Seq<char>>) -> Seq<bool> {
    vertex_mask_keeping(vm, |i: int| names.contains(g.vertex(i)@))
}

/// The masks of what `diff` prints: the scoped graph cut down to the
/// affected components, grown along strong edges if asked.
pub open spec fn diff_masks(g: Graph<String, Dependency>, changed: Seq<Seq<char>>, opts: &DiffOpts) -> (Seq<bool>, Seq<Seq<bool>>) {
    let n = g.keys().len() as int;
    let rows = g.rows();
    let (svm, sem) = scope_masks(g, full_vertex_mask(n), full_edge_mask(rows), scope_of(&opts.output_opts), opts.output_opts.top_level);
    let hit = selected(g.keys(), affected_mask(g, changed), n);
    let vm = listed_vertex_mask(g, svm, hit);
    let em = edge_mask_within(rows, vm, sem);
    if opts.rebuild_strong {
        (closure_vertex_mask(rows, vm, strong_labels()), closure_edge_mask(rows, vm, em, strong_labels()))
    } else {
        (vm, em)
    }
}

/// What `diff` prints for the changed components `changed`.
pub fn diff_graph(graph: &Graph<String, Dependency>, changed: &Vec<String>, opts: &DiffOpts) -> (r: String)
    ensures
        ({
            let (vm, em) = diff_masks(*graph, string_models(changed@), opts);
            let n = graph.keys().len() as int;
            if opts.output_opts.full {
                r@ == text_of(listing(graph.keys(), graph.rows(), vm, em, n), TextFormat::Full, listing(graph.keys(), graph.rows(), vm, em, n).len() as int)
            } else {
                r@ == printed(*graph, vm, em, &opts.output_opts)
            }
        }),
{
    let hit = affected(graph, changed);
    let whole = Subgraph::whole(graph);
    let scoped = scope_graph(whole, &opts.output_opts);
    let ghost svm = scoped.vmask();
    let inside = |v: &String| -> (b: bool)
        ensures
            b == keys_of(hit@).contains(v@),
        { holds(&hit, v) };
    let ghost in_hit = |v: String| keys_of(hit@).contains(v@);
    assert(computes(inside, in_hit));
    let narrowed = scoped.filter_vertices(inside);
    proof {
        assert(keys_of(hit@) == string_models(hit@));
        assert(narrowed.vmask() =~= listed_vertex_mask(*graph, svm, string_models(hit@)));
    }
    let strong = |e: &Dependency| -> (b: bool)
        ensures
            b == is_strong(*e),
        { *e == Dependency::Strong };
    let result = if opts.rebuild_strong {
        assert(computes(strong, strong_labels()));
        narrowed.expand_via(strong)
    } else {
        narrowed
    };
    if opts.output_opts.full {
        to_text(&result.iter(), TextFormat::Full)
    } else {
        print_output(result, &opts.output_opts)
    }
}

proof fn lemma_push_contains<T>(s: Seq<T>, a: T)
    ensures
        forall|x: T| #[trigger] s.push(a).contains(x) <==> (s.contains(x) || x == a),
{
    assert forall|x: T| #[trigger] s.push(a).contains(x) <==> (s.contains(x) || x == a) by {
        if s.push(a).contains(x) {
            let q = choose|q: int| 0 <= q < s.push(a).len() && s.push(a)[q] == x;
            if q < s.len() {
                assert(s[q] == x);
            }
        }
        if s.contains(x) {
            let q = choose|q: int| 0 <= q < s.len() && s[q] == x;
            assert(s.push(a)[q] == x);
        }
        if x == a {
            assert(s.push(a)[s.len() as int] == x);
        }
    }
}

/// The components that a change of `changed` impacts, ascending and each
/// once: the changed ones, and every component that depends on one of them,
/// directly or not.
pub fn impacted(dependencies: &adjacency::Graph<String, Dependency>, changed: &Vec<String>) -> (r: Vec<String>)
    ensures
        strictly_sorted::<String>(keys_of(r@)),
        forall|x: Seq<char>| #[trigger] keys_of(r@).contains(x) <==> (string_models(changed@).contains(x) || selected(
            dependencies.stored().keys(),
            closure_vertex_mask(
                reversed(dependencies.stored()).rows(),
                adjacency::children_mask(
                    reversed(dependencies.stored()).rows(),
                    adjacency::query_mask(dependencies.stored().keys(), string_models(changed@)),
                ),
                all_labels::<Dependency>(),
            ),
            dependencies.stored().keys().len() as int,
        ).contains(x)),
{
    let impact_graph = dependencies.reverse();
    let found = impact_graph.descendants(changed);
    let ghost desc = found@.map_values(|v: &String| v@);
    let mut out: Vec<String> = Vec::new();
    let mut i: usize = 0;
    while i < found.len()
        invariant
            desc == found@.map_values(|v: &String| v@),
            0 <= i <= found.len(),
            strictly_sorted::<String>(keys_of(out@)),
            forall|x: Seq<char>| #[trigger] keys_of(out@).contains(x) <==> desc.take(i as int).contains(x),
        decreases found.len() - i,
    {
        insert_sorted(&mut out, found[i]);
        proof {
            assert(desc.take(i + 1) =~= desc.take(i as int).push(desc[i as int]));
            assert(desc[i as int] == found@[i as int]@);
            lemma_push_contains(desc.take(i as int), desc[i as int]);
        }
        i = i + 1;
    }
    assert(desc.take(found.len() as int) == desc);
    let ghost ch = string_models(changed@);
    let mut k: usize = 0;
    while k < changed.len()
        invariant
            desc == found@.map_values(|v: &String| v@),
            ch == string_models(changed@),
            0 <= k <= changed.len(),
            strictly_sorted::<String>(keys_of(out@)),
            forall|x: Seq<char>| #[trigger] keys_of(out@).contains(x) <==> (desc.contains(x) || ch.take(k as int).contains(x)),
        decreases changed.len() - k,
    {
        insert_sorted(&mut out, &changed[k]);
        proof {
            assert(ch.take(k + 1) =~= ch.take(k as int).push(ch[k as int]));
            lemma_push_contains(ch.take(k as int), ch[k as int]);
        }
        k = k + 1;
    }
    proof {
        assert(ch.take(changed.len() as int) == ch);
        let g = dependencies.stored();
        let rev = reversed(g);
        lemma_reverse_unique(rev, impact_graph.stored(), g);
    }
    out
}

} // verus!
