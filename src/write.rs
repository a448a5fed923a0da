//! Rendering a listing of components and dependencies as text or as DOT.
use vstd::prelude::*;
use vstd::string::StringExecFns;
use crate::dependency::Dependency;
use crate::graph::listing_models;

verus! {

/// `Simple` lists dependencies by name; `Full` marks strong ones with `!`.
#[derive(Clone, Copy, Debug, PartialEq, Eq, Structural)]
pub enum TextFormat {
    Simple,
    Full,
}

/// `Dependencies` draws the dependency graph; `Schedule` the build schedule.
#[derive(Clone, Copy, Debug, PartialEq, Eq, Structural)]
pub enum DotFormat {
    Dependencies,
    Schedule,
}

/// A component and its dependencies, by name.
pub type Entry = (Seq<char>, Seq<(Seq<char>, Dependency)>);

/// How one dependency is written in text.
pub open spec fn dependency_text(d: (Seq<char>, Dependency), format: TextFormat) -> Seq<char> {
    if format == TextFormat::Full && d.1 == Dependency::Strong {
        "!"@ + d.0
    } else {
        d.0
    }
}

/// The first `n` dependencies written in text, separated by ", ".
pub open spec fn joined(ds: Seq<(Seq<char>, Dependency)>, format: TextFormat, n: int) -> Seq<char>
    decreases n,
{
    if n <= 0 {
        Seq::empty()
    } else if n == 1 {
        dependency_text(ds[0], format)
    } else {
        joined(ds, format, n - 1) + ", "@ + dependency_text(ds[n - 1], format)
    }
}

/// The text of the first `n` entries: one line `component: dependency, ...` each.
pub open spec fn text_of(l: Seq<Entry>, format: TextFormat, n: int) -> Seq<char>
    decreases n,
{
    if n <= 0 {
        Seq::empty()
    } else {
        text_of(l, format, n - 1) + l[n - 1].0 + ": "@ + joined(l[n - 1].1, format, l[n - 1].1.len() as int) + "\n"@
    }
}

/// The first line of a DOT graph.
pub open spec fn dot_header(format: DotFormat) -> Seq<char> {
    match format {
        DotFormat::Dependencies => "digraph dependencies {\n"@,
        DotFormat::Schedule => "digraph schedule {\n  randir=\"LR\"\n  node [shape=box]\n"@,
    }
}

/// One DOT edge: dashed when the dependency is weak.
pub open spec fn dot_edge(c: Seq<char>, d: (Seq<char>, Dependency)) -> Seq<char> {
    "  \""@ + c + "\" -> \""@ + d.0 + match d.1 {
        Dependency::Weak => "\" [style=dashed]\n"@,
        Dependency::Strong => "\"\n"@,
    }
}

/// The DOT edges of the first `n` dependencies of component `c`.
pub open spec fn dot_edges(c: Seq<char>, ds: Seq<(Seq<char>, Dependency)>, n: int) -> Seq<char>
    decreases n,
{
    if n <= 0 {
        Seq::empty()
    } else {
        dot_edges(c, ds, n - 1) + dot_edge(c, ds[n - 1])
    }
}

/// The DOT lines of one entry: a lone node, or its edges.
pub open spec fn dot_entry(e: Entry) -> Seq<char> {
    if e.1.len() == 0 {
        "  \""@ + e.0 + "\"\n"@
    } else {
        dot_edges(e.0, e.1, e.1.len() as int)
    }
}

/// The DOT lines of the first `n` entries.
pub open spec fn dot_body(l: Seq<Entry>, n: int) -> Seq<char>
    decreases n,
{
    if n <= 0 {
        Seq::empty()
    } else {
        dot_body(l, n - 1) + dot_entry(l[n - 1])
    }
}

/// The whole DOT graph.
pub open spec fn dot_of(l: Seq<Entry>, format: DotFormat) -> Seq<char> {
    dot_header(format) + dot_body(l, l.len() as int) + "}\n"@
}

fn push_dependency(out: &mut String, d: &(&String, Dependency), format: TextFormat)
    ensures
        final(out)@ == old(out)@ + dependency_text((d.0@, d.1), format),
{
    if format == TextFormat::Full && d.1 == Dependency::Strong {
        out.append("!");
    }
    out.append(d.0.as_str());
}

/// Writes each component on a line of its own, followed by its dependencies:
/// `component: dependency, dependency`.
pub fn to_text(graph: &Vec<(&String, Vec<(&String, Dependency)>)>, format: TextFormat) -> (r: String)
    ensures
        r@ == text_of(listing_models(graph@), format, graph@.len() as int),
{
    let ghost l = listing_models(graph@);
    let mut out = String::new();
    let mut i: usize = 0;
    while i < graph.len()
        invariant
            l == listing_models(graph@),
            0 <= i <= graph.len(),
            out@ == text_of(l, format, i as int),
        decreases graph.len() - i,
    {
        let (c, ds) = (graph[i].0, &graph[i].1);
        let ghost dm = ds@.map_values(|q: (&String, Dependency)| (q.0@, q.1));
        assert(l[i as int] == (c@, dm));
        out.append(c.as_str());
        out.append(": ");
        let ghost line_start = out@;
        let mut k: usize = 0;
        while k < ds.len()
            invariant
                dm == ds@.map_values(|q: (&String, Dependency)| (q.0@, q.1)),
                0 <= k <= ds.len(),
                out@ == line_start + joined(dm, format, k as int),
            decreases ds.len() - k,
        {
            if k > 0 {
                out.append(", ");
            }
            assert(dm[k as int] == (ds@[k as int].0@, ds@[k as int].1));
            push_dependency(&mut out, &ds[k], format);
            proof {
                if k == 0 {
                    assert(joined(dm, format, 0) == Seq::<char>::empty());
                    assert(out@ =~= line_start + joined(dm, format, 1));
                } else {
                    assert(out@ =~= line_start + joined(dm, format, k + 1));
                }
            }
            k = k + 1;
        }
        out.append("\n");
        proof {
            assert(out@ =~= text_of(l, format, i + 1));
        }
        i = i + 1;
    }
    out
}

/// Writes a DOT graph: a node for each component without dependencies, and
/// an edge for each dependency, dashed when it is weak.
pub fn to_dot(graph: &Vec<(&String, Vec<(&String, Dependency)>)>, format: DotFormat) -> (r: String)
    ensures
        r@ == dot_of(listing_models(graph@), format),
{
    let ghost l = listing_models(graph@);
    let mut out = String::new();
    match format {
        DotFormat::Dependencies => out.append("digraph dependencies {\n"),
        DotFormat::Schedule => out.append("digraph schedule {\n  randir=\"LR\"\n  node [shape=box]\n"),
    }
    assert(out@ == dot_header(format) + dot_body(l, 0));
    let mut i: usize = 0;
    while i < graph.len()
        invariant
            l == listing_models(graph@),
            0 <= i <= graph.len(),
            out@ == dot_header(format) + dot_body(l, i as int),
        decreases graph.len() - i,
    {
        let (c, ds) = (graph[i].0, &graph[i].1);
        let ghost dm = ds@.map_values(|q: (&String, Dependency)| (q.0@, q.1));
        assert(l[i as int] == (c@, dm));
        let ghost before = out@;
        if ds.len() == 0 {
            out.append("  \"");
            out.append(c.as_str());
            out.append("\"\n");
            assert(out@ =~= before + dot_entry(l[i as int]));
        } else {
            let mut k: usize = 0;
            while k < ds.len()
                invariant
                    dm == ds@.map_values(|q: (&String, Dependency)| (q.0@, q.1)),
                    0 <= k <= ds.len(),
                    out@ == before + dot_edges(c@, dm, k as int),
                decreases ds.len() - k,
            {
                let (d, kind) = (ds[k].0, ds[k].1);
                assert(dm[k as int] == (d@, kind));
                out.append("  \"");
                out.append(c.as_str());
                out.append("\" -> \"");
                out.append(d.as_str());
                match kind {
                    Dependency::Weak => out.append("\" [style=dashed]\n"),
                    Dependency::Strong => out.append("\"\n"),
                }
                assert(out@ =~= before + dot_edges(c@, dm, k + 1));
                k = k + 1;
            }
            assert(out@ =~= before + dot_entry(l[i as int]));
        }
        assert(out@ =~= dot_header(format) + dot_body(l, i + 1));
        i = i + 1;
    }
    out.append("}\n");
    out
}

} // verus!
